//! The diarization pipeline as a state machine.
//!
//! The pipeline decides; its caller reads audio, runs the segmentation,
//! embedding and transcription capabilities, and reports back. Each call of
//! `step` takes what the caller found, and returns the progress
//! notifications to emit and the next thing to do.

use vstd::prelude::*;
use vstd::string::*;
use crate::audio::{can_normalize, normalize_spec, try_normalize, PcmBuffer, TARGET_SAMPLE_RATE};
use crate::cluster::{DEFAULT_MAX_SPEAKERS, DEFAULT_SIMILARITY_THRESHOLD};
use crate::chunk::{
    chunk_end, chunk_start, copy_range, first_failure, transcript_spec, ChunkedTranscriber,
};
use crate::cluster::MAX_DIMENSION;
use crate::diarize::{
    diarize_audio, is_too_long, label_spec, lemma_first_too_long, segment_views, segments_spec,
    transcribed_segment, DiarizationError, DiarizedSegment, RawDiarizedSegment, SegmentView,
};
use crate::text::{decimal_spec, decimal_unsigned};
use crate::segment::{collect_regions, detected_regions, SpeechRegion};
use crate::text::views;

verus! {

/// Where a run stands.
#[derive(Clone, Copy, Debug, PartialEq, Eq, Structural)]
pub enum Stage {
    Loading,
    Diarizing,
    Transcribing,
    Done,
    Error,
}

impl Stage {
    /// The name of the stage in notifications.
    pub open spec fn name_spec(self) -> Seq<char> {
        match self {
            Stage::Loading => "loading"@,
            Stage::Diarizing => "diarizing"@,
            Stage::Transcribing => "transcribing"@,
            Stage::Done => "done"@,
            Stage::Error => "error"@,
        }
    }

    /// The name of the stage in notifications.
    pub fn name(self) -> (name: &'static str)
        ensures
            name@ == self.name_spec(),
    {
        match self {
            Stage::Loading => "loading",
            Stage::Diarizing => "diarizing",
            Stage::Transcribing => "transcribing",
            Stage::Done => "done",
            Stage::Error => "error",
        }
    }

    /// Position of the stage in a run; a run never goes back.
    pub open spec fn rank(self) -> int {
        match self {
            Stage::Loading => 0,
            Stage::Diarizing => 1,
            Stage::Transcribing => 2,
            Stage::Done => 3,
            Stage::Error => 3,
        }
    }

    /// A run that reached this stage is over.
    pub open spec fn is_final(self) -> bool {
        self == Stage::Done || self == Stage::Error
    }
}

/// A progress notification: the stage, and during transcription how many
/// of the regions are finished.
#[derive(Clone, Copy, Debug, PartialEq, Eq, Structural)]
pub struct Progress {
    pub stage: Stage,
    pub current: usize,
    pub total: usize,
}

/// Why a run ended without a result.
pub enum PipelineError {
    /// The audio could not be read; `message` is the cause.
    Loading { message: String },
    /// The audio has no sample rate, or is too long to be resampled.
    InvalidAudio,
    /// Speech segmentation failed; `message` is the cause.
    Segmentation { message: String },
    /// The embedding of `region` has more components than can be clustered.
    EmbeddingTooLong { region: usize },
    /// The caller cancelled the run.
    Cancelled,
    /// The caller reported something that the pipeline had not asked for.
    UnexpectedEvent,
}

impl PipelineError {
    /// The text of `message`.
    pub open spec fn message_spec(&self) -> Seq<char> {
        match self {
            PipelineError::Loading { message } => "Failed to read WAV file: "@ + message@,
            PipelineError::InvalidAudio => "Audio cannot be brought to the working sample rate"@,
            PipelineError::Segmentation { message } => "Segmentation failed: "@ + message@,
            PipelineError::EmbeddingTooLong { region } => "Embedding of region "@ + decimal_spec(
                *region as int,
            ) + " has too many components"@,
            PipelineError::Cancelled => "Cancelled"@,
            PipelineError::UnexpectedEvent => "Unexpected event"@,
        }
    }

    /// What went wrong, in words. The cause of a failed loading or
    /// segmentation follows the words that say which of them failed.
    pub fn message(&self) -> (text: String)
        ensures
            text@ == self.message_spec(),
    {
        match self {
            PipelineError::Loading { message } => {
                let mut text = String::from_str("Failed to read WAV file: ");
                text.append(message.as_str());
                text
            },
            PipelineError::InvalidAudio => String::from_str(
                "Audio cannot be brought to the working sample rate",
            ),
            PipelineError::Segmentation { message } => {
                let mut text = String::from_str("Segmentation failed: ");
                text.append(message.as_str());
                text
            },
            PipelineError::EmbeddingTooLong { region } => {
                let mut text = String::from_str("Embedding of region ");
                text.append(decimal_unsigned(*region as u128).as_str());
                text.append(" has too many components");
                text
            },
            PipelineError::Cancelled => String::from_str("Cancelled"),
            PipelineError::UnexpectedEvent => String::from_str("Unexpected event"),
        }
    }
}

/// What the caller reports to the pipeline.
pub enum Event {
    /// The audio as it was read, or why it could not be read.
    Loaded(Result<PcmBuffer, String>),
    /// What segmentation found, candidate by candidate, or why it failed.
    Segmented(Result<Vec<Result<SpeechRegion, String>>, String>),
    /// The embedding of the region asked for, or `None` if it could not be computed.
    Embedded(Option<Vec<i16>>),
    /// The text of the samples asked for, or why they could not be transcribed.
    Transcribed(Result<String, String>),
    /// The run is to end now.
    Cancelled,
}

/// What the pipeline asks of its caller.
pub enum Request {
    /// Read the audio and report `Loaded`.
    Load,
    /// Run segmentation on these mono samples and report `Segmented`.
    Segment { samples: Vec<i16>, sample_rate: u32 },
    /// Compute the embedding of these samples and report `Embedded`.
    Embed { region: usize, samples: Vec<i16> },
    /// Transcribe these samples and report `Transcribed`.
    Transcribe { region: usize, samples: Vec<i16> },
    /// The run is done: take the segments.
    Finish,
    /// The run failed: there is nothing more to do.
    Stop,
}

/// The answer of the pipeline to one event.
pub struct Step {
    /// Notifications to emit, in order.
    pub notifications: Vec<Progress>,
    /// What to do next.
    pub request: Request,
}

/// The limits of a run.
#[derive(Clone, Copy, Debug, PartialEq, Eq, Structural)]
pub struct DiarizationConfig {
    /// The largest number of speakers.
    pub max_speakers: usize,
    /// The similarity an embedding needs to join a known speaker, in units
    /// of `1 / SIMILARITY_ONE`.
    pub similarity_threshold: i64,
}

impl DiarizationConfig {
    /// The limits asked for, with the default in place of each that is not given.
    pub fn resolve(max_speakers: Option<usize>, similarity_threshold: Option<i64>) -> (config:
        DiarizationConfig)
        ensures
            config.max_speakers == match max_speakers {
                Some(limit) => limit,
                None => DEFAULT_MAX_SPEAKERS,
            },
            config.similarity_threshold == match similarity_threshold {
                Some(threshold) => threshold,
                None => DEFAULT_SIMILARITY_THRESHOLD,
            },
    {
        DiarizationConfig {
            max_speakers: match max_speakers {
                Some(limit) => limit,
                None => DEFAULT_MAX_SPEAKERS,
            },
            similarity_threshold: match similarity_threshold {
                Some(threshold) => threshold,
                None => DEFAULT_SIMILARITY_THRESHOLD,
            },
        }
    }
}

impl Default for DiarizationConfig {
    fn default() -> (config: DiarizationConfig)
        ensures
            config.max_speakers == DEFAULT_MAX_SPEAKERS,
            config.similarity_threshold == DEFAULT_SIMILARITY_THRESHOLD,
    {
        DiarizationConfig {
            max_speakers: DEFAULT_MAX_SPEAKERS,
            similarity_threshold: DEFAULT_SIMILARITY_THRESHOLD,
        }
    }
}

/// Which of the model files are in place.
#[derive(Clone, Copy, Debug, PartialEq, Eq, Structural)]
pub struct ModelFiles {
    /// The segmentation model is there.
    pub segmentation: bool,
    /// The embedding model is there.
    pub embedding: bool,
}

/// Why a run cannot start.
#[derive(Clone, Copy, Debug, PartialEq, Eq, Structural)]
pub enum PreconditionError {
    SegmentationModelMissing,
    EmbeddingModelMissing,
}

/// The model that is reported missing: the segmentation model before the
/// embedding model.
pub open spec fn missing_model(models: ModelFiles) -> PreconditionError {
    if !models.segmentation {
        PreconditionError::SegmentationModelMissing
    } else {
        PreconditionError::EmbeddingModelMissing
    }
}

/// Whether both model files are in place.
pub fn models_installed(models: ModelFiles) -> (installed: bool)
    ensures
        installed == (models.segmentation && models.embedding),
{
    models.segmentation && models.embedding
}

/// What the pipeline waits for.
#[derive(Clone, Copy, Debug, PartialEq, Eq, Structural)]
pub enum Waiting {
    Audio,
    Regions,
    Embedding,
    Transcript,
    Nothing,
}

/// Whether `event` is what a pipeline that waits for `waiting` asked for.
pub open spec fn answers(event: Event, waiting: Waiting) -> bool {
    match waiting {
        Waiting::Audio => event is Loaded,
        Waiting::Regions => event is Segmented,
        Waiting::Embedding => event is Embedded,
        Waiting::Transcript => event is Transcribed,
        Waiting::Nothing => false,
    }
}

/// The first region from `from` on that has samples, or the number of
/// regions if none has.
pub open spec fn next_audible(raw: Seq<RawDiarizedSegment>, from: int) -> int
    decreases raw.len() - from,
{
    if from >= raw.len() {
        raw.len() as int
    } else if raw[from].samples@.len() > 0 {
        from
    } else {
        next_audible(raw, from + 1)
    }
}

/// `texts` followed by `count` empty texts.
pub open spec fn with_empty_texts(texts: Seq<Seq<char>>, count: int) -> Seq<Seq<char>> {
    texts + Seq::new(count as nat, |k: int| Seq::<char>::empty())
}

/// The notifications `from + 1` of `total`, ..., `to` of `total`.
pub open spec fn progress_run(from: int, to: int, total: int) -> Seq<Progress> {
    Seq::new(
        (to - from) as nat,
        |k: int|
            Progress {
                stage: Stage::Transcribing,
                current: (from + k + 1) as usize,
                total: total as usize,
            },
    )
}

/// A notification of `stage` alone.
pub open spec fn stage_notice(stage: Stage) -> Progress {
    Progress { stage, current: 0, total: 0 }
}

/// The notifications that close a stretch of finished regions: one for
/// each region from `from` up to `to`, and `Done` if `to` is the last.
pub open spec fn closing_notifications(from: int, to: int, total: int) -> Seq<Progress> {
    if to >= total {
        progress_run(from, to, total).push(stage_notice(Stage::Done))
    } else {
        progress_run(from, to, total)
    }
}

/// The text of a region whose chunks had these outcomes: the transcript,
/// or nothing where a chunk failed.
pub open spec fn region_text(sample_len: int, outcomes: Seq<Result<String, String>>) -> Seq<char> {
    if first_failure(outcomes) == outcomes.len() {
        transcript_spec(sample_len, outcomes)
    } else {
        Seq::empty()
    }
}

/// How many of `notifications` announce `stage`.
pub open spec fn announcements(notifications: Seq<Progress>, stage: Stage) -> int
    decreases notifications.len(),
{
    if notifications.len() == 0 {
        0
    } else {
        announcements(notifications.drop_last(), stage) + if notifications.last().stage == stage {
            1int
        } else {
            0int
        }
    }
}

/// How many notifications of `stage` close a stretch of finished regions.
pub open spec fn closing_announcements(from: int, to: int, total: int, stage: Stage) -> int {
    if stage == Stage::Transcribing {
        to - from
    } else if stage == Stage::Done && to >= total {
        1
    } else {
        0
    }
}

/// Notifications put one after the other announce a stage as often as both together.
pub proof fn lemma_announcements_add(first: Seq<Progress>, second: Seq<Progress>, stage: Stage)
    ensures
        announcements(first + second, stage) == announcements(first, stage) + announcements(
            second,
            stage,
        ),
    decreases second.len(),
{
    if second.len() == 0 {
        assert(first + second =~= first);
    } else {
        assert((first + second).drop_last() =~= first + second.drop_last());
        lemma_announcements_add(first, second.drop_last(), stage);
    }
}

/// One notification announces its own stage once and no other.
pub proof fn lemma_announcements_of_one(notification: Progress, stage: Stage)
    ensures
        announcements(seq![notification], stage) == if notification.stage == stage {
            1int
        } else {
            0int
        },
{
    assert(seq![notification].drop_last() =~= Seq::<Progress>::empty());
    assert(announcements(Seq::<Progress>::empty(), stage) == 0);
    assert(seq![notification].last() == notification);
}

/// The notifications of a stretch of regions announce `Transcribing` once
/// for each region and no other stage.
pub proof fn lemma_progress_announcements(from: int, to: int, total: int, stage: Stage)
    requires
        from <= to,
    ensures
        announcements(progress_run(from, to, total), stage) == if stage == Stage::Transcribing {
            to - from
        } else {
            0
        },
    decreases to - from,
{
    let run = progress_run(from, to, total);
    if from < to {
        lemma_progress_announcements(from, to - 1, total, stage);
        assert(run.drop_last() =~= progress_run(from, to - 1, total));
        assert(run.last().stage == Stage::Transcribing);
    }
}

/// The notifications that close a stretch of regions announce
/// `Transcribing` once for each region, `Done` once if the run ends, and
/// no other stage.
pub proof fn lemma_closing_announcements(from: int, to: int, total: int, stage: Stage)
    requires
        from <= to,
    ensures
        announcements(closing_notifications(from, to, total), stage) == closing_announcements(
            from,
            to,
            total,
            stage,
        ),
{
    lemma_progress_announcements(from, to, total, stage);
    if to >= total {
        lemma_announcements_add(
            progress_run(from, to, total),
            seq![stage_notice(Stage::Done)],
            stage,
        );
        lemma_announcements_of_one(stage_notice(Stage::Done), stage);
        assert(closing_notifications(from, to, total) =~= progress_run(from, to, total)
            + seq![stage_notice(Stage::Done)]);
    }
}

/// One run of the diarization pipeline.
pub struct DiarizationPipeline {
    max_speakers: usize,
    threshold: i64,
    stage: Stage,
    waiting: Waiting,
    regions: Vec<SpeechRegion>,
    embeddings: Vec<Option<Vec<i16>>>,
    raw: Vec<RawDiarizedSegment>,
    texts: Vec<String>,
    transcriber: ChunkedTranscriber,
    segments: Vec<DiarizedSegment>,
    error: Option<PipelineError>,
}

impl DiarizationPipeline {
    /// The largest number of speakers of the run.
    pub closed spec fn max_speakers(&self) -> usize {
        self.max_speakers
    }

    /// The similarity an embedding needs to join a known speaker.
    pub closed spec fn threshold(&self) -> i64 {
        self.threshold
    }

    /// Where the run stands.
    pub closed spec fn stage(&self) -> Stage {
        self.stage
    }

    /// What the pipeline waits for.
    pub closed spec fn waiting(&self) -> Waiting {
        self.waiting
    }

    /// The speech regions, once segmentation has reported.
    pub closed spec fn regions(&self) -> Seq<SpeechRegion> {
        self.regions@
    }

    /// The embeddings reported so far, in region order.
    pub closed spec fn embeddings(&self) -> Seq<Option<Vec<i16>>> {
        self.embeddings@
    }

    /// The regions with their speakers, once every embedding has been reported.
    pub closed spec fn raw(&self) -> Seq<RawDiarizedSegment> {
        self.raw@
    }

    /// The texts of the regions whose transcription is over, in region order.
    pub closed spec fn texts(&self) -> Seq<Seq<char>> {
        views(self.texts@)
    }

    /// The outcomes of the chunks of the region that is being transcribed.
    pub closed spec fn outcomes(&self) -> Seq<Result<String, String>> {
        self.transcriber.outcomes()
    }

    /// The segments made so far.
    pub closed spec fn segments(&self) -> Seq<SegmentView> {
        segment_views(self.segments@)
    }

    /// Why the run failed, if it did.
    pub closed spec fn error(&self) -> Option<PipelineError> {
        self.error
    }

    /// The pipeline's invariant.
    pub closed spec fn well_formed(&self) -> bool {
        &&& self.texts@.len() <= self.raw@.len()
        &&& segment_views(self.segments@) == segments_spec(
            self.raw@,
            views(self.texts@),
            self.texts@.len() as int,
        )
        &&& self.stage == Stage::Error <==> self.error is Some
        &&& self.stage.rank() < 2 ==> self.texts@.len() == 0
        &&& self.waiting == Waiting::Embedding ==> forall|i: int|
            0 <= i < self.embeddings@.len() ==> !is_too_long(#[trigger] self.embeddings@[i])
        &&& match self.waiting {
            Waiting::Audio => self.stage == Stage::Loading,
            Waiting::Regions => self.stage == Stage::Diarizing,
            Waiting::Embedding => self.stage == Stage::Diarizing && self.embeddings@.len()
                < self.regions@.len(),
            Waiting::Transcript => {
                &&& self.stage == Stage::Transcribing
                &&& self.texts@.len() < self.raw@.len()
                &&& self.raw@[self.texts@.len() as int].samples@.len() > 0
                &&& self.transcriber.sample_len() == self.raw@[self.texts@.len() as int].samples@.len()
                &&& !self.transcriber.is_finished()
            },
            Waiting::Nothing => self.stage == Stage::Error || (self.stage == Stage::Done
                && self.texts@.len() == self.raw@.len()),
        }
    }

    /// What the invariant says of the stage: it goes with what the pipeline
    /// waits for, and a run that is done has a text for every region.
    pub proof fn lemma_stage_goes_with_waiting(&self)
        requires
            self.well_formed(),
        ensures
            self.waiting() == Waiting::Audio <==> self.stage() == Stage::Loading,
            self.waiting() == Waiting::Regions || self.waiting() == Waiting::Embedding
                <==> self.stage() == Stage::Diarizing,
            self.waiting() == Waiting::Transcript <==> self.stage() == Stage::Transcribing,
            self.waiting() == Waiting::Nothing <==> self.stage().is_final(),
            self.stage() == Stage::Error <==> self.error() is Some,
            self.texts().len() <= self.raw().len(),
            self.stage() == Stage::Done ==> self.texts().len() == self.raw().len(),
            self.segments() == segments_spec(self.raw(), self.texts(), self.texts().len() as int),
            self.stage().rank() < 2 ==> self.texts().len() == 0,
            self.waiting() == Waiting::Embedding ==> self.embeddings().len() < self.regions().len(),
    {
    }

    /// Starts a run: gives the pipeline with the first notification and
    /// the request to read the audio. With a model file missing the run
    /// does not start, and nothing is announced.
    pub fn start(config: DiarizationConfig, models: ModelFiles) -> (started: Result<
        (DiarizationPipeline, Step),
        PreconditionError,
    >)
        ensures
            started is Ok <==> models.segmentation && models.embedding,
            started matches Err(error) ==> error == missing_model(models),
            started matches Ok(run) ==> {
                &&& run.0.well_formed()
                &&& run.0.max_speakers() == config.max_speakers
                &&& run.0.threshold() == config.similarity_threshold
                &&& run.0.stage() == Stage::Loading
                &&& run.0.waiting() == Waiting::Audio
                &&& run.0.segments().len() == 0
                &&& run.0.texts().len() == 0
                &&& run.0.raw().len() == 0
                &&& run.0.error() is None
                &&& run.1.notifications@ == seq![stage_notice(Stage::Loading)]
                &&& run.1.request is Load
            },
    {
        if !models.segmentation {
            return Err(PreconditionError::SegmentationModelMissing);
        }
        if !models.embedding {
            return Err(PreconditionError::EmbeddingModelMissing);
        }
        let pipeline = DiarizationPipeline {
            max_speakers: config.max_speakers,
            threshold: config.similarity_threshold,
            stage: Stage::Loading,
            waiting: Waiting::Audio,
            regions: Vec::new(),
            embeddings: Vec::new(),
            raw: Vec::new(),
            texts: Vec::new(),
            transcriber: ChunkedTranscriber::new(0),
            segments: Vec::new(),
            error: None,
        };
        let mut notifications: Vec<Progress> = Vec::new();
        notifications.push(Progress { stage: Stage::Loading, current: 0, total: 0 });
        assert(segment_views(pipeline.segments@) =~= segments_spec(
            pipeline.raw@,
            views(pipeline.texts@),
            0,
        ));
        Ok((pipeline, Step { notifications, request: Request::Load }))
    }

    /// Where the run stands.
    pub fn current_stage(&self) -> (stage: Stage)
        ensures
            stage == self.stage(),
    {
        self.stage
    }

    /// What the pipeline waits for.
    pub fn waits_for(&self) -> (waiting: Waiting)
        ensures
            waiting == self.waiting(),
    {
        self.waiting
    }

    /// Why the run failed, if it did.
    pub fn failure(&self) -> (error: &Option<PipelineError>)
        ensures
            *error == self.error(),
    {
        &self.error
    }

    /// The segments made so far; after `Done`, the result of the run.
    pub fn diarized_segments(&self) -> (segments: &Vec<DiarizedSegment>)
        ensures
            segment_views(segments@) == self.segments(),
    {
        &self.segments
    }

    /// Gives up the pipeline for the segments made so far; after `Done`,
    /// the result of the run.
    pub fn into_segments(self) -> (segments: Vec<DiarizedSegment>)
        ensures
            segment_views(segments@) == self.segments(),
    {
        self.segments
    }

    /// Ends the run with `error`: what was made so far is discarded.
    fn fail(&mut self, error: PipelineError) -> (step: Step)
        ensures
            final(self).well_formed(),
            final(self).failed_from(old(self)),
            final(self).error() == Some(error),
            step.notifications@.len() == 0,
            step.request is Stop,
    {
        self.stage = Stage::Error;
        self.waiting = Waiting::Nothing;
        self.error = Some(error);
        self.texts = Vec::new();
        self.segments = Vec::new();
        assert(segment_views(self.segments@) =~= segments_spec(self.raw@, views(self.texts@), 0));
        Step { notifications: Vec::new(), request: Request::Stop }
    }

    /// The run failed: the stage is `Error`, nothing is waited for and no
    /// segment is left.
    pub open spec fn failed_from(&self, before: &DiarizationPipeline) -> bool {
        &&& self.stage() == Stage::Error
        &&& self.waiting() == Waiting::Nothing
        &&& self.segments().len() == 0
        &&& self.texts().len() == 0
        &&& self.max_speakers() == before.max_speakers()
        &&& self.threshold() == before.threshold()
    }

    /// How often one step announces `stage`, going from `before` to `self`:
    /// `Diarizing`, `Transcribing` and `Done` once when the run gets there,
    /// `Transcribing` once more for each region whose transcription is
    /// over, and nothing when the run fails.
    pub open spec fn announced_since(&self, before: &DiarizationPipeline, stage: Stage) -> int {
        match stage {
            Stage::Loading => 0,
            Stage::Error => 0,
            Stage::Diarizing => if before.stage() == Stage::Loading && self.stage()
                == Stage::Diarizing {
                1
            } else {
                0
            },
            Stage::Transcribing => if self.stage() == Stage::Error {
                0
            } else {
                (if before.waiting() == Waiting::Embedding && self.waiting()
                    != Waiting::Embedding {
                    1int
                } else {
                    0int
                }) + self.texts().len() - before.texts().len()
            },
            Stage::Done => if before.stage() != Stage::Done && self.stage() == Stage::Done {
                1
            } else {
                0
            },
        }
    }

    /// The limits of the run are those of `before`.
    pub open spec fn same_settings(&self, before: &DiarizationPipeline) -> bool {
        &&& self.max_speakers() == before.max_speakers()
        &&& self.threshold() == before.threshold()
    }

    /// The request for the chunk that the transcriber names next.
    fn chunk_request(&self) -> (request: Request)
        requires
            self.well_formed(),
            self.waiting() == Waiting::Transcript,
        ensures
            self.asks_for_chunk(request),
    {
        let region: usize = self.texts.len();
        match self.transcriber.next_chunk() {
            Some((start, end)) => Request::Transcribe {
                region,
                samples: copy_range(&self.raw[region].samples, start, end),
            },
            None => Request::Stop,
        }
    }

    /// `request` asks for the transcription of the next chunk of the region
    /// that is being transcribed.
    pub open spec fn asks_for_chunk(&self, request: Request) -> bool {
        let region = self.texts().len() as int;
        let len = self.raw()[region].samples@.len() as int;
        let index = self.outcomes().len() as int;
        request matches Request::Transcribe { region: r, samples } && r == region && samples@
            == self.raw()[region].samples@.subrange(chunk_start(index), chunk_end(len, index))
    }

    /// Takes up the transcription at the first region that has samples, or
    /// ends the run where no such region is left. `notifications` are
    /// those gathered so far.
    fn resume(&mut self, notifications: Vec<Progress>) -> (step: Step)
        requires
            old(self).stage == Stage::Transcribing,
            old(self).error is None,
            old(self).texts@.len() <= old(self).raw@.len(),
            segment_views(old(self).segments@) == segments_spec(
                old(self).raw@,
                views(old(self).texts@),
                old(self).texts@.len() as int,
            ),
        ensures
            final(self).well_formed(),
            final(self).same_settings(old(self)),
            final(self).raw() == old(self).raw(),
            final(self).resumed_from(old(self).texts(), notifications@, step),
    {
        let total: usize = self.raw.len();
        let ghost from = self.texts@.len() as int;
        let ghost target = next_audible(self.raw@, from);
        let ghost start_texts = views(self.texts@);
        let mut notifications = notifications;
        let ghost start_notifications = notifications@;
        proof {
            lemma_next_audible(self.raw@, from);
            assert(with_empty_texts(start_texts, 0) =~= start_texts);
            assert(start_notifications + progress_run(from, from, total as int)
                =~= start_notifications);
        }
        while self.texts.len() < total && self.raw[self.texts.len()].samples.len() == 0
            invariant
                total == self.raw@.len(),
                self.raw@ == old(self).raw@,
                self.max_speakers == old(self).max_speakers,
                self.threshold == old(self).threshold,
                self.stage == Stage::Transcribing,
                self.error is None,
                from <= self.texts@.len() <= target <= total,
                target == next_audible(self.raw@, self.texts@.len() as int),
                views(self.texts@) == with_empty_texts(start_texts, self.texts@.len() - from),
                notifications@ == start_notifications + progress_run(
                    from,
                    self.texts@.len() as int,
                    total as int,
                ),
                segment_views(self.segments@) == segments_spec(
                    self.raw@,
                    views(self.texts@),
                    self.texts@.len() as int,
                ),
            decreases total - self.texts@.len(),
        {
            let ghost done = self.texts@.len() as int;
            let ghost texts_before = views(self.texts@);
            proof {
                lemma_next_audible(self.raw@, done);
                lemma_next_audible(self.raw@, done + 1);
            }
            self.texts.push(String::new());
            notifications.push(
                Progress { stage: Stage::Transcribing, current: self.texts.len(), total },
            );
            proof {
                let texts_after = views(self.texts@);
                assert(texts_after =~= texts_before.push(Seq::<char>::empty()));
                assert(texts_after =~= with_empty_texts(start_texts, done + 1 - from));
                assert(notifications@ =~= start_notifications + progress_run(
                    from,
                    done + 1,
                    total as int,
                ));
                lemma_segments_spec_extends(self.raw@, texts_before, texts_after, done);
                crate::text::lemma_trim_of_empty();
                assert(segments_spec(self.raw@, texts_after, done + 1) == segments_spec(
                    self.raw@,
                    texts_after,
                    done,
                ));
            }
        }
        if self.texts.len() >= total {
            self.stage = Stage::Done;
            self.waiting = Waiting::Nothing;
            notifications.push(Progress { stage: Stage::Done, current: 0, total: 0 });
            assert(notifications@ =~= start_notifications + closing_notifications(
                from,
                target,
                total as int,
            ));
            Step { notifications, request: Request::Finish }
        } else {
            let region: usize = self.texts.len();
            self.transcriber = ChunkedTranscriber::new(self.raw[region].samples.len());
            self.waiting = Waiting::Transcript;
            assert(notifications@ =~= start_notifications + closing_notifications(
                from,
                target,
                total as int,
            ));
            let request = self.chunk_request();
            Step { notifications, request }
        }
    }

    /// The pipeline went on from a state with `texts`: the regions without
    /// samples that came next have empty texts now, every region that was
    /// closed has its notification, and the run is done or asks for the
    /// first chunk of the next region.
    pub open spec fn resumed_from(
        &self,
        texts: Seq<Seq<char>>,
        notifications: Seq<Progress>,
        step: Step,
    ) -> bool {
        let from = texts.len() as int;
        let total = self.raw().len() as int;
        let target = next_audible(self.raw(), from);
        &&& self.texts() == with_empty_texts(texts, target - from)
        &&& self.segments() == segments_spec(self.raw(), self.texts(), target)
        &&& step.notifications@ == notifications + closing_notifications(from, target, total)
        &&& if target >= total {
            &&& self.stage() == Stage::Done
            &&& self.waiting() == Waiting::Nothing
            &&& step.request is Finish
        } else {
            &&& self.stage() == Stage::Transcribing
            &&& self.waiting() == Waiting::Transcript
            &&& self.outcomes().len() == 0
            &&& self.asks_for_chunk(step.request)
        }
    }

    /// Takes one event and answers with the notifications to emit and the
    /// next request.
    ///
    /// A run that is over ignores every event. `Cancelled` ends a run at
    /// once, and so does an event that was not asked for; what was made so
    /// far is discarded. Otherwise:
    /// - `Loaded` brings the audio to mono at the target rate and asks for
    ///   segmentation; audio that could not be read, or cannot be
    ///   normalised, ends the run.
    /// - `Segmented` keeps the regions found. With none, the run is done,
    ///   with no segment. A failed segmentation ends the run.
    /// - `Embedded` records the embedding of one region. After the last,
    ///   the regions are given their speakers and transcription begins.
    /// - `Transcribed` records the text of one chunk. When a region is
    ///   through, its trimmed text makes a segment unless it is empty; a
    ///   region with a failed chunk has no text. Regions without samples
    ///   are not transcribed and have no text.
    pub fn step(&mut self, event: Event) -> (step: Step)
        requires
            old(self).well_formed(),
        ensures
            final(self).well_formed(),
            final(self).same_settings(old(self)),
            final(self).stage().rank() >= old(self).stage().rank(),
            final(self).steps_to(old(self), event, step),
            final(self).announces_as_expected(old(self), step),
    {
        let ghost given = event;
        let step = self.react(event);
        proof {
            Self::lemma_announcements_of_a_step(old(self), self, given, step);
        }
        step
    }

    /// What `step` does, case by case: `self` is the pipeline after the
    /// step, `before` the pipeline before it.
    pub open spec fn steps_to(&self, before: &DiarizationPipeline, event: Event, step: Step) -> bool {
        &&& self.stage().rank() >= before.stage().rank()
        &&& before.waiting() == Waiting::Nothing ==> self.unchanged_from(before, step)
        &&& before.waiting() != Waiting::Nothing && !answers(event, before.waiting()) ==> {
            &&& self.failed_from(before)
            &&& self.error() == Some(
                if event is Cancelled {
                    PipelineError::Cancelled
                } else {
                    PipelineError::UnexpectedEvent
                },
            )
            &&& step.notifications@.len() == 0
            &&& step.request is Stop
        }
        &&& before.waiting() == Waiting::Audio ==> (event matches Event::Loaded(audio)
            ==> self.loaded_from(before, audio, step))
        &&& before.waiting() == Waiting::Regions ==> (event matches Event::Segmented(found)
            ==> self.segmented_from(before, found, step))
        &&& before.waiting() == Waiting::Embedding ==> (event matches Event::Embedded(embedding)
            ==> self.embedded_from(before, embedding, step))
        &&& before.waiting() == Waiting::Transcript ==> (event matches Event::Transcribed(outcome)
            ==> self.transcribed_from(before, outcome, step))
    }

    /// Every stage is announced as often as `announced_since` says.
    pub open spec fn announces_as_expected(&self, before: &DiarizationPipeline, step: Step) -> bool {
        forall|stage: Stage| #[trigger]
            announcements(step.notifications@, stage) == self.announced_since(before, stage)
    }

    /// A step announces `Done` exactly once when the run gets done and at
    /// no other time, announces `Transcribing` once on getting there and
    /// once for each region that is through, and announces nothing when
    /// the run fails or is over.
    pub proof fn lemma_announcements_of_a_step(
        before: &DiarizationPipeline,
        after: &DiarizationPipeline,
        event: Event,
        step: Step,
    )
        requires
            before.well_formed(),
            after.well_formed(),
            after.steps_to(before, event, step),
        ensures
            after.announces_as_expected(before, step),
    {
        before.lemma_stage_goes_with_waiting();
        after.lemma_stage_goes_with_waiting();
        let total = after.raw().len() as int;
        assert forall|stage: Stage| #[trigger]
            announcements(step.notifications@, stage) == after.announced_since(
                before,
                stage,
            ) by {
            let notifications = step.notifications@;
            let expected = after.announced_since(before, stage);
            if before.waiting() == Waiting::Nothing {
                assert(notifications.len() == 0);
                assert(announcements(notifications, stage) == expected);
            } else if !answers(event, before.waiting()) {
                assert(notifications.len() == 0);
                assert(announcements(notifications, stage) == expected);
            } else if before.waiting() == Waiting::Audio {
                if notifications.len() > 0 {
                    lemma_announcements_of_one(stage_notice(Stage::Diarizing), stage);
                }
                assert(announcements(notifications, stage) == expected);
            } else if before.waiting() == Waiting::Regions {
                if notifications.len() > 0 {
                    lemma_announcements_of_one(stage_notice(Stage::Done), stage);
                }
                assert(announcements(notifications, stage) == expected);
            } else if before.waiting() == Waiting::Embedding {
                let embedding = event->Embedded_0;
                if is_too_long(embedding) {
                    assert(notifications.len() == 0);
                    assert(announcements(notifications, stage) == expected);
                } else if before.embeddings().push(embedding).len() >= before.regions().len() {
                    let first = Progress {
                        stage: Stage::Transcribing,
                        current: 0,
                        total: before.regions().len() as usize,
                    };
                    let target = next_audible(after.raw(), 0);
                    lemma_next_audible(after.raw(), 0);
                    lemma_announcements_of_one(first, stage);
                    lemma_closing_announcements(0, target, total, stage);
                    lemma_announcements_add(
                        seq![first],
                        closing_notifications(0, target, total),
                        stage,
                    );
                    assert(after.texts().len() == target);
                    assert(announcements(notifications, stage) == expected);
                } else {
                    assert(notifications.len() == 0);
                    assert(announcements(notifications, stage) == expected);
                }
            } else {
                let outcome = event->Transcribed_0;
                let region = before.texts().len() as int;
                let len = before.raw()[region].samples@.len() as int;
                let outcomes = before.outcomes().push(outcome);
                if !(outcome is Ok && outcomes.len() < crate::chunk::chunk_count(len)) {
                    let first = Progress {
                        stage: Stage::Transcribing,
                        current: (region + 1) as usize,
                        total: before.raw().len() as usize,
                    };
                    let target = next_audible(after.raw(), region + 1);
                    lemma_next_audible(after.raw(), region + 1);
                    lemma_announcements_of_one(first, stage);
                    lemma_closing_announcements(region + 1, target, total, stage);
                    lemma_announcements_add(
                        seq![first],
                        closing_notifications(region + 1, target, total),
                        stage,
                    );
                    assert(after.texts().len() == target);
                    assert(announcements(notifications, stage) == expected);
                } else {
                    assert(notifications.len() == 0);
                    assert(announcements(notifications, stage) == expected);
                }
            }
        }
    }

    /// Takes one event; see `step`.
    fn react(&mut self, event: Event) -> (step: Step)
        requires
            old(self).well_formed(),
        ensures
            final(self).well_formed(),
            final(self).same_settings(old(self)),
            final(self).stage().rank() >= old(self).stage().rank(),
            final(self).steps_to(old(self), event, step),
    {
        if let Waiting::Nothing = self.waiting {
            let request = if let Stage::Done = self.stage {
                Request::Finish
            } else {
                Request::Stop
            };
            return Step { notifications: Vec::new(), request };
        }
        match event {
            Event::Cancelled => self.fail(PipelineError::Cancelled),
            Event::Loaded(audio) => {
                if let Waiting::Audio = self.waiting {
                    self.on_loaded(audio)
                } else {
                    self.fail(PipelineError::UnexpectedEvent)
                }
            },
            Event::Segmented(found) => {
                if let Waiting::Regions = self.waiting {
                    self.on_segmented(found)
                } else {
                    self.fail(PipelineError::UnexpectedEvent)
                }
            },
            Event::Embedded(embedding) => {
                if let Waiting::Embedding = self.waiting {
                    self.on_embedded(embedding)
                } else {
                    self.fail(PipelineError::UnexpectedEvent)
                }
            },
            Event::Transcribed(outcome) => {
                if let Waiting::Transcript = self.waiting {
                    self.on_transcribed(outcome)
                } else {
                    self.fail(PipelineError::UnexpectedEvent)
                }
            },
        }
    }

    /// A run that is over stays as it is and asks for nothing new.
    pub open spec fn unchanged_from(&self, before: &DiarizationPipeline, step: Step) -> bool {
        &&& self.stage() == before.stage()
        &&& self.waiting() == before.waiting()
        &&& self.segments() == before.segments()
        &&& self.texts() == before.texts()
        &&& self.raw() == before.raw()
        &&& self.error() == before.error()
        &&& step.notifications@.len() == 0
        &&& if self.stage() == Stage::Done {
            step.request is Finish
        } else {
            step.request is Stop
        }
    }

    /// What `step` does with audio.
    pub open spec fn loaded_from(
        &self,
        before: &DiarizationPipeline,
        audio: Result<PcmBuffer, String>,
        step: Step,
    ) -> bool {
        match audio {
            Ok(buffer) => if can_normalize(buffer, TARGET_SAMPLE_RATE) {
                &&& self.stage() == Stage::Diarizing
                &&& self.waiting() == Waiting::Regions
                &&& self.segments().len() == 0
                &&& step.notifications@ == seq![stage_notice(Stage::Diarizing)]
                &&& step.request matches Request::Segment { samples, sample_rate }
                &&& sample_rate == TARGET_SAMPLE_RATE
                &&& samples@ == normalize_spec(
                    buffer.samples@,
                    buffer.channels as int,
                    buffer.sample_rate as int,
                    TARGET_SAMPLE_RATE as int,
                )
            } else {
                &&& self.failed_from(before)
                &&& self.error() == Some(PipelineError::InvalidAudio)
                &&& step.notifications@.len() == 0
                &&& step.request is Stop
            },
            Err(message) => {
                &&& self.failed_from(before)
                &&& self.error() == Some(PipelineError::Loading { message })
                &&& step.notifications@.len() == 0
                &&& step.request is Stop
            },
        }
    }

    fn on_loaded(&mut self, audio: Result<PcmBuffer, String>) -> (step: Step)
        requires
            old(self).well_formed(),
            old(self).waiting() == Waiting::Audio,
        ensures
            final(self).well_formed(),
            final(self).same_settings(old(self)),
            final(self).loaded_from(old(self), audio, step),
    {
        match audio {
            Err(message) => self.fail(PipelineError::Loading { message }),
            Ok(buffer) => {
                let normalized = match try_normalize(buffer, TARGET_SAMPLE_RATE) {
                    Some(normalized) => normalized,
                    None => {
                        return self.fail(PipelineError::InvalidAudio);
                    },
                };
                self.stage = Stage::Diarizing;
                self.waiting = Waiting::Regions;
                let mut notifications: Vec<Progress> = Vec::new();
                notifications.push(Progress { stage: Stage::Diarizing, current: 0, total: 0 });
                Step {
                    notifications,
                    request: Request::Segment {
                        samples: normalized.samples,
                        sample_rate: TARGET_SAMPLE_RATE,
                    },
                }
            },
        }
    }

    /// What `step` does with the outcome of segmentation.
    pub open spec fn segmented_from(
        &self,
        before: &DiarizationPipeline,
        found: Result<Vec<Result<SpeechRegion, String>>, String>,
        step: Step,
    ) -> bool {
        match found {
            Ok(detections) => {
                let regions = detected_regions(detections@);
                &&& self.regions() == regions
                &&& self.raw().len() == 0
                &&& self.segments().len() == 0
                &&& if regions.len() == 0 {
                    &&& self.stage() == Stage::Done
                    &&& self.waiting() == Waiting::Nothing
                    &&& step.notifications@ == seq![stage_notice(Stage::Done)]
                    &&& step.request is Finish
                } else {
                    &&& self.stage() == Stage::Diarizing
                    &&& self.waiting() == Waiting::Embedding
                    &&& self.embeddings().len() == 0
                    &&& step.notifications@.len() == 0
                    &&& step.request matches Request::Embed { region, samples }
                    &&& region == 0
                    &&& samples@ == regions[0].samples@
                }
            },
            Err(message) => {
                &&& self.failed_from(before)
                &&& self.error() == Some(PipelineError::Segmentation { message })
                &&& step.notifications@.len() == 0
                &&& step.request is Stop
            },
        }
    }

    fn on_segmented(&mut self, found: Result<Vec<Result<SpeechRegion, String>>, String>) -> (step:
        Step)
        requires
            old(self).well_formed(),
            old(self).waiting() == Waiting::Regions,
        ensures
            final(self).well_formed(),
            final(self).same_settings(old(self)),
            final(self).segmented_from(old(self), found, step),
    {
        match found {
            Err(message) => self.fail(PipelineError::Segmentation { message }),
            Ok(detections) => {
                self.regions = collect_regions(detections);
                self.embeddings = Vec::new();
                self.raw = Vec::new();
                self.texts = Vec::new();
                self.segments = Vec::new();
                assert(segment_views(self.segments@) =~= segments_spec(
                    self.raw@,
                    views(self.texts@),
                    0,
                ));
                if self.regions.len() == 0 {
                    self.stage = Stage::Done;
                    self.waiting = Waiting::Nothing;
                    let mut notifications: Vec<Progress> = Vec::new();
                    notifications.push(Progress { stage: Stage::Done, current: 0, total: 0 });
                    Step { notifications, request: Request::Finish }
                } else {
                    self.waiting = Waiting::Embedding;
                    let samples = copy_range(
                        &self.regions[0].samples,
                        0,
                        self.regions[0].samples.len(),
                    );
                    assert(samples@ =~= self.regions@[0].samples@);
                    Step {
                        notifications: Vec::new(),
                        request: Request::Embed { region: 0, samples },
                    }
                }
            },
        }
    }

    /// What `step` does with an embedding.
    pub open spec fn embedded_from(
        &self,
        before: &DiarizationPipeline,
        embedding: Option<Vec<i16>>,
        step: Step,
    ) -> bool {
        let embeddings = before.embeddings().push(embedding);
        let regions = before.regions();
        if is_too_long(embedding) {
            &&& self.failed_from(before)
            &&& self.error() == Some(
                PipelineError::EmbeddingTooLong { region: before.embeddings().len() as usize },
            )
            &&& step.notifications@.len() == 0
            &&& step.request is Stop
        } else if embeddings.len() < regions.len() {
            &&& self.stage() == Stage::Diarizing
            &&& self.waiting() == Waiting::Embedding
            &&& self.regions() == regions
            &&& self.embeddings() == embeddings
            &&& self.segments().len() == 0
            &&& step.notifications@.len() == 0
            &&& step.request matches Request::Embed { region, samples }
            &&& region == embeddings.len()
            &&& samples@ == regions[embeddings.len() as int].samples@
        } else {
            &&& self.raw().len() == regions.len()
            &&& forall|i: int|
                0 <= i < regions.len() ==> {
                    &&& (#[trigger] self.raw()[i]).start_ms == regions[i].start_ms
                    &&& self.raw()[i].end_ms == regions[i].end_ms
                    &&& self.raw()[i].samples == regions[i].samples
                    &&& self.raw()[i].speaker == label_spec(
                        embeddings,
                        i,
                        before.max_speakers() as int,
                        before.threshold() as int,
                    )
                }
            &&& self.resumed_from(
                Seq::empty(),
                seq![
                    Progress {
                        stage: Stage::Transcribing,
                        current: 0,
                        total: regions.len() as usize,
                    },
                ],
                step,
            )
        }
    }

    fn on_embedded(&mut self, embedding: Option<Vec<i16>>) -> (step: Step)
        requires
            old(self).well_formed(),
            old(self).waiting() == Waiting::Embedding,
        ensures
            final(self).well_formed(),
            final(self).same_settings(old(self)),
            final(self).embedded_from(old(self), embedding, step),
    {
        let region: usize = self.embeddings.len();
        let too_long: bool = match &embedding {
            Some(components) => components.len() > MAX_DIMENSION,
            None => false,
        };
        if too_long {
            return self.fail(PipelineError::EmbeddingTooLong { region });
        }
        self.embeddings.push(embedding);
        let next: usize = self.embeddings.len();
        if next < self.regions.len() {
            let samples = copy_range(
                &self.regions[next].samples,
                0,
                self.regions[next].samples.len(),
            );
            assert(samples@ =~= self.regions@[next as int].samples@);
            return Step {
                notifications: Vec::new(),
                request: Request::Embed { region: next, samples },
            };
        }
        let mut regions: Vec<SpeechRegion> = Vec::new();
        core::mem::swap(&mut regions, &mut self.regions);
        let total: usize = regions.len();
        proof {
            lemma_first_too_long(self.embeddings@);
        }
        match diarize_audio(regions, &self.embeddings, self.max_speakers, self.threshold) {
            Ok(raw) => {
                self.raw = raw;
            },
            Err(DiarizationError::EmbeddingTooLong { region }) => {
                return self.fail(PipelineError::EmbeddingTooLong { region });
            },
        }
        self.texts = Vec::new();
        self.segments = Vec::new();
        self.stage = Stage::Transcribing;
        let mut notifications: Vec<Progress> = Vec::new();
        notifications.push(Progress { stage: Stage::Transcribing, current: 0, total });
        assert(views(self.texts@) =~= Seq::<Seq<char>>::empty());
        assert(segment_views(self.segments@) =~= segments_spec(self.raw@, views(self.texts@), 0));
        self.resume(notifications)
    }

    /// What `step` does with the text of a chunk.
    pub open spec fn transcribed_from(
        &self,
        before: &DiarizationPipeline,
        outcome: Result<String, String>,
        step: Step,
    ) -> bool {
        let region = before.texts().len() as int;
        let len = before.raw()[region].samples@.len() as int;
        let outcomes = before.outcomes().push(outcome);
        &&& self.raw() == before.raw()
        &&& if outcome is Ok && outcomes.len() < crate::chunk::chunk_count(len) {
            &&& self.stage() == Stage::Transcribing
            &&& self.waiting() == Waiting::Transcript
            &&& self.texts() == before.texts()
            &&& self.segments() == before.segments()
            &&& self.outcomes() == outcomes
            &&& step.notifications@.len() == 0
            &&& self.asks_for_chunk(step.request)
        } else {
            self.resumed_from(
                before.texts().push(region_text(len, outcomes)),
                seq![
                    Progress {
                        stage: Stage::Transcribing,
                        current: (region + 1) as usize,
                        total: before.raw().len() as usize,
                    },
                ],
                step,
            )
        }
    }

    fn on_transcribed(&mut self, outcome: Result<String, String>) -> (step: Step)
        requires
            old(self).well_formed(),
            old(self).waiting() == Waiting::Transcript,
        ensures
            final(self).well_formed(),
            final(self).same_settings(old(self)),
            final(self).transcribed_from(old(self), outcome, step),
    {
        let region: usize = self.texts.len();
        let total: usize = self.raw.len();
        self.transcriber.record(outcome);
        if self.transcriber.next_chunk().is_some() {
            let request = self.chunk_request();
            return Step { notifications: Vec::new(), request };
        }
        let text: String = match self.transcriber.finish() {
            Ok(text) => text,
            Err(_) => String::new(),
        };
        let ghost texts_before = views(self.texts@);
        let made = transcribed_segment(&self.raw[region], text.as_str());
        self.texts.push(text);
        proof {
            let texts_after = views(self.texts@);
            assert(texts_after =~= texts_before.push(text@));
            lemma_segments_spec_extends(self.raw@, texts_before, texts_after, region as int);
        }
        match made {
            Some(segment) => {
                let ghost segments_before = segment_views(self.segments@);
                self.segments.push(segment);
                assert(segment_views(self.segments@) =~= segments_before.push(segment@));
            },
            None => {},
        }
        let mut notifications: Vec<Progress> = Vec::new();
        notifications.push(Progress { stage: Stage::Transcribing, current: region + 1, total });
        self.resume(notifications)
    }
}

/// What `next_audible` finds: a region with samples, with only regions
/// without samples between `from` and it.
pub proof fn lemma_next_audible(raw: Seq<RawDiarizedSegment>, from: int)
    requires
        0 <= from <= raw.len(),
    ensures
        from <= next_audible(raw, from) <= raw.len(),
        next_audible(raw, from) < raw.len() ==> raw[next_audible(raw, from)].samples@.len() > 0,
        forall|i: int|
            from <= i < next_audible(raw, from) ==> (#[trigger] raw[i]).samples@.len() == 0,
        from < raw.len() && raw[from].samples@.len() == 0 ==> next_audible(raw, from)
            == next_audible(raw, from + 1),
    decreases raw.len() - from,
{
    if from < raw.len() && raw[from].samples@.len() == 0 {
        lemma_next_audible(raw, from + 1);
    }
}

/// The segments of the first `n` regions depend on the first `n` texts alone.
pub proof fn lemma_segments_spec_extends(
    raw: Seq<RawDiarizedSegment>,
    texts: Seq<Seq<char>>,
    longer: Seq<Seq<char>>,
    n: int,
)
    requires
        0 <= n <= texts.len() <= longer.len(),
        forall|i: int| 0 <= i < n ==> texts[i] == longer[i],
    ensures
        segments_spec(raw, longer, n) == segments_spec(raw, texts, n),
    decreases n,
{
    if n > 0 {
        lemma_segments_spec_extends(raw, texts, longer, n - 1);
    }
}

/// A run: every state is well formed and follows from the one before it
/// by the step that answers one event.
pub open spec fn is_run(
    states: Seq<DiarizationPipeline>,
    events: Seq<Event>,
    steps: Seq<Step>,
) -> bool {
    &&& states.len() == events.len() + 1
    &&& steps.len() == events.len()
    &&& forall|i: int| 0 <= i < states.len() ==> (#[trigger] states[i]).well_formed()
    &&& forall|i: int|
        0 <= i < steps.len() ==> states[i + 1].steps_to(&states[i], events[i], #[trigger] steps[i])
}

/// How many notifications of all `steps` together announce `stage`.
pub open spec fn announced_in_run(steps: Seq<Step>, stage: Stage) -> int
    decreases steps.len(),
{
    if steps.len() == 0 {
        0
    } else {
        announced_in_run(steps.drop_last(), stage) + announcements(
            steps.last().notifications@,
            stage,
        )
    }
}

/// Whether a run in this state has announced that it transcribes: it
/// transcribes now, or it is done and had regions.
pub open spec fn has_transcribed(state: DiarizationPipeline) -> bool {
    state.stage() == Stage::Transcribing || (state.stage() == Stage::Done && state.raw().len() > 0)
}

/// Over a whole run from its start, whatever the events:
/// - `Done` is announced once if the run ends done, and never otherwise;
/// - `Diarizing` is announced at most once, and once if the run got there;
/// - `Transcribing` is announced once on getting there and once more for
///   each region whose transcription is over;
/// - no step announces `Loading` or `Error`.
pub proof fn lemma_announcements_of_a_run(
    states: Seq<DiarizationPipeline>,
    events: Seq<Event>,
    steps: Seq<Step>,
)
    requires
        is_run(states, events, steps),
        states[0].stage() == Stage::Loading,
    ensures
        announced_in_run(steps, Stage::Done) == if states.last().stage() == Stage::Done {
            1int
        } else {
            0int
        },
        announced_in_run(steps, Stage::Loading) == 0,
        announced_in_run(steps, Stage::Error) == 0,
        0 <= announced_in_run(steps, Stage::Diarizing) <= 1,
        states.last().stage() != Stage::Error ==> announced_in_run(steps, Stage::Diarizing) == if
            states.last().stage() == Stage::Loading {
            0int
        } else {
            1int
        },
        states.last().stage() != Stage::Error ==> announced_in_run(steps, Stage::Transcribing)
            == states.last().texts().len() + if has_transcribed(states.last()) {
            1int
        } else {
            0int
        },
    decreases steps.len(),
{
    let last = states.last();
    last.lemma_stage_goes_with_waiting();
    if steps.len() > 0 {
        let n = steps.len() as int;
        let before = states[n - 1];
        let front_states = states.drop_last();
        let front_events = events.drop_last();
        let front_steps = steps.drop_last();
        assert(is_run(front_states, front_events, front_steps)) by {
            assert forall|i: int| 0 <= i < front_states.len() implies (
            #[trigger] front_states[i]).well_formed() by {
                assert(front_states[i] == states[i]);
            }
            assert forall|i: int| 0 <= i < front_steps.len() implies front_states[i
                + 1].steps_to(&front_states[i], front_events[i], #[trigger] front_steps[i]) by {
                assert(front_steps[i] == steps[i]);
                assert(front_states[i] == states[i]);
                assert(front_states[i + 1] == states[i + 1]);
                assert(front_events[i] == events[i]);
            }
        }
        assert(front_states[0] == states[0]);
        assert(front_states.last() == before);
        lemma_announcements_of_a_run(front_states, front_events, front_steps);
        let step = steps[n - 1];
        assert(steps.last() == step);
        assert(states[n] == last);
        assert(last.steps_to(&before, events[n - 1], step));
        assert(before.well_formed());
        before.lemma_stage_goes_with_waiting();
        DiarizationPipeline::lemma_announcements_of_a_step(&before, &last, events[n - 1], step);
        assert(announcements(step.notifications@, Stage::Done) == last.announced_since(
            &before,
            Stage::Done,
        ));
        assert(announcements(step.notifications@, Stage::Loading) == last.announced_since(
            &before,
            Stage::Loading,
        ));
        assert(announcements(step.notifications@, Stage::Error) == last.announced_since(
            &before,
            Stage::Error,
        ));
        assert(announcements(step.notifications@, Stage::Diarizing) == last.announced_since(
            &before,
            Stage::Diarizing,
        ));
        assert(announcements(step.notifications@, Stage::Transcribing) == last.announced_since(
            &before,
            Stage::Transcribing,
        ));
        lemma_raw_is_kept(&before, &last, events[n - 1], step);
    }
}

/// Once transcription has begun, a step leaves the labelled regions as
/// they are; before it has, there are none.
pub proof fn lemma_raw_is_kept(
    before: &DiarizationPipeline,
    after: &DiarizationPipeline,
    event: Event,
    step: Step,
)
    requires
        before.well_formed(),
        after.well_formed(),
        after.steps_to(before, event, step),
    ensures
        before.stage() == Stage::Transcribing && after.stage() != Stage::Error ==> after.raw()
            == before.raw(),
        before.stage() == Stage::Done ==> after.raw() == before.raw(),
        before.waiting() == Waiting::Embedding && after.stage().rank() >= 2 && after.stage()
            != Stage::Error ==> after.raw().len() > 0,
        before.waiting() != Waiting::Embedding && before.stage().rank() < 2 && after.stage()
            == Stage::Done ==> after.raw().len() == 0,
{
    before.lemma_stage_goes_with_waiting();
    after.lemma_stage_goes_with_waiting();
}

} // verus!
