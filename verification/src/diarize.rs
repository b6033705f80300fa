//! Diarization: speech regions are given speakers from their embeddings,
//! and transcribed regions become the segments of the transcript.

use vstd::prelude::*;
use vstd::string::*;
use crate::cluster::{
    assign, chosen_speaker, lemma_assignment_keeps_profiles, lemma_assignment_respects_limit,
    lemma_repeated_embedding_keeps_its_speaker, lemma_run_stays_within_limit,
    profiles_well_formed, speakers_after, speakers_after_run, squared_length, ProfileView,
    SpeakerRegistry, MAX_DIMENSION, SIMILARITY_ONE,
};
use crate::segment::SpeechRegion;
use crate::text::{decimal, decimal_spec, join, join_spec, trim, trim_spec, views};

verus! {

/// A speech region with its speaker, before transcription. The speaker is
/// `None` where the region's embedding could not be had.
pub struct RawDiarizedSegment {
    pub speaker: Option<i32>,
    pub start_ms: i64,
    pub end_ms: i64,
    pub samples: Vec<i16>,
}

/// A transcribed speech region: who spoke, when, and what.
pub struct DiarizedSegment {
    pub speaker: Option<i32>,
    pub start_ms: i64,
    pub end_ms: i64,
    pub text: String,
}

/// A segment as contracts see it.
pub struct SegmentView {
    pub speaker: Option<i32>,
    pub start_ms: i64,
    pub end_ms: i64,
    pub text: Seq<char>,
}

impl View for DiarizedSegment {
    type V = SegmentView;

    open spec fn view(&self) -> SegmentView {
        SegmentView {
            speaker: self.speaker,
            start_ms: self.start_ms,
            end_ms: self.end_ms,
            text: self.text@,
        }
    }
}

/// The segments as contracts see them.
pub open spec fn segment_views(segments: Seq<DiarizedSegment>) -> Seq<SegmentView> {
    Seq::new(segments.len(), |i: int| segments[i]@)
}

/// Speaker identities are stored in 32 bits, so no run holds more speakers
/// than this.
pub const SPEAKER_LIMIT: usize = 0x8000_0000;

/// The limit on speakers that a run works with.
pub open spec fn effective_limit(max_speakers: int) -> int {
    if max_speakers <= SPEAKER_LIMIT {
        max_speakers
    } else {
        SPEAKER_LIMIT as int
    }
}

/// An embedding that was computed and is short enough to be clustered.
pub open spec fn is_clusterable(embedding: Option<Vec<i16>>) -> bool {
    embedding matches Some(e) && e@.len() <= MAX_DIMENSION
}

/// Index of the first embedding that can be clustered, or the number of
/// embeddings if none can.
pub open spec fn first_clusterable(embeddings: Seq<Option<Vec<i16>>>) -> int
    decreases embeddings.len(),
{
    if embeddings.len() == 0 {
        0
    } else {
        let before = first_clusterable(embeddings.drop_last());
        if before < embeddings.len() - 1 {
            before
        } else if is_clusterable(embeddings.last()) {
            embeddings.len() - 1
        } else {
            embeddings.len() as int
        }
    }
}

/// The number of components that the embeddings of a run have: that of the
/// first embedding that can be clustered.
pub open spec fn run_dimension(embeddings: Seq<Option<Vec<i16>>>) -> int {
    let first = first_clusterable(embeddings);
    if first < embeddings.len() {
        embeddings[first]->Some_0@.len() as int
    } else {
        0
    }
}

/// An embedding that was computed and has `dimension` components.
pub open spec fn fits(embedding: Option<Vec<i16>>, dimension: int) -> bool {
    embedding matches Some(e) && e@.len() == dimension
}

/// The embeddings among the first `n` that take part in clustering, in order.
pub open spec fn clustered_before(
    embeddings: Seq<Option<Vec<i16>>>,
    dimension: int,
    n: int,
) -> Seq<Seq<i16>>
    decreases n,
{
    if n <= 0 {
        Seq::empty()
    } else {
        let before = clustered_before(embeddings, dimension, n - 1);
        if n <= embeddings.len() && fits(embeddings[n - 1], dimension) {
            before.push(embeddings[n - 1]->Some_0@)
        } else {
            before
        }
    }
}

/// The speakers known before region `i` is looked at.
pub open spec fn speakers_before(
    embeddings: Seq<Option<Vec<i16>>>,
    i: int,
    max_speakers: int,
    threshold: int,
) -> Seq<ProfileView> {
    speakers_after_run(
        clustered_before(embeddings, run_dimension(embeddings), i),
        Seq::empty(),
        effective_limit(max_speakers),
        threshold,
    )
}

/// The speaker of region `i`: the one its embedding is assigned to after
/// the embeddings before it, or `None` where the region has no embedding
/// that fits the run.
pub open spec fn label_spec(
    embeddings: Seq<Option<Vec<i16>>>,
    i: int,
    max_speakers: int,
    threshold: int,
) -> Option<i32> {
    if 0 <= i < embeddings.len() && fits(embeddings[i], run_dimension(embeddings)) {
        Some(
            chosen_speaker(
                embeddings[i]->Some_0@,
                speakers_before(embeddings, i, max_speakers, threshold),
                effective_limit(max_speakers),
                threshold,
            ) as i32,
        )
    } else {
        None
    }
}

/// The number of components that the embeddings of a run have.
pub fn embedding_dimension(embeddings: &Vec<Option<Vec<i16>>>) -> (dimension: usize)
    ensures
        dimension == run_dimension(embeddings@),
        dimension <= MAX_DIMENSION,
{
    let mut i: usize = 0;
    while i < embeddings.len()
        invariant
            i <= embeddings.len(),
            first_clusterable(embeddings@.take(i as int)) == i,
        decreases embeddings.len() - i,
    {
        let ghost grown = embeddings@.take(i + 1);
        proof {
            assert(grown.drop_last() =~= embeddings@.take(i as int));
            assert(grown.last() == embeddings@[i as int]);
        }
        match &embeddings[i] {
            Some(e) => {
                if e.len() <= MAX_DIMENSION {
                    proof {
                        lemma_first_clusterable_is_stable(embeddings@, i as int);
                    }
                    return e.len();
                }
            },
            None => {},
        }
        i = i + 1;
    }
    assert(embeddings@.take(embeddings.len() as int) =~= embeddings@);
    0
}

/// The first embedding that can be clustered stays the first when more
/// embeddings follow.
pub proof fn lemma_first_clusterable_is_stable(embeddings: Seq<Option<Vec<i16>>>, i: int)
    requires
        0 <= i < embeddings.len(),
        first_clusterable(embeddings.take(i)) == i,
        is_clusterable(embeddings[i]),
    ensures
        first_clusterable(embeddings) == i,
    decreases embeddings.len(),
{
    if i == embeddings.len() - 1 {
        assert(embeddings.drop_last() =~= embeddings.take(i));
    } else {
        let front = embeddings.drop_last();
        assert(front.take(i) =~= embeddings.take(i));
        lemma_first_clusterable_is_stable(front, i);
    }
}

/// Why regions could not be given speakers.
#[derive(Clone, Copy, Debug, PartialEq, Eq, Structural)]
pub enum DiarizationError {
    /// The embedding of `region` has more than `MAX_DIMENSION` components.
    EmbeddingTooLong { region: usize },
}

/// An embedding that was computed and has more components than the
/// clustering arithmetic can take.
pub open spec fn is_too_long(embedding: Option<Vec<i16>>) -> bool {
    embedding matches Some(e) && e@.len() > MAX_DIMENSION
}

/// Index of the first embedding that is too long, or the number of
/// embeddings if none is.
pub open spec fn first_too_long(embeddings: Seq<Option<Vec<i16>>>) -> int
    decreases embeddings.len(),
{
    if embeddings.len() == 0 {
        0
    } else {
        let before = first_too_long(embeddings.drop_last());
        if before < embeddings.len() - 1 {
            before
        } else if is_too_long(embeddings.last()) {
            embeddings.len() - 1
        } else {
            embeddings.len() as int
        }
    }
}

/// What `first_too_long` finds: an embedding that is too long with none
/// such before it, or nothing where no embedding is too long.
pub proof fn lemma_first_too_long(embeddings: Seq<Option<Vec<i16>>>)
    ensures
        0 <= first_too_long(embeddings) <= embeddings.len(),
        first_too_long(embeddings) < embeddings.len() ==> is_too_long(
            embeddings[first_too_long(embeddings)],
        ),
        forall|i: int| 0 <= i < first_too_long(embeddings) ==> !is_too_long(#[trigger] embeddings[i]),
        (forall|i: int| 0 <= i < embeddings.len() ==> !is_too_long(#[trigger] embeddings[i]))
            ==> first_too_long(embeddings) == embeddings.len(),
    decreases embeddings.len(),
{
    if embeddings.len() > 0 {
        let front = embeddings.drop_last();
        lemma_first_too_long(front);
        assert forall|i: int| 0 <= i < first_too_long(embeddings) implies !is_too_long(
            #[trigger] embeddings[i],
        ) by {
            if i < front.len() {
                assert(front[i] == embeddings[i]);
            }
        }
        if first_too_long(front) < front.len() {
            assert(front[first_too_long(front)] == embeddings[first_too_long(front)]);
        }
        if forall|i: int| 0 <= i < embeddings.len() ==> !is_too_long(#[trigger] embeddings[i]) {
            assert forall|i: int| 0 <= i < front.len() implies !is_too_long(
                #[trigger] front[i],
            ) by {
                assert(front[i] == embeddings[i]);
            }
        }
    }
}

/// An embedding that is too long after none such stays the first when more
/// embeddings follow.
pub proof fn lemma_first_too_long_is_stable(embeddings: Seq<Option<Vec<i16>>>, i: int)
    requires
        0 <= i < embeddings.len(),
        first_too_long(embeddings.take(i)) == i,
        is_too_long(embeddings[i]),
    ensures
        first_too_long(embeddings) == i,
    decreases embeddings.len(),
{
    if i == embeddings.len() - 1 {
        assert(embeddings.drop_last() =~= embeddings.take(i));
    } else {
        let front = embeddings.drop_last();
        assert(front.take(i) =~= embeddings.take(i));
        lemma_first_too_long_is_stable(front, i);
    }
}

/// The first region whose embedding is too long to be clustered, if any.
pub fn find_too_long(embeddings: &Vec<Option<Vec<i16>>>) -> (found: Option<usize>)
    ensures
        found is None <==> first_too_long(embeddings@) == embeddings@.len(),
        found matches Some(region) ==> region == first_too_long(embeddings@) && region
            < embeddings@.len(),
{
    let mut i: usize = 0;
    while i < embeddings.len()
        invariant
            i <= embeddings.len(),
            first_too_long(embeddings@.take(i as int)) == i,
        decreases embeddings.len() - i,
    {
        let ghost grown = embeddings@.take(i + 1);
        proof {
            assert(grown.drop_last() =~= embeddings@.take(i as int));
            assert(grown.last() == embeddings@[i as int]);
        }
        match &embeddings[i] {
            Some(e) => {
                if e.len() > MAX_DIMENSION {
                    proof {
                        lemma_first_too_long_is_stable(embeddings@, i as int);
                    }
                    return Some(i);
                }
            },
            None => {},
        }
        i = i + 1;
    }
    assert(embeddings@.take(embeddings.len() as int) =~= embeddings@);
    None
}

/// Gives each region its speaker.
///
/// An embedding of more than `MAX_DIMENSION` components cannot be
/// clustered; the first such embedding is reported and nothing is
/// returned. Otherwise the regions keep their order, bounds and samples.
/// Region `i` goes with `embeddings[i]`; `None` there, a missing entry, or
/// an embedding whose length differs from that of the first one, leaves
/// the region without a speaker. The other embeddings are clustered in
/// region order, starting with no speaker, with at most `max_speakers`
/// speakers, and never more than `SPEAKER_LIMIT`.
pub fn diarize_audio(
    regions: Vec<SpeechRegion>,
    embeddings: &Vec<Option<Vec<i16>>>,
    max_speakers: usize,
    threshold: i64,
) -> (result: Result<Vec<RawDiarizedSegment>, DiarizationError>)
    ensures
        result is Ok <==> first_too_long(embeddings@) == embeddings@.len(),
        result matches Err(error) ==> error == (DiarizationError::EmbeddingTooLong {
            region: first_too_long(embeddings@) as usize,
        }),
        result matches Ok(segments) ==> {
            &&& segments.len() == regions.len()
            &&& forall|i: int|
                0 <= i < segments.len() ==> {
                    &&& (#[trigger] segments[i]).start_ms == regions[i].start_ms
                    &&& segments[i].end_ms == regions[i].end_ms
                    &&& segments[i].samples == regions[i].samples
                    &&& segments[i].speaker == label_spec(
                        embeddings@,
                        i,
                        max_speakers as int,
                        threshold as int,
                    )
                }
            &&& max_speakers >= 1 ==> forall|i: int|
                0 <= i < segments.len() ==> ((#[trigger] segments[i]).speaker matches Some(id)
                    ==> 0 <= id < max_speakers)
        },
{
    match find_too_long(embeddings) {
        Some(region) => Err(DiarizationError::EmbeddingTooLong { region }),
        None => Ok(label_regions(regions, embeddings, max_speakers, threshold)),
    }
}

/// Gives each region its speaker, leaving out embeddings that do not fit.
fn label_regions(
    regions: Vec<SpeechRegion>,
    embeddings: &Vec<Option<Vec<i16>>>,
    max_speakers: usize,
    threshold: i64,
) -> (segments: Vec<RawDiarizedSegment>)
    ensures
        segments.len() == regions.len(),
        forall|i: int|
            0 <= i < segments.len() ==> {
                &&& (#[trigger] segments[i]).start_ms == regions[i].start_ms
                &&& segments[i].end_ms == regions[i].end_ms
                &&& segments[i].samples == regions[i].samples
                &&& segments[i].speaker == label_spec(
                    embeddings@,
                    i,
                    max_speakers as int,
                    threshold as int,
                )
            },
        max_speakers >= 1 ==> forall|i: int|
            0 <= i < segments.len() ==> ((#[trigger] segments[i]).speaker matches Some(id) ==> 0
                <= id < max_speakers),
{
    let dimension: usize = embedding_dimension(embeddings);
    let limit: usize = if max_speakers <= SPEAKER_LIMIT {
        max_speakers
    } else {
        SPEAKER_LIMIT
    };
    let mut registry = SpeakerRegistry::new(dimension);
    let mut segments: Vec<RawDiarizedSegment> = Vec::new();
    let ghost all = regions@;
    let ghost given = embeddings@;
    for region in it: regions
        invariant
            it.seq() == all,
            given == embeddings@,
            dimension == run_dimension(given),
            limit == effective_limit(max_speakers as int),
            registry.well_formed(),
            registry.dimension() == dimension,
            registry@.len() <= limit,
            registry@ == speakers_before(
                given,
                it.index() as int,
                max_speakers as int,
                threshold as int,
            ),
            segments.len() == it.index(),
            forall|i: int|
                0 <= i < segments.len() ==> {
                    &&& (#[trigger] segments[i]).start_ms == all[i].start_ms
                    &&& segments[i].end_ms == all[i].end_ms
                    &&& segments[i].samples == all[i].samples
                    &&& segments[i].speaker == label_spec(
                        given,
                        i,
                        max_speakers as int,
                        threshold as int,
                    )
                },
            max_speakers >= 1 ==> forall|i: int|
                0 <= i < segments.len() ==> ((#[trigger] segments[i]).speaker matches Some(id)
                    ==> 0 <= id < max_speakers),
    {
        let i: usize = segments.len();
        let ghost before = clustered_before(given, dimension as int, i as int);
        let mut speaker: Option<i32> = None;
        if i < embeddings.len() {
            match &embeddings[i] {
                Some(e) => {
                    if e.len() == dimension {
                        let id = assign(e, &mut registry, limit, threshold);
                        speaker = Some(id as i32);
                        proof {
                            let after = clustered_before(given, dimension as int, i + 1);
                            assert(after.drop_last() =~= before);
                        }
                    }
                },
                None => {},
            }
        }
        segments.push(
            RawDiarizedSegment {
                speaker,
                start_ms: region.start_ms,
                end_ms: region.end_ms,
                samples: region.samples,
            },
        );
    }
    segments
}

/// With a limit of at least one speaker, every speaker of a run is below the limit.
pub proof fn lemma_speakers_below_limit(
    embeddings: Seq<Option<Vec<i16>>>,
    i: int,
    max_speakers: int,
    threshold: int,
)
    requires
        max_speakers >= 1,
    ensures
        label_spec(embeddings, i, max_speakers, threshold) matches Some(id) ==> 0 <= id
            < max_speakers,
{
    if label_spec(embeddings, i, max_speakers, threshold) is Some {
        let limit = effective_limit(max_speakers);
        let clustered = clustered_before(embeddings, run_dimension(embeddings), i);
        lemma_run_stays_within_limit(clustered, limit, threshold);
        lemma_assignment_respects_limit(
            embeddings[i]->Some_0@,
            speakers_before(embeddings, i, max_speakers, threshold),
            limit,
            threshold,
        );
    }
}

/// Two regions in a row with the same embedding have the same speaker,
/// provided the embedding fits the run and is not all zero, and the
/// threshold is at most one.
pub proof fn lemma_equal_neighbours_share_a_speaker(
    embeddings: Seq<Option<Vec<i16>>>,
    i: int,
    max_speakers: int,
    threshold: int,
)
    requires
        max_speakers >= 1,
        threshold <= SIMILARITY_ONE,
        0 <= i,
        i + 1 < embeddings.len(),
        fits(embeddings[i], run_dimension(embeddings)),
        embeddings[i + 1] is Some,
        embeddings[i + 1]->Some_0@ == embeddings[i]->Some_0@,
        squared_length(embeddings[i]->Some_0@) > 0,
    ensures
        label_spec(embeddings, i, max_speakers, threshold) is Some,
        label_spec(embeddings, i + 1, max_speakers, threshold) == label_spec(
            embeddings,
            i,
            max_speakers,
            threshold,
        ),
{
    let dimension = run_dimension(embeddings);
    let limit = effective_limit(max_speakers);
    let e = embeddings[i]->Some_0@;
    let first = clustered_before(embeddings, dimension, i);
    let second = clustered_before(embeddings, dimension, i + 1);
    assert(second == first.push(e));
    assert(second.drop_last() =~= first);
    assert(second.last() == e);
    let known = speakers_before(embeddings, i, max_speakers, threshold);
    assert(speakers_before(embeddings, i + 1, max_speakers, threshold) == speakers_after(
        e,
        known,
        limit,
        threshold,
    ));
    lemma_clustered_embeddings_fit(embeddings, dimension, i);
    lemma_run_keeps_profiles(first, dimension, limit, threshold);
    lemma_repeated_embedding_keeps_its_speaker(e, known, dimension, limit, threshold);
}

/// Every run of regions in a row with one and the same embedding carries a
/// single speaker, provided the embedding fits the run and is not all
/// zero, and the threshold is at most one.
pub proof fn lemma_equal_run_shares_a_speaker(
    embeddings: Seq<Option<Vec<i16>>>,
    i: int,
    j: int,
    max_speakers: int,
    threshold: int,
)
    requires
        max_speakers >= 1,
        threshold <= SIMILARITY_ONE,
        0 <= i <= j < embeddings.len(),
        fits(embeddings[i], run_dimension(embeddings)),
        squared_length(embeddings[i]->Some_0@) > 0,
        forall|k: int|
            i <= k <= j ==> (#[trigger] embeddings[k]) is Some && embeddings[k]->Some_0@
                == embeddings[i]->Some_0@,
    ensures
        label_spec(embeddings, i, max_speakers, threshold) is Some,
        label_spec(embeddings, j, max_speakers, threshold) == label_spec(
            embeddings,
            i,
            max_speakers,
            threshold,
        ),
    decreases j - i,
{
    if j > i {
        lemma_equal_run_shares_a_speaker(embeddings, i, j - 1, max_speakers, threshold);
        assert(embeddings[j - 1] is Some && embeddings[j - 1]->Some_0@ == embeddings[i]->Some_0@);
        assert(embeddings[j] is Some && embeddings[j]->Some_0@ == embeddings[i]->Some_0@);
        lemma_equal_neighbours_share_a_speaker(embeddings, j - 1, max_speakers, threshold);
    }
}

/// The embeddings that take part in clustering have the run's dimension.
pub proof fn lemma_clustered_embeddings_fit(
    embeddings: Seq<Option<Vec<i16>>>,
    dimension: int,
    n: int,
)
    ensures
        forall|k: int|
            0 <= k < clustered_before(embeddings, dimension, n).len() ==> (
            #[trigger] clustered_before(embeddings, dimension, n)[k]).len() == dimension,
    decreases n,
{
    if n > 0 {
        lemma_clustered_embeddings_fit(embeddings, dimension, n - 1);
        let before = clustered_before(embeddings, dimension, n - 1);
        let now = clustered_before(embeddings, dimension, n);
        assert forall|k: int| 0 <= k < now.len() implies (#[trigger] now[k]).len()
            == dimension by {
            if k < before.len() {
                assert(now[k] == before[k]);
            }
        }
    }
}

/// A run over embeddings of one dimension keeps every speaker a sum of
/// embeddings of that dimension.
pub proof fn lemma_run_keeps_profiles(
    clustered: Seq<Seq<i16>>,
    dimension: int,
    max_speakers: int,
    threshold: int,
)
    requires
        forall|k: int| 0 <= k < clustered.len() ==> (#[trigger] clustered[k]).len() == dimension,
    ensures
        profiles_well_formed(
            speakers_after_run(clustered, Seq::empty(), max_speakers, threshold),
            dimension,
        ),
    decreases clustered.len(),
{
    if clustered.len() > 0 {
        let front = clustered.drop_last();
        assert forall|k: int| 0 <= k < front.len() implies (#[trigger] front[k]).len()
            == dimension by {
            assert(front[k] == clustered[k]);
        }
        lemma_run_keeps_profiles(front, dimension, max_speakers, threshold);
        lemma_assignment_keeps_profiles(
            clustered.last(),
            speakers_after_run(front, Seq::empty(), max_speakers, threshold),
            dimension,
            max_speakers,
            threshold,
        );
    }
}

/// With a limit of one speaker, every region that has a speaker has speaker 0.
pub proof fn lemma_one_speaker_for_all(embeddings: Seq<Option<Vec<i16>>>, i: int, threshold: int)
    ensures
        label_spec(embeddings, i, 1, threshold) is None || label_spec(embeddings, i, 1, threshold)
            == Some(0i32),
{
    lemma_speakers_below_limit(embeddings, i, 1, threshold);
}

/// What a region's transcription amounts to: the text trimmed.
pub open spec fn segment_text(text: Seq<char>) -> Seq<char> {
    trim_spec(text)
}

/// The segment of a region with its text, if any text is left after trimming.
pub open spec fn segment_spec(raw: RawDiarizedSegment, text: Seq<char>) -> Option<SegmentView> {
    if segment_text(text).len() > 0 {
        Some(
            SegmentView {
                speaker: raw.speaker,
                start_ms: raw.start_ms,
                end_ms: raw.end_ms,
                text: segment_text(text),
            },
        )
    } else {
        None
    }
}

/// The segments of the first `n` regions with their texts: in region
/// order, without the regions whose text is empty after trimming.
pub open spec fn segments_spec(
    raw: Seq<RawDiarizedSegment>,
    texts: Seq<Seq<char>>,
    n: int,
) -> Seq<SegmentView>
    decreases n,
{
    if n <= 0 {
        Seq::empty()
    } else {
        let before = segments_spec(raw, texts, n - 1);
        match segment_spec(raw[n - 1], texts[n - 1]) {
            Some(segment) => before.push(segment),
            None => before,
        }
    }
}

/// The regions are sorted by start and none overlaps another.
pub open spec fn raw_segments_ordered(raw: Seq<RawDiarizedSegment>) -> bool {
    forall|i: int, j: int|
        0 <= i < j < raw.len() ==> (#[trigger] raw[i]).start_ms <= (#[trigger] raw[j]).start_ms
            && raw[i].end_ms <= raw[j].start_ms
}

/// The segments are sorted by start and none overlaps another.
pub open spec fn segments_ordered(segments: Seq<SegmentView>) -> bool {
    forall|i: int, j: int|
        0 <= i < j < segments.len() ==> (#[trigger] segments[i]).start_ms <= (
        #[trigger] segments[j]).start_ms && segments[i].end_ms <= segments[j].start_ms
}

/// Every segment stems from a region: it has the region's speaker and
/// bounds and the region's text, trimmed; and the segments before it stem
/// from the regions before that region.
pub proof fn lemma_segment_stems_from_region(
    raw: Seq<RawDiarizedSegment>,
    texts: Seq<Seq<char>>,
    n: int,
    k: int,
) -> (i: int)
    requires
        0 <= k < segments_spec(raw, texts, n).len(),
    ensures
        0 <= i < n,
        segment_spec(raw[i], texts[i]) == Some(segments_spec(raw, texts, n)[k]),
        segments_spec(raw, texts, i).len() == k,
    decreases n,
{
    if segment_spec(raw[n - 1], texts[n - 1]) is Some && k == segments_spec(
        raw,
        texts,
        n - 1,
    ).len() {
        n - 1
    } else {
        lemma_segment_stems_from_region(raw, texts, n - 1, k)
    }
}

/// There are no more segments than regions, and the segments of fewer
/// regions are the first of the segments of more.
pub proof fn lemma_segments_grow(raw: Seq<RawDiarizedSegment>, texts: Seq<Seq<char>>, m: int, n: int)
    requires
        0 <= m <= n,
    ensures
        segments_spec(raw, texts, m).len() <= segments_spec(raw, texts, n).len() <= n,
        segments_spec(raw, texts, m) == segments_spec(raw, texts, n).take(
            segments_spec(raw, texts, m).len() as int,
        ),
    decreases n,
{
    if m < n {
        lemma_segments_grow(raw, texts, m, n - 1);
        let shorter = segments_spec(raw, texts, n - 1);
        let longer = segments_spec(raw, texts, n);
        let first = segments_spec(raw, texts, m);
        assert(first =~= longer.take(first.len() as int));
    } else {
        lemma_segments_grow_bound(raw, texts, n);
        let all = segments_spec(raw, texts, n);
        assert(all =~= all.take(all.len() as int));
    }
}

/// There are no more segments than regions.
pub proof fn lemma_segments_grow_bound(raw: Seq<RawDiarizedSegment>, texts: Seq<Seq<char>>, n: int)
    requires
        0 <= n,
    ensures
        segments_spec(raw, texts, n).len() <= n,
    decreases n,
{
    if n > 0 {
        lemma_segments_grow_bound(raw, texts, n - 1);
    }
}

/// The segments keep the order of the regions: where the regions are
/// sorted by start and free of overlap, so are the segments.
pub proof fn lemma_segments_stay_ordered(
    raw: Seq<RawDiarizedSegment>,
    texts: Seq<Seq<char>>,
    n: int,
)
    requires
        0 <= n <= raw.len(),
        raw_segments_ordered(raw),
    ensures
        segments_ordered(segments_spec(raw, texts, n)),
{
    let segments = segments_spec(raw, texts, n);
    assert forall|i: int, j: int| 0 <= i < j < segments.len() implies (
    #[trigger] segments[i]).start_ms <= (#[trigger] segments[j]).start_ms && segments[i].end_ms
        <= segments[j].start_ms by {
        let p = lemma_segment_stems_from_region(raw, texts, n, i);
        let q = lemma_segment_stems_from_region(raw, texts, n, j);
        if q <= p {
            lemma_segments_grow(raw, texts, q, p);
        }
        assert(p < q);
        assert(raw[p].start_ms <= raw[q].start_ms && raw[p].end_ms <= raw[q].start_ms);
    }
}

/// Makes the segment of a region from its transcription: the text is
/// trimmed, and a region whose text is then empty gives no segment.
pub fn transcribed_segment(raw: &RawDiarizedSegment, text: &str) -> (segment: Option<
    DiarizedSegment,
>)
    ensures
        segment is Some <==> segment_spec(*raw, text@) is Some,
        segment matches Some(s) ==> s@ == segment_spec(*raw, text@)->Some_0,
{
    let trimmed = trim(text);
    if trimmed.as_str().unicode_len() > 0 {
        Some(
            DiarizedSegment {
                speaker: raw.speaker,
                start_ms: raw.start_ms,
                end_ms: raw.end_ms,
                text: trimmed,
            },
        )
    } else {
        None
    }
}

/// The label put before a segment's text.
pub open spec fn speaker_label_spec(speaker: Option<i32>) -> Seq<char> {
    match speaker {
        Some(id) => "[Speaker "@ + decimal_spec(id as int) + "]"@,
        None => "[Unknown]"@,
    }
}

/// The line of one segment: its label, a space, its text.
pub open spec fn transcript_line(segment: SegmentView) -> Seq<char> {
    speaker_label_spec(segment.speaker) + " "@ + segment.text
}

/// The lines of the segments, in order.
pub open spec fn transcript_lines(segments: Seq<SegmentView>) -> Seq<Seq<char>> {
    Seq::new(segments.len(), |i: int| transcript_line(segments[i]))
}

/// The label of a speaker: `[Speaker N]`, or `[Unknown]` for none.
pub fn speaker_label(speaker: Option<i32>) -> (label: String)
    ensures
        label@ == speaker_label_spec(speaker),
{
    match speaker {
        Some(id) => {
            let mut label = String::from_str("[Speaker ");
            label.append(decimal(id as i64).as_str());
            label.append("]");
            label
        },
        None => String::from_str("[Unknown]"),
    }
}

/// The transcript as one text: one line for each segment, in order, each
/// made of the speaker's label, a space and the segment's text; the lines
/// are joined by line feeds.
pub fn flatten_transcript(segments: &Vec<DiarizedSegment>) -> (transcript: String)
    ensures
        transcript@ == join_spec(transcript_lines(segment_views(segments@)), "\n"@),
{
    let mut lines: Vec<String> = Vec::new();
    let mut i: usize = 0;
    while i < segments.len()
        invariant
            i <= segments.len(),
            lines.len() == i,
            forall|k: int|
                0 <= k < i ==> (#[trigger] lines[k])@ == transcript_line(segments[k]@),
        decreases segments.len() - i,
    {
        let mut line = speaker_label(segments[i].speaker);
        line.append(" ");
        line.append(segments[i].text.as_str());
        lines.push(line);
        i = i + 1;
    }
    assert(views(lines@) =~= transcript_lines(segment_views(segments@)));
    join(&lines, "\n")
}

} // verus!
