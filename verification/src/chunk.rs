//! Chunked transcription: long audio is cut into windows that the
//! transcription capability can take, and the windows' texts are stitched
//! into one transcript.

use vstd::prelude::*;
use vstd::string::*;
use crate::text::{
    decimal_spec, decimal_unsigned, join, join_spec, trim, trim_spec, views,
};

verus! {

/// Number of samples in a full chunk: thirty seconds at 16 kHz.
pub const CHUNK_SIZE: usize = 480_000;

/// Number of chunks that `len` samples are transcribed in: one, if they fit
/// a single chunk, else as many full chunks as fit and one for what is left.
pub open spec fn chunk_count(len: int) -> int {
    if len <= CHUNK_SIZE {
        1
    } else {
        (len + CHUNK_SIZE - 1) / (CHUNK_SIZE as int)
    }
}

/// First sample of chunk `index`.
pub open spec fn chunk_start(index: int) -> int {
    index * CHUNK_SIZE
}

/// One past the last sample of chunk `index` in `len` samples.
pub open spec fn chunk_end(len: int, index: int) -> int {
    if (index + 1) * CHUNK_SIZE <= len {
        (index + 1) * CHUNK_SIZE
    } else {
        len
    }
}

/// Consecutive chunks tile the samples: the first starts at 0, each starts
/// where the one before it ends, the last ends with the samples, and only
/// the last may be shorter than `CHUNK_SIZE`.
pub proof fn lemma_chunks_tile(len: int, index: int)
    requires
        len >= 0,
        0 <= index < chunk_count(len),
    ensures
        chunk_start(0) == 0,
        0 <= chunk_start(index) <= chunk_end(len, index) <= len,
        chunk_end(len, index) - chunk_start(index) <= CHUNK_SIZE,
        index + 1 < chunk_count(len) ==> chunk_end(len, index) == chunk_start(index + 1)
            && chunk_end(len, index) - chunk_start(index) == CHUNK_SIZE,
        index + 1 == chunk_count(len) ==> chunk_end(len, index) == len,
        len > CHUNK_SIZE ==> chunk_start(index) < chunk_end(len, index),
{
}

/// Number of chunks that `len` samples are transcribed in.
pub fn count_chunks(len: usize) -> (count: usize)
    ensures
        count == chunk_count(len as int),
        count >= 1,
{
    if len <= CHUNK_SIZE {
        1
    } else {
        (len - 1) / CHUNK_SIZE + 1
    }
}

/// Bounds of chunk `index` in `len` samples: the chunk is `samples[start..end]`.
pub fn chunk_bounds(len: usize, index: usize) -> (bounds: (usize, usize))
    requires
        index < chunk_count(len as int),
    ensures
        bounds.0 == chunk_start(index as int),
        bounds.1 == chunk_end(len as int, index as int),
        bounds.0 <= bounds.1 <= len,
{
    proof {
        lemma_chunks_tile(len as int, index as int);
    }
    let start: usize = index * CHUNK_SIZE;
    let end: usize = if len - start <= CHUNK_SIZE {
        len
    } else {
        start + CHUNK_SIZE
    };
    (start, end)
}

/// A copy of `samples[start..end]`.
pub fn copy_range<T: Copy>(samples: &Vec<T>, start: usize, end: usize) -> (part: Vec<T>)
    requires
        start <= end <= samples.len(),
    ensures
        part@ == samples@.subrange(start as int, end as int),
{
    let mut part: Vec<T> = Vec::new();
    let mut k: usize = start;
    while k < end
        invariant
            start <= k <= end <= samples.len(),
            part@ == samples@.subrange(start as int, k as int),
        decreases end - k,
    {
        part.push(samples[k]);
        k = k + 1;
        assert(part@ =~= samples@.subrange(start as int, k as int));
    }
    part
}

/// Cuts `samples` into consecutive chunks of `CHUNK_SIZE`; the last may be
/// shorter. Samples that fit one chunk come back as that one chunk.
pub fn split_chunks<T: Copy>(samples: &Vec<T>) -> (chunks: Vec<Vec<T>>)
    ensures
        chunks.len() == chunk_count(samples.len() as int),
        forall|i: int|
            0 <= i < chunks.len() ==> (#[trigger] chunks[i])@ == samples@.subrange(
                chunk_start(i),
                chunk_end(samples.len() as int, i),
            ),
{
    let len: usize = samples.len();
    let count: usize = count_chunks(len);
    let mut chunks: Vec<Vec<T>> = Vec::new();
    let mut index: usize = 0;
    while index < count
        invariant
            index <= count,
            len == samples.len(),
            count == chunk_count(len as int),
            chunks.len() == index,
            forall|i: int|
                0 <= i < index ==> (#[trigger] chunks[i])@ == samples@.subrange(
                    chunk_start(i),
                    chunk_end(len as int, i),
                ),
        decreases count - index,
    {
        let (start, end) = chunk_bounds(len, index);
        chunks.push(copy_range(samples, start, end));
        index = index + 1;
    }
    chunks
}

/// Why a transcription failed.
pub enum TranscriptionError {
    /// The audio fitted one chunk and its transcription failed.
    Whole { message: String },
    /// The transcription of chunk `index` (counted from 0) failed.
    Chunk { index: usize, message: String },
}

impl TranscriptionError {
    /// The text of `message`.
    pub open spec fn message_spec(&self) -> Seq<char> {
        match self {
            TranscriptionError::Whole { message } => "Transcription failed: "@ + message@,
            TranscriptionError::Chunk { index, message } => "Transcription failed on chunk "@
                + decimal_spec(index + 1) + ": "@ + message@,
        }
    }

    /// What went wrong, in words; chunks are counted from 1 here.
    pub fn message(&self) -> (text: String)
        ensures
            text@ == self.message_spec(),
    {
        match self {
            TranscriptionError::Whole { message } => {
                let mut text = String::from_str("Transcription failed: ");
                text.append(message.as_str());
                text
            },
            TranscriptionError::Chunk { index, message } => {
                let mut text = String::from_str("Transcription failed on chunk ");
                let number: u128 = *index as u128 + 1;
                text.append(decimal_unsigned(number).as_str());
                text.append(": ");
                text.append(message.as_str());
                text
            },
        }
    }
}

/// Index of the first failed outcome, or the number of outcomes if none failed.
pub open spec fn first_failure(outcomes: Seq<Result<String, String>>) -> int
    decreases outcomes.len(),
{
    if outcomes.len() == 0 {
        0
    } else {
        let before = first_failure(outcomes.drop_last());
        if before < outcomes.len() - 1 {
            before
        } else if outcomes.last() is Err {
            outcomes.len() - 1
        } else {
            outcomes.len() as int
        }
    }
}

/// The texts worth keeping among `outcomes`: each successful text trimmed,
/// in order, without those that are empty once trimmed.
pub open spec fn kept_texts(outcomes: Seq<Result<String, String>>) -> Seq<Seq<char>>
    decreases outcomes.len(),
{
    if outcomes.len() == 0 {
        Seq::empty()
    } else {
        let before = kept_texts(outcomes.drop_last());
        match outcomes.last() {
            Ok(text) => if trim_spec(text@).len() > 0 {
                before.push(trim_spec(text@))
            } else {
                before
            },
            Err(_) => before,
        }
    }
}

/// The transcript of `sample_len` samples whose chunks all succeeded: the
/// text as the capability gave it where one chunk held all samples, else
/// the kept texts joined by single spaces.
pub open spec fn transcript_spec(sample_len: int, outcomes: Seq<Result<String, String>>) -> Seq<
    char,
> {
    if sample_len <= CHUNK_SIZE {
        if outcomes.len() > 0 && outcomes[0] is Ok {
            outcomes[0]->Ok_0@
        } else {
            Seq::empty()
        }
    } else {
        join_spec(kept_texts(outcomes), seq![' '])
    }
}

/// Whether `error` reports the first failure among `outcomes`.
pub open spec fn reports_first_failure(
    error: TranscriptionError,
    sample_len: int,
    outcomes: Seq<Result<String, String>>,
) -> bool {
    let index = first_failure(outcomes);
    &&& index < outcomes.len()
    &&& outcomes[index] is Err
    &&& if sample_len <= CHUNK_SIZE {
        error matches TranscriptionError::Whole { message } && message@
            == outcomes[index]->Err_0@
    } else {
        error matches TranscriptionError::Chunk { index: at, message } && at == index
            && message@ == outcomes[index]->Err_0@
    }
}

/// What `first_failure` finds: a failed outcome with only successes before
/// it, or nothing where every outcome succeeded.
pub proof fn lemma_first_failure(outcomes: Seq<Result<String, String>>)
    ensures
        0 <= first_failure(outcomes) <= outcomes.len(),
        first_failure(outcomes) < outcomes.len() ==> outcomes[first_failure(outcomes)] is Err,
        forall|i: int| 0 <= i < first_failure(outcomes) ==> (#[trigger] outcomes[i]) is Ok,
    decreases outcomes.len(),
{
    if outcomes.len() > 0 {
        let front = outcomes.drop_last();
        lemma_first_failure(front);
        assert forall|i: int| 0 <= i < first_failure(outcomes) implies (
        #[trigger] outcomes[i]) is Ok by {
            if i < front.len() {
                assert(front[i] == outcomes[i]);
            }
        }
        if first_failure(front) < front.len() {
            assert(front[first_failure(front)] == outcomes[first_failure(front)]);
        }
    }
}

/// Every chunk of `sample_len` samples has its outcome, or one has failed.
pub open spec fn is_complete(sample_len: int, outcomes: Seq<Result<String, String>>) -> bool {
    outcomes.len() >= chunk_count(sample_len) || first_failure(outcomes) < outcomes.len()
}

/// Stitches the outcomes of the chunks of `sample_len` samples, given in
/// chunk order, into the transcript.
///
/// Where the samples fit one chunk, the text of that chunk is the
/// transcript as it stands. Otherwise each chunk's text is trimmed, texts
/// that are empty after trimming are dropped, and the rest are joined with
/// one space each, in chunk order. The first chunk that failed makes the
/// whole transcription fail, and the error names that chunk.
pub fn transcribe_chunked(sample_len: usize, outcomes: &Vec<Result<String, String>>) -> (result:
    Result<String, TranscriptionError>)
    requires
        is_complete(sample_len as int, outcomes@),
    ensures
        result is Ok <==> first_failure(outcomes@) == outcomes@.len(),
        result matches Ok(text) ==> text@ == transcript_spec(sample_len as int, outcomes@),
        result matches Err(error) ==> reports_first_failure(error, sample_len as int, outcomes@),
{
    let whole: bool = sample_len <= CHUNK_SIZE;
    let mut parts: Vec<String> = Vec::new();
    let mut i: usize = 0;
    while i < outcomes.len()
        invariant
            i <= outcomes.len(),
            whole == (sample_len <= CHUNK_SIZE),
            first_failure(outcomes@.take(i as int)) == i,
            views(parts@) == kept_texts(outcomes@.take(i as int)),
        decreases outcomes.len() - i,
    {
        let ghost seen = outcomes@.take(i as int);
        let ghost grown = outcomes@.take(i + 1);
        proof {
            assert(grown.drop_last() =~= seen);
            assert(grown.last() == outcomes@[i as int]);
        }
        match &outcomes[i] {
            Ok(text) => {
                let trimmed = trim(text.as_str());
                if trimmed.as_str().unicode_len() > 0 {
                    let ghost before = views(parts@);
                    parts.push(trimmed);
                    assert(views(parts@) =~= before.push(trimmed@));
                }
            },
            Err(message) => {
                proof {
                    lemma_first_failure_is_stable(outcomes@, i as int);
                }
                if whole {
                    return Err(TranscriptionError::Whole { message: message.clone() });
                } else {
                    return Err(TranscriptionError::Chunk { index: i, message: message.clone() });
                }
            },
        }
        i = i + 1;
    }
    assert(outcomes@.take(outcomes.len() as int) =~= outcomes@);
    if whole {
        if outcomes.len() > 0 {
            proof {
                lemma_first_failure(outcomes@);
            }
            match &outcomes[0] {
                Ok(text) => Ok(text.clone()),
                Err(message) => Err(TranscriptionError::Whole { message: message.clone() }),
            }
        } else {
            Ok(String::new())
        }
    } else {
        proof {
            reveal_strlit(" ");
            assert(" "@ =~= seq![' ']);
        }
        Ok(join(&parts, " "))
    }
}

/// A failure among the first outcomes stays the first failure when more
/// outcomes follow.
pub proof fn lemma_first_failure_is_stable(outcomes: Seq<Result<String, String>>, i: int)
    requires
        0 <= i < outcomes.len(),
        first_failure(outcomes.take(i)) == i,
        outcomes[i] is Err,
    ensures
        first_failure(outcomes) == i,
    decreases outcomes.len(),
{
    if i == outcomes.len() - 1 {
        assert(outcomes.drop_last() =~= outcomes.take(i));
    } else {
        let front = outcomes.drop_last();
        assert(front.take(i) =~= outcomes.take(i));
        lemma_first_failure_is_stable(front, i);
    }
}

/// The transcription of one stretch of audio, chunk by chunk.
///
/// `next_chunk` says which samples to transcribe next; `record` takes the
/// outcome. After a failure, or after the last chunk, nothing is left to
/// transcribe and `finish` gives the transcript or the error.
pub struct ChunkedTranscriber {
    sample_len: usize,
    outcomes: Vec<Result<String, String>>,
}

impl ChunkedTranscriber {
    /// Number of samples to transcribe.
    pub closed spec fn sample_len(&self) -> nat {
        self.sample_len as nat
    }

    /// The outcomes recorded so far, in chunk order.
    pub closed spec fn outcomes(&self) -> Seq<Result<String, String>> {
        self.outcomes@
    }

    /// No chunk is left to transcribe: all are done, or the last one failed.
    pub open spec fn is_finished(&self) -> bool {
        self.outcomes().len() >= chunk_count(self.sample_len() as int) || (self.outcomes().len()
            > 0 && self.outcomes().last() is Err)
    }

    /// A transcriber for `sample_len` samples, with nothing recorded.
    pub fn new(sample_len: usize) -> (transcriber: ChunkedTranscriber)
        ensures
            transcriber.sample_len() == sample_len,
            transcriber.outcomes().len() == 0,
            !transcriber.is_finished(),
    {
        ChunkedTranscriber { sample_len, outcomes: Vec::new() }
    }

    /// The bounds of the chunk to transcribe next, or `None` when the
    /// transcription is finished.
    pub fn next_chunk(&self) -> (next: Option<(usize, usize)>)
        ensures
            next is None <==> self.is_finished(),
            next matches Some(bounds) ==> bounds.0 == chunk_start(self.outcomes().len() as int)
                && bounds.1 == chunk_end(
                self.sample_len() as int,
                self.outcomes().len() as int,
            ) && bounds.0 <= bounds.1 <= self.sample_len(),
    {
        let done: usize = self.outcomes.len();
        if done >= count_chunks(self.sample_len) {
            return None;
        }
        if done > 0 {
            match &self.outcomes[done - 1] {
                Err(_) => {
                    return None;
                },
                Ok(_) => {},
            }
        }
        Some(chunk_bounds(self.sample_len, done))
    }

    /// Records the outcome of the chunk that `next_chunk` named. Once the
    /// transcription is finished, further outcomes are ignored.
    pub fn record(&mut self, outcome: Result<String, String>)
        ensures
            final(self).sample_len() == old(self).sample_len(),
            final(self).outcomes() == if old(self).is_finished() {
                old(self).outcomes()
            } else {
                old(self).outcomes().push(outcome)
            },
    {
        if self.next_chunk().is_some() {
            self.outcomes.push(outcome);
        }
    }

    /// The transcript of what was recorded, or the error of the chunk that
    /// failed. Every chunk must have been transcribed, or one must have failed.
    pub fn finish(&self) -> (result: Result<String, TranscriptionError>)
        requires
            self.is_finished(),
        ensures
            result is Ok <==> first_failure(self.outcomes()) == self.outcomes().len(),
            result matches Ok(text) ==> text@ == transcript_spec(
                self.sample_len() as int,
                self.outcomes(),
            ),
            result matches Err(error) ==> reports_first_failure(
                error,
                self.sample_len() as int,
                self.outcomes(),
            ),
    {
        proof {
            lemma_first_failure(self.outcomes@);
            if self.outcomes@.len() > 0 && self.outcomes@.last() is Err {
                assert(first_failure(self.outcomes@) < self.outcomes@.len());
            }
        }
        transcribe_chunked(self.sample_len, &self.outcomes)
    }
}

} // verus!
