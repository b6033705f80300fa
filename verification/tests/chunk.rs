use handyxmutter::chunk::{
    chunk_bounds, copy_range, count_chunks, split_chunks, transcribe_chunked, ChunkedTranscriber,
    TranscriptionError, CHUNK_SIZE,
};

fn ok(text: &str) -> Result<String, String> {
    Ok(text.to_string())
}

fn failed(message: &str) -> Result<String, String> {
    Err(message.to_string())
}

#[test]
fn a_chunk_is_thirty_seconds_at_16_khz() {
    assert_eq!(CHUNK_SIZE, 16000 * 30);
}

#[test]
fn chunk_counts() {
    assert_eq!(count_chunks(0), 1);
    assert_eq!(count_chunks(1), 1);
    assert_eq!(count_chunks(CHUNK_SIZE), 1);
    assert_eq!(count_chunks(CHUNK_SIZE + 1), 2);
    assert_eq!(count_chunks(2 * CHUNK_SIZE), 2);
    assert_eq!(count_chunks(2 * CHUNK_SIZE + 1), 3);
    assert_eq!(count_chunks(45 * 16000), 2);
}

#[test]
fn chunk_bounds_tile_the_samples() {
    let len = 2 * CHUNK_SIZE + 5;
    assert_eq!(chunk_bounds(len, 0), (0, CHUNK_SIZE));
    assert_eq!(chunk_bounds(len, 1), (CHUNK_SIZE, 2 * CHUNK_SIZE));
    assert_eq!(chunk_bounds(len, 2), (2 * CHUNK_SIZE, len));
    assert_eq!(chunk_bounds(7, 0), (0, 7));
    assert_eq!(chunk_bounds(0, 0), (0, 0));
}

#[test]
fn copy_range_copies_the_range() {
    let samples: Vec<i32> = vec![1, 2, 3, 4, 5];
    assert_eq!(copy_range(&samples, 1, 4), vec![2, 3, 4]);
    assert_eq!(copy_range(&samples, 2, 2), Vec::<i32>::new());
}

#[test]
fn split_chunks_of_floats() {
    let samples: Vec<f32> = vec![0.25; CHUNK_SIZE + 3];
    let chunks = split_chunks(&samples);
    assert_eq!(chunks.len(), 2);
    assert_eq!(chunks[0].len(), CHUNK_SIZE);
    assert_eq!(chunks[1], vec![0.25f32; 3]);
}

#[test]
fn split_chunks_of_short_and_empty_audio() {
    let samples: Vec<i16> = vec![1, 2, 3];
    assert_eq!(split_chunks(&samples), vec![vec![1i16, 2, 3]]);
    let nothing: Vec<i16> = Vec::new();
    assert_eq!(split_chunks(&nothing), vec![Vec::<i16>::new()]);
}

#[test]
fn split_chunks_keeps_every_sample_in_order() {
    let samples: Vec<u32> = (0..(2 * CHUNK_SIZE as u32 + 17)).collect();
    let chunks = split_chunks(&samples);
    assert_eq!(chunks.len(), 3);
    let joined: Vec<u32> = chunks.into_iter().flatten().collect();
    assert_eq!(joined, samples);
}

#[test]
fn two_full_chunks_are_joined_with_one_space() {
    let mut transcriber = ChunkedTranscriber::new(2 * CHUNK_SIZE);
    let mut asked: Vec<(usize, usize)> = Vec::new();
    let texts = ["first", "second"];
    while let Some(bounds) = transcriber.next_chunk() {
        transcriber.record(ok(texts[asked.len()]));
        asked.push(bounds);
    }
    assert_eq!(asked, vec![(0, CHUNK_SIZE), (CHUNK_SIZE, 2 * CHUNK_SIZE)]);
    match transcriber.finish() {
        Ok(text) => assert_eq!(text, "first second"),
        Err(_) => panic!("two chunks that succeed make a transcript"),
    }
}

#[test]
fn an_empty_middle_chunk_leaves_no_stray_space() {
    let outcomes = vec![ok(" first "), ok(" \n\t "), ok("third")];
    match transcribe_chunked(3 * CHUNK_SIZE, &outcomes) {
        Ok(text) => assert_eq!(text, "first third"),
        Err(_) => panic!("three chunks that succeed make a transcript"),
    }
}

#[test]
fn chunk_texts_are_trimmed() {
    let outcomes = vec![ok("  a b  "), ok("\u{a0}c\u{3000}"), ok(""), ok("d\n")];
    match transcribe_chunked(4 * CHUNK_SIZE, &outcomes) {
        Ok(text) => assert_eq!(text, "a b c d"),
        Err(_) => panic!("chunks that succeed make a transcript"),
    }
}

#[test]
fn all_chunks_empty_gives_an_empty_transcript() {
    let outcomes = vec![ok(" "), ok("")];
    match transcribe_chunked(2 * CHUNK_SIZE, &outcomes) {
        Ok(text) => assert_eq!(text, ""),
        Err(_) => panic!("chunks that succeed make a transcript"),
    }
}

#[test]
fn short_audio_is_transcribed_directly_and_not_trimmed() {
    let mut transcriber = ChunkedTranscriber::new(CHUNK_SIZE);
    assert_eq!(transcriber.next_chunk(), Some((0, CHUNK_SIZE)));
    transcriber.record(ok("  hello  "));
    assert_eq!(transcriber.next_chunk(), None);
    match transcriber.finish() {
        Ok(text) => assert_eq!(text, "  hello  "),
        Err(_) => panic!("a chunk that succeeds makes a transcript"),
    }
}

#[test]
fn empty_audio_is_one_empty_chunk() {
    let mut transcriber = ChunkedTranscriber::new(0);
    assert_eq!(transcriber.next_chunk(), Some((0, 0)));
    transcriber.record(ok(""));
    assert_eq!(transcriber.next_chunk(), None);
}

#[test]
fn a_failed_chunk_fails_the_transcription_and_is_named() {
    let mut transcriber = ChunkedTranscriber::new(3 * CHUNK_SIZE);
    assert_eq!(transcriber.next_chunk(), Some((0, CHUNK_SIZE)));
    transcriber.record(ok("first"));
    assert_eq!(transcriber.next_chunk(), Some((CHUNK_SIZE, 2 * CHUNK_SIZE)));
    transcriber.record(failed("model not loaded"));
    assert_eq!(transcriber.next_chunk(), None);
    // Nothing is recorded after the failure.
    transcriber.record(ok("third"));
    match transcriber.finish() {
        Ok(_) => panic!("a failed chunk fails the transcription"),
        Err(error) => {
            match &error {
                TranscriptionError::Chunk { index, message } => {
                    assert_eq!(*index, 1);
                    assert_eq!(message, "model not loaded");
                }
                TranscriptionError::Whole { .. } => panic!("the audio has three chunks"),
            }
            assert_eq!(error.message(), "Transcription failed on chunk 2: model not loaded");
        }
    }
}

#[test]
fn a_failed_direct_transcription_has_no_chunk_number() {
    let outcomes = vec![failed("busy")];
    match transcribe_chunked(100, &outcomes) {
        Ok(_) => panic!("a failed chunk fails the transcription"),
        Err(error) => {
            assert!(matches!(error, TranscriptionError::Whole { .. }));
            assert_eq!(error.message(), "Transcription failed: busy");
        }
    }
}

#[test]
fn the_first_failure_is_the_one_reported() {
    let outcomes = vec![ok("a"), failed("one"), failed("two")];
    match transcribe_chunked(3 * CHUNK_SIZE, &outcomes) {
        Ok(_) => panic!("a failed chunk fails the transcription"),
        Err(error) => assert_eq!(error.message(), "Transcription failed on chunk 2: one"),
    }
}

#[test]
fn chunk_numbers_are_decimal() {
    let error = TranscriptionError::Chunk { index: 11, message: "x".to_string() };
    assert_eq!(error.message(), "Transcription failed on chunk 12: x");
    let error = TranscriptionError::Chunk { index: 99, message: String::new() };
    assert_eq!(error.message(), "Transcription failed on chunk 100: ");
}
