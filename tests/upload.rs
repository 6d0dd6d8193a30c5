use libsql_wal_s3::upload::{FrameStep, PollStep, ReadOutcome, StreamCursor, StreamState, CHUNK_SIZE};

/// Drives one poll of `cursor` over `src`, completing any read at once.
fn poll_once(cursor: &mut StreamCursor, src: &[u8], in_flight: &mut Option<Vec<u8>>) -> Option<Option<Vec<u8>>> {
    match cursor.poll() {
        PollStep::Read { offset, len } => {
            let start = (offset as usize).min(src.len());
            let end = (start + len).min(src.len());
            *in_flight = Some(src[start..end].to_vec());
            Some(None)
        }
        PollStep::Await => {
            let buf = in_flight.take().expect("a read is in flight");
            match cursor.complete(ReadOutcome::Data(buf.len())) {
                FrameStep::Frame => Some(Some(buf)),
                FrameStep::End => None,
                FrameStep::Error => panic!("no error was reported"),
            }
        }
        PollStep::Finished => None,
    }
}

fn drain(src: &[u8]) -> Vec<Vec<u8>> {
    let mut cursor = StreamCursor::new();
    let mut in_flight = None;
    let mut frames = Vec::new();
    while let Some(step) = poll_once(&mut cursor, src, &mut in_flight) {
        if let Some(frame) = step {
            frames.push(frame);
        }
    }
    assert_eq!(cursor.state, StreamState::Done);
    assert_eq!(cursor.poll(), PollStep::Finished);
    frames
}

fn source(len: usize) -> Vec<u8> {
    (0..len).map(|i| (i % 251) as u8).collect()
}

#[test]
fn stream_emits_ceil_chunks() {
    for len in [0usize, 1, 4095, 4096, 4097, 8092, 8192, 12289] {
        let src = source(len);
        let frames = drain(&src);
        assert_eq!(frames.len(), (len + 4095) / 4096, "len {len}");
        assert_eq!(frames.concat(), src);
        assert!(frames.iter().all(|f| !f.is_empty() && f.len() <= CHUNK_SIZE));
    }
}

#[test]
fn empty_source_ends_at_once() {
    let mut cursor = StreamCursor::new();
    assert_eq!(cursor.poll(), PollStep::Read { offset: 0, len: 4096 });
    assert_eq!(cursor.complete(ReadOutcome::Data(0)), FrameStep::End);
    assert_eq!(cursor.poll(), PollStep::Finished);
}

#[test]
fn pending_read_is_not_reissued() {
    let mut cursor = StreamCursor::new();
    assert_eq!(cursor.poll(), PollStep::Read { offset: 0, len: 4096 });
    assert_eq!(cursor.poll(), PollStep::Await);
    assert_eq!(cursor.poll(), PollStep::Await);
    assert_eq!(cursor.current_offset, 0);
    assert_eq!(cursor.complete(ReadOutcome::Data(4096)), FrameStep::Frame);
    assert_eq!(cursor.current_offset, 4096);
    assert_eq!(cursor.poll(), PollStep::Read { offset: 4096, len: 4096 });
}

#[test]
fn read_error_ends_stream() {
    let mut cursor = StreamCursor::new();
    cursor.poll();
    assert_eq!(cursor.complete(ReadOutcome::Failed), FrameStep::Error);
    assert_eq!(cursor.state, StreamState::Done);
    assert_eq!(cursor.poll(), PollStep::Finished);
}

#[test]
fn interleaved_attempts_are_independent() {
    let src = source(10000);
    let mut a = StreamCursor::new();
    let mut b = StreamCursor::new();
    let (mut fa, mut fb) = (None, None);
    let (mut out_a, mut out_b) = (Vec::new(), Vec::new());
    let (mut done_a, mut done_b) = (false, false);
    let mut turn = 0u32;
    while !(done_a && done_b) {
        turn += 1;
        if turn % 3 != 0 && !done_a {
            match poll_once(&mut a, &src, &mut fa) {
                Some(Some(f)) => out_a.push(f),
                Some(None) => {}
                None => done_a = true,
            }
        } else if !done_b {
            match poll_once(&mut b, &src, &mut fb) {
                Some(Some(f)) => out_b.push(f),
                Some(None) => {}
                None => done_b = true,
            }
        }
    }
    assert_eq!(out_a.concat(), src);
    assert_eq!(out_b.concat(), src);
    assert_eq!(drain(&src).concat(), src);
}

#[test]
fn full_chunks_then_remainder() {
    let src = source(8092);
    let frames = drain(&src);
    let sizes: Vec<usize> = frames.iter().map(|f| f.len()).collect();
    assert_eq!(sizes, vec![4096, 3996]);
    let src = source(3 * 4096);
    let sizes: Vec<usize> = drain(&src).iter().map(|f| f.len()).collect();
    assert_eq!(sizes, vec![4096, 4096, 4096]);
}
