//! The state of one attempt at streaming a segment into an upload body.
//!
//! The source is shared and read-only; each attempt has a cursor of its own,
//! so a failed upload is retried from a fresh cursor over the same source.
//! The cursor decides what to read next and what to emit; the caller performs
//! the reads and keeps an in-flight read across polls, so that a read is
//! resumed rather than issued twice.
use vstd::prelude::*;

verus! {

/// Bytes asked for by each read.
pub const CHUNK_SIZE: usize = 4096;

#[derive(Debug, Clone, Copy, PartialEq, Eq, Structural)]
pub enum StreamState {
    /// No read outstanding.
    Init,
    /// A read at `current_offset` is in flight.
    WaitingChunk,
    /// The stream has ended.
    Done,
}

#[derive(Debug, Clone, Copy, PartialEq, Eq, Structural)]
pub struct StreamCursor {
    pub current_offset: u64,
    pub state: StreamState,
}

/// What the caller does on a poll.
#[derive(Debug, Clone, Copy, PartialEq, Eq, Structural)]
pub enum PollStep {
    /// Issue a read of up to `len` bytes at `offset`.
    Read { offset: u64, len: usize },
    /// Keep waiting on the read already in flight.
    Await,
    /// The stream has ended: nothing more comes.
    Finished,
}

/// How the read in flight completed.
#[derive(Debug, Clone, Copy, PartialEq, Eq, Structural)]
pub enum ReadOutcome {
    /// This many bytes were read; zero means the end of the source.
    Data(usize),
    Failed,
}

/// What the stream yields for a completed read.
#[derive(Debug, Clone, Copy, PartialEq, Eq, Structural)]
pub enum FrameStep {
    /// One data frame holding exactly the bytes read.
    Frame,
    /// The end of the stream.
    End,
    /// The read's error, after which the stream has ended.
    Error,
}

pub open spec fn fresh_cursor() -> StreamCursor {
    StreamCursor { current_offset: 0, state: StreamState::Init }
}

pub open spec fn poll_spec(c: StreamCursor) -> (StreamCursor, PollStep) {
    match c.state {
        StreamState::Init => (
            StreamCursor {
                current_offset: c.current_offset,
                state: StreamState::WaitingChunk,
            },
            PollStep::Read { offset: c.current_offset, len: CHUNK_SIZE },
        ),
        StreamState::WaitingChunk => (c, PollStep::Await),
        StreamState::Done => (c, PollStep::Finished),
    }
}

pub open spec fn complete_spec(c: StreamCursor, outcome: ReadOutcome) -> (StreamCursor, FrameStep) {
    match outcome {
        ReadOutcome::Data(n) => if n == 0 {
            (
                StreamCursor {
                    current_offset: c.current_offset,
                        state: StreamState::Done,
                },
                FrameStep::End,
            )
        } else {
            (
                StreamCursor {
                    current_offset: (c.current_offset + n) as u64,
                        state: StreamState::Init,
                },
                FrameStep::Frame,
            )
        },
        ReadOutcome::Failed => (
            StreamCursor {
                current_offset: c.current_offset,
                state: StreamState::Done,
            },
            FrameStep::Error,
        ),
    }
}

impl StreamCursor {
    /// A cursor for a new attempt: at offset 0, nothing read yet.
    pub fn new() -> (r: StreamCursor)
        ensures
            r == fresh_cursor(),
    {
        StreamCursor { current_offset: 0, state: StreamState::Init }
    }

    /// Called on each poll of the body.
    pub fn poll(&mut self) -> (r: PollStep)
        ensures
            (*final(self), r) == poll_spec(*old(self)),
    {
        match self.state {
            StreamState::Init => {
                self.state = StreamState::WaitingChunk;
                PollStep::Read { offset: self.current_offset, len: CHUNK_SIZE }
            },
            StreamState::WaitingChunk => PollStep::Await,
            StreamState::Done => PollStep::Finished,
        }
    }

    /// Called when the read in flight has completed.
    pub fn complete(&mut self, outcome: ReadOutcome) -> (r: FrameStep)
        requires
            old(self).state == StreamState::WaitingChunk,
            outcome matches ReadOutcome::Data(n) ==> old(self).current_offset + n <= u64::MAX,
        ensures
            (*final(self), r) == complete_spec(*old(self), outcome),
    {
        match outcome {
            ReadOutcome::Data(n) => {
                if n == 0 {
                    self.state = StreamState::Done;
                    FrameStep::End
                } else {
                    self.current_offset = self.current_offset + n as u64;
                    self.state = StreamState::Init;
                    FrameStep::Frame
                }
            },
            ReadOutcome::Failed => {
                self.state = StreamState::Done;
                FrameStep::Error
            },
        }
    }
}

/// A read of up to `len` bytes at `offset` of a source holding `src`: what is
/// there, up to the end.
pub open spec fn read_at(src: Seq<u8>, offset: nat, len: nat) -> Seq<u8> {
    if offset >= src.len() {
        Seq::empty()
    } else if offset + len <= src.len() {
        src.subrange(offset as int, (offset + len) as int)
    } else {
        src.subrange(offset as int, src.len() as int)
    }
}

pub open spec fn state_rank(s: StreamState) -> nat {
    match s {
        StreamState::Init => 1,
        StreamState::WaitingChunk => 0,
        StreamState::Done => 0,
    }
}

/// One poll of an attempt over `src` whose reads succeed, with the read in
/// flight completing: the next cursor and the frame emitted, if any.
pub open spec fn advance(src: Seq<u8>, c: StreamCursor) -> (StreamCursor, Option<Seq<u8>>) {
    match c.state {
        StreamState::Init => (poll_spec(c).0, None),
        StreamState::WaitingChunk => {
            let data = read_at(src, c.current_offset as nat, CHUNK_SIZE as nat);
            let next = complete_spec(c, ReadOutcome::Data(data.len() as usize)).0;
            if data.len() == 0 {
                (next, None)
            } else {
                (next, Some(data))
            }
        },
        StreamState::Done => (c, None),
    }
}

/// The frames that an attempt emits from cursor `c` on, over `src`, until it
/// ends.
pub open spec fn upload_frames(src: Seq<u8>, c: StreamCursor) -> Seq<Seq<u8>>
    decreases src.len() - c.current_offset, state_rank(c.state),
{
    if src.len() > u64::MAX || c.current_offset > src.len() {
        Seq::empty()
    } else {
        match c.state {
            StreamState::Done => Seq::empty(),
            StreamState::Init => upload_frames(src, advance(src, c).0),
            StreamState::WaitingChunk => match advance(src, c).1 {
                None => Seq::empty(),
                Some(data) => seq![data] + upload_frames(src, advance(src, c).0),
            },
        }
    }
}

proof fn lemma_frames_from(src: Seq<u8>, c: StreamCursor)
    requires
        src.len() <= u64::MAX,
        c.state != StreamState::Done,
        c.current_offset <= src.len(),
    ensures
        upload_frames(src, c).flatten() == src.subrange(c.current_offset as int, src.len() as int),
        upload_frames(src, c).len() == (src.len() - c.current_offset + 4095) / 4096,
        forall|i: int|
            0 <= i < upload_frames(src, c).len() ==> 0 < #[trigger] upload_frames(src, c)[i].len()
                <= CHUNK_SIZE,
        forall|i: int|
            0 <= i < upload_frames(src, c).len() - 1 ==> #[trigger] upload_frames(src, c)[i].len()
                == CHUNK_SIZE,
    decreases src.len() - c.current_offset, state_rank(c.state),
{
    let (next, out) = advance(src, c);
    let rest = src.subrange(c.current_offset as int, src.len() as int);
    if c.state == StreamState::Init {
        lemma_frames_from(src, next);
    } else {
        match out {
            None => {
                assert(rest =~= Seq::<u8>::empty());
            },
            Some(data) => {
                lemma_frames_from(src, next);
                let f = upload_frames(src, c);
                let tail = upload_frames(src, next);
                assert(f == seq![data] + tail);
                assert(f.drop_first() =~= tail);
                assert(f.first() == data);
                assert(rest =~= data + src.subrange(next.current_offset as int, src.len() as int));
                assert forall|i: int| 1 <= i < f.len() implies #[trigger] f[i] == tail[i - 1] by {}
                if tail.len() > 0 {
                    assert(data.len() == CHUNK_SIZE);
                }
            },
        }
    }
}

/// A fresh attempt over a source of `L` bytes whose reads succeed emits
/// `ceil(L / 4096)` frames, each of 4096 bytes but the last, which holds 1 to
/// 4096; their concatenation is the source, and an empty source emits none.
pub proof fn lemma_stream_fidelity(src: Seq<u8>)
    requires
        src.len() <= u64::MAX,
    ensures
        upload_frames(src, fresh_cursor()).flatten() == src,
        upload_frames(src, fresh_cursor()).len() == (src.len() + 4095) / 4096,
        forall|i: int|
            0 <= i < upload_frames(src, fresh_cursor()).len() ==> 0 < #[trigger] upload_frames(
                src,
                fresh_cursor(),
            )[i].len() <= CHUNK_SIZE,
        forall|i: int|
            0 <= i < upload_frames(src, fresh_cursor()).len() - 1 ==> #[trigger] upload_frames(
                src,
                fresh_cursor(),
            )[i].len() == CHUNK_SIZE,
{
    lemma_frames_from(src, fresh_cursor());
    assert(src.subrange(0, src.len() as int) =~= src);
}

pub open spec fn emitted(out: Seq<Seq<u8>>, frame: Option<Seq<u8>>) -> Seq<Seq<u8>> {
    match frame {
        Some(data) => out.push(data),
        None => out,
    }
}

/// Two attempts over one source, polled in the order `schedule` gives
/// (`true` polls the first, `false` the second): both cursors and the frames
/// each has emitted.
pub open spec fn interleave(
    src: Seq<u8>,
    a: StreamCursor,
    b: StreamCursor,
    schedule: Seq<bool>,
) -> (StreamCursor, StreamCursor, Seq<Seq<u8>>, Seq<Seq<u8>>)
    decreases schedule.len(),
{
    if schedule.len() == 0 {
        (a, b, Seq::empty(), Seq::empty())
    } else {
        let (a1, b1, out_a, out_b) = interleave(src, a, b, schedule.drop_last());
        if schedule.last() {
            (advance(src, a1).0, b1, emitted(out_a, advance(src, a1).1), out_b)
        } else {
            (a1, advance(src, b1).0, out_a, emitted(out_b, advance(src, b1).1))
        }
    }
}

proof fn lemma_advance(src: Seq<u8>, c: StreamCursor)
    requires
        src.len() <= u64::MAX,
        c.current_offset <= src.len(),
    ensures
        advance(src, c).0.current_offset <= src.len(),
        upload_frames(src, c) == emitted(Seq::empty(), advance(src, c).1) + upload_frames(
            src,
            advance(src, c).0,
        ),
{
    let (next, out) = advance(src, c);
    match out {
        None => {
            if c.state == StreamState::WaitingChunk {
                assert(upload_frames(src, next) == Seq::<Seq<u8>>::empty());
            }
            assert(upload_frames(src, c) =~= Seq::<Seq<u8>>::empty() + upload_frames(src, next));
        },
        Some(data) => {
            assert(emitted(Seq::empty(), out) =~= seq![data]);
        },
    }
}

proof fn lemma_interleave(src: Seq<u8>, schedule: Seq<bool>)
    requires
        src.len() <= u64::MAX,
    ensures
        ({
            let (a, b, out_a, out_b) = interleave(src, fresh_cursor(), fresh_cursor(), schedule);
            &&& a.current_offset <= src.len()
            &&& b.current_offset <= src.len()
            &&& out_a + upload_frames(src, a) == upload_frames(src, fresh_cursor())
            &&& out_b + upload_frames(src, b) == upload_frames(src, fresh_cursor())
        }),
    decreases schedule.len(),
{
    if schedule.len() == 0 {
        assert(Seq::<Seq<u8>>::empty() + upload_frames(src, fresh_cursor()) =~= upload_frames(
            src,
            fresh_cursor(),
        ));
    } else {
        lemma_interleave(src, schedule.drop_last());
        let (a1, b1, out_a, out_b) = interleave(
            src,
            fresh_cursor(),
            fresh_cursor(),
            schedule.drop_last(),
        );
        if schedule.last() {
            lemma_advance(src, a1);
            let (a2, f) = advance(src, a1);
            assert(emitted(out_a, f) + upload_frames(src, a2) =~= out_a + (emitted(
                Seq::empty(),
                f,
            ) + upload_frames(src, a2)));
        } else {
            lemma_advance(src, b1);
            let (b2, f) = advance(src, b1);
            assert(emitted(out_b, f) + upload_frames(src, b2) =~= out_b + (emitted(
                Seq::empty(),
                f,
            ) + upload_frames(src, b2)));
        }
    }
}

/// Two fresh attempts over one shared source, polled in any interleaving, do
/// not disturb each other: what each has emitted so far is a prefix of what
/// a lone attempt emits, and an attempt that has ended has emitted the whole
/// source.
pub proof fn lemma_retry_independence(src: Seq<u8>, schedule: Seq<bool>)
    requires
        src.len() <= u64::MAX,
    ensures
        ({
            let (a, b, out_a, out_b) = interleave(src, fresh_cursor(), fresh_cursor(), schedule);
            &&& out_a.is_prefix_of(upload_frames(src, fresh_cursor()))
            &&& out_b.is_prefix_of(upload_frames(src, fresh_cursor()))
            &&& a.state == StreamState::Done ==> out_a.flatten() == src
            &&& b.state == StreamState::Done ==> out_b.flatten() == src
        }),
{
    lemma_interleave(src, schedule);
    lemma_stream_fidelity(src);
    let (a, b, out_a, out_b) = interleave(src, fresh_cursor(), fresh_cursor(), schedule);
    let full = upload_frames(src, fresh_cursor());
    assert(full.subrange(0, out_a.len() as int) =~= out_a);
    assert(full.subrange(0, out_b.len() as int) =~= out_b);
    if a.state == StreamState::Done {
        assert(out_a + upload_frames(src, a) =~= out_a);
    }
    if b.state == StreamState::Done {
        assert(out_b + upload_frames(src, b) =~= out_b);
    }
}

} // verus!
