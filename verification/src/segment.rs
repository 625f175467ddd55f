//! A segment: an append-only sequence of byte chunks that readers stream
//! while it is being written, and that ends for them once it is closed.

use vstd::prelude::*;
use axum::body::Bytes;
use crate::chunk::{bytes_contents, bytes_clone};

verus! {

/// What a segment holds, as plain values: the contents of its chunks in
/// the order they were added, and whether it has been closed.
pub struct SegmentView {
    pub chunks: Seq<Seq<u8>>,
    pub closed: bool,
}

impl SegmentView {
    /// A new segment: open, with no chunks.
    pub open spec fn empty() -> SegmentView {
        SegmentView { chunks: Seq::empty(), closed: false }
    }

    /// The segment after each of `data` is appended, in order.
    pub open spec fn add_chunks(self, data: Seq<Seq<u8>>) -> SegmentView
        decreases data.len(),
    {
        if data.len() == 0 {
            self
        } else {
            self.add_chunks(data.drop_last()).add_chunk(data.last())
        }
    }

    /// The segment after `data` is appended.
    pub open spec fn add_chunk(self, data: Seq<u8>) -> SegmentView {
        SegmentView { chunks: self.chunks.push(data), closed: self.closed }
    }

    /// The segment after it is closed.
    pub open spec fn close(self) -> SegmentView {
        SegmentView { chunks: self.chunks, closed: true }
    }

    /// What a reader that has already read `position` chunks is given next.
    pub open spec fn stream_at(self, position: int) -> StreamStepView {
        if 0 <= position < self.chunks.len() {
            StreamStepView::Chunk(self.chunks[position])
        } else if self.closed {
            StreamStepView::End
        } else {
            StreamStepView::Wait
        }
    }
}

/// The next step of a reader of a segment.
#[derive(Debug)]
pub enum StreamStep {
    /// The next chunk; the reader moves one position on.
    Chunk(Bytes),
    /// Nothing to read yet: wait until the segment is written to or closed.
    Wait,
    /// The segment is closed and every chunk has been read.
    End,
}

/// A `StreamStep` with the chunk taken by its contents.
pub enum StreamStepView {
    Chunk(Seq<u8>),
    Wait,
    End,
}

impl StreamStep {
    pub open spec fn view(self) -> StreamStepView {
        match self {
            StreamStep::Chunk(b) => StreamStepView::Chunk(bytes_contents(b)),
            StreamStep::Wait => StreamStepView::Wait,
            StreamStep::End => StreamStepView::End,
        }
    }
}

/// An append-only sequence of byte chunks with a closed flag.
#[derive(Debug)]
pub struct Segment {
    chunks: Vec<Bytes>,
    closed: bool,
}

impl View for Segment {
    type V = SegmentView;

    closed spec fn view(&self) -> SegmentView {
        SegmentView {
            chunks: Seq::new(self.chunks@.len(), |i: int| bytes_contents(self.chunks@[i])),
            closed: self.closed,
        }
    }
}

impl Segment {
    /// An open segment with no chunks.
    pub fn new() -> (s: Segment)
        ensures
            s@ == SegmentView::empty(),
    {
        let s = Segment { chunks: Vec::new(), closed: false };
        assert(s@.chunks =~= Seq::<Seq<u8>>::empty());
        s
    }

    /// Appends `data` as the segment's last chunk. A closed segment takes
    /// chunks too.
    pub fn add_chunk(&mut self, data: Bytes)
        ensures
            final(self)@ == old(self)@.add_chunk(bytes_contents(data)),
    {
        self.chunks.push(data);
        assert(self@.chunks =~= old(self)@.chunks.push(bytes_contents(data)));
    }

    /// Marks the segment closed: readers end once they have read every chunk.
    pub fn close(&mut self)
        ensures
            final(self)@ == old(self)@.close(),
    {
        self.closed = true;
        assert(self@.chunks =~= old(self)@.chunks);
    }

    /// The step of a reader that has read `position` chunks so far: the
    /// chunk at `position` if there is one, else the end if the segment is
    /// closed, else a wait.
    pub fn stream(&self, position: usize) -> (step: StreamStep)
        ensures
            step.view() == self@.stream_at(position as int),
    {
        if position < self.chunks.len() {
            StreamStep::Chunk(bytes_clone(&self.chunks[position]))
        } else if self.closed {
            StreamStep::End
        } else {
            StreamStep::Wait
        }
    }

    /// The number of chunks added so far.
    pub fn num_chunks(&self) -> (n: usize)
        ensures
            n == self@.chunks.len(),
    {
        self.chunks.len()
    }

    /// Whether the segment has been closed.
    pub fn is_closed(&self) -> (b: bool)
        ensures
            b == self@.closed,
    {
        self.closed
    }
}

/// A reader that is at the end of what was written is given the chunk that
/// is written next: a read gives back what a write wrote.
pub proof fn lemma_read_after_write(s: SegmentView, data: Seq<u8>)
    ensures
        s.add_chunk(data).stream_at(s.chunks.len() as int) == StreamStepView::Chunk(data),
{
}

/// What a reader was given at a position stays what it is given there,
/// whatever is written or closed later: chunks never change once added.
pub proof fn lemma_chunks_are_stable(s: SegmentView, data: Seq<u8>, position: int)
    requires
        s.stream_at(position) is Chunk,
    ensures
        s.add_chunk(data).stream_at(position) == s.stream_at(position),
        s.close().stream_at(position) == s.stream_at(position),
{
}

/// A reader of an open segment that has read every chunk waits; once the
/// segment is closed it ends there instead.
pub proof fn lemma_close_ends_readers(s: SegmentView)
    ensures
        !s.closed ==> s.stream_at(s.chunks.len() as int) == StreamStepView::Wait,
        s.close().stream_at(s.chunks.len() as int) == StreamStepView::End,
{
}

/// A reader of a closed segment that starts at the first chunk is given
/// every chunk in the order it was written, and then the end.
pub proof fn lemma_closed_segment_reads_in_order(s: SegmentView)
    requires
        s.closed,
    ensures
        forall|i: int|
            0 <= i < s.chunks.len() ==> #[trigger] s.stream_at(i) == StreamStepView::Chunk(s.chunks[i]),
        s.stream_at(s.chunks.len() as int) == StreamStepView::End,
{
}

proof fn lemma_add_chunks(s: SegmentView, data: Seq<Seq<u8>>)
    ensures
        s.add_chunks(data).chunks == s.chunks + data,
        s.add_chunks(data).closed == s.closed,
    decreases data.len(),
{
    if data.len() > 0 {
        lemma_add_chunks(s, data.drop_last());
        assert(s.chunks + data =~= (s.chunks + data.drop_last()).push(data.last()));
    } else {
        assert(s.chunks + data =~= s.chunks);
    }
}

/// An upload of the chunks `data` to a new segment, once finished, is
/// streamed to every reader as exactly those chunks, in order, and then
/// ends; while it is not finished, a reader that has read them all waits.
pub proof fn lemma_upload_reads_back(data: Seq<Seq<u8>>)
    ensures
        forall|i: int| 0 <= i < data.len() ==> #[trigger] SegmentView::empty().add_chunks(data).close().stream_at(i)
            == StreamStepView::Chunk(data[i]),
        SegmentView::empty().add_chunks(data).close().stream_at(data.len() as int) == StreamStepView::End,
        SegmentView::empty().add_chunks(data).stream_at(data.len() as int) == StreamStepView::Wait,
{
    lemma_add_chunks(SegmentView::empty(), data);
    assert(SegmentView::empty().chunks + data =~= data);
}

} // verus!
