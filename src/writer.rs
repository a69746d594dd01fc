//! The offset-tracking writer.

use vstd::prelude::*;

verus! {

/// A destination that takes bytes in order and reports, per call, whether it
/// took all of them.
pub trait ByteSink {
    type Error;

    /// The bytes that the sink holds, in the order it took them.
    spec fn taken(&self) -> Seq<u8>;

    /// Whether every append to the sink succeeds (an in-memory buffer).
    spec fn infallible(&self) -> bool;

    /// Appends the whole of `buf`, or fails.
    fn write_all(&mut self, buf: &[u8]) -> (r: Result<(), Self::Error>)
        ensures
            r is Ok ==> final(self).taken() == old(self).taken() + buf@,
            old(self).infallible() ==> r is Ok && final(self).infallible(),
    ;
}

impl ByteSink for Vec<u8> {
    type Error = core::convert::Infallible;

    open spec fn taken(&self) -> Seq<u8> {
        self@
    }

    open spec fn infallible(&self) -> bool {
        true
    }

    fn write_all(&mut self, buf: &[u8]) -> (r: Result<(), Self::Error>) {
        self.extend_from_slice(buf);
        assert(final(self)@ =~= old(self)@ + buf@);
        Ok(())
    }
}

/// An append refused by a [`BoundedSink`]: it would pass the capacity.
#[derive(Debug, Clone, Copy, PartialEq, Eq, Structural)]
pub struct SinkFull {
    pub capacity: usize,
}

/// An in-memory sink that holds at most `capacity` bytes; an append that
/// would pass the capacity is refused whole.
pub struct BoundedSink {
    bytes: Vec<u8>,
    capacity: usize,
}

impl BoundedSink {
    pub closed spec fn held(&self) -> Seq<u8> {
        self.bytes@
    }

    pub closed spec fn limit(&self) -> nat {
        self.capacity as nat
    }

    /// An empty sink that takes up to `capacity` bytes.
    pub fn new(capacity: usize) -> (r: BoundedSink)
        ensures
            r.held() == Seq::<u8>::empty(),
            r.limit() == capacity,
    {
        BoundedSink { bytes: Vec::new(), capacity }
    }

    /// Appends `buf` if the sink then holds no more than its capacity;
    /// otherwise takes nothing.
    pub fn append(&mut self, buf: &[u8]) -> (r: Result<(), SinkFull>)
        ensures
            final(self).limit() == old(self).limit(),
            old(self).held().len() + buf@.len() <= old(self).limit() ==> r is Ok
                && final(self).held() == old(self).held() + buf@,
            old(self).held().len() + buf@.len() > old(self).limit() ==> r == Err::<(), SinkFull>(
                SinkFull { capacity: old(self).limit() as usize },
            ) && final(self).held() == old(self).held(),
    {
        if buf.len() > self.capacity || self.bytes.len() > self.capacity - buf.len() {
            return Err(SinkFull { capacity: self.capacity });
        }
        self.bytes.extend_from_slice(buf);
        assert(final(self).bytes@ =~= old(self).bytes@ + buf@);
        Ok(())
    }

    /// The bytes held, in the order they were taken.
    pub fn into_bytes(self) -> (r: Vec<u8>)
        ensures
            r@ == self.held(),
    {
        self.bytes
    }
}

impl ByteSink for BoundedSink {
    type Error = SinkFull;

    open spec fn taken(&self) -> Seq<u8> {
        self.held()
    }

    open spec fn infallible(&self) -> bool {
        false
    }

    fn write_all(&mut self, buf: &[u8]) -> (r: Result<(), SinkFull>) {
        self.append(buf)
    }
}

/// Appends bytes to a sink and counts those that were taken.
pub struct Writer<S: ByteSink> {
    stream: S,
    offset: usize,
    /// Every byte that this writer has handed to the sink in a successful
    /// append, in order.
    log: Ghost<Seq<u8>>,
}

impl<S: ByteSink> Writer<S> {
    /// The offset counts exactly the bytes of the successful appends.
    pub closed spec fn wf(&self) -> bool {
        self.offset == self.log@.len()
    }

    /// The bytes that this writer has handed to the sink in successful
    /// appends, in order.
    pub closed spec fn written(&self) -> Seq<u8> {
        self.log@
    }

    /// The sink, as it was handed over or as the writes left it.
    pub closed spec fn sink(&self) -> S {
        self.stream
    }

    /// Creates a writer at offset zero over `stream`.
    pub fn new(stream: S) -> (r: Self)
        ensures
            r.wf(),
            r.written() == Seq::<u8>::empty(),
            r.sink() == stream,
    {
        Writer { stream, offset: 0, log: Ghost(Seq::empty()) }
    }

    /// Appends the whole of `buf` to the sink. The offset advances only when
    /// the sink took all of it; an error of the sink is handed back as it came.
    pub fn write(&mut self, buf: &[u8]) -> (r: Result<(), S::Error>)
        requires
            old(self).wf(),
            old(self).written().len() + buf@.len() <= usize::MAX,
        ensures
            final(self).wf(),
            r is Ok ==> final(self).written() == old(self).written() + buf@,
            r is Ok ==> final(self).sink().taken() == old(self).sink().taken() + buf@,
            r is Err ==> final(self).written() == old(self).written(),
            old(self).sink().infallible() ==> r is Ok && final(self).sink().infallible(),
    {
        let r = self.stream.write_all(buf);
        if r.is_ok() {
            self.offset = self.offset + buf.len();
            self.log = Ghost(self.log@ + buf@);
        }
        r
    }

    /// The number of bytes written so far.
    pub fn pos(&self) -> (r: usize)
        requires
            self.wf(),
        ensures
            r == self.written().len(),
    {
        self.offset
    }

    /// Gives the sink back.
    pub fn into_inner(self) -> (r: S)
        ensures
            r == self.sink(),
    {
        self.stream
    }
}

} // verus!
