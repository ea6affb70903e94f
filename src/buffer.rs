use crate::error::DecodeError;
use vstd::prelude::*;

verus! {

/// A fixed-capacity circular cache of `N` bytes over a byte stream. The unread bytes are
/// the `len` bytes from `pos` on, wrapping at the end of the storage.
pub struct RingBufReader<const N: usize> {
    buf: Vec<u8>,
    pos: usize,
    len: usize,
}

impl<const N: usize> RingBufReader<N> {
    /// Where the `i`-th unread byte is stored.
    spec fn slot(&self, i: int) -> int {
        if self.pos + i < N {
            self.pos + i
        } else {
            self.pos + i - N
        }
    }

    /// The storage holds `N` bytes and the unread region lies within it.
    pub closed spec fn wf(&self) -> bool {
        &&& N > 0
        &&& self.buf@.len() == N
        &&& self.pos < N
        &&& self.len <= N
    }

    /// The unread bytes, oldest first.
    pub closed spec fn view(&self) -> Seq<u8> {
        Seq::new(self.len as nat, |i: int| self.buf@[self.slot(i)])
    }

    /// How many bytes one fill may take: the free space that follows the unread bytes
    /// before the end of the storage.
    pub closed spec fn fill_limit(&self) -> nat {
        let start = self.slot(self.len as int);
        if start + (N - self.len) <= N {
            (N - self.len) as nat
        } else {
            (N - start) as nat
        }
    }

    /// An empty buffer of capacity `N`.
    pub fn new() -> (r: Self)
        requires
            N > 0,
        ensures
            r.wf(),
            r@ == Seq::<u8>::empty(),
    {
        let mut buf: Vec<u8> = Vec::new();
        let mut i: usize = 0;
        while i < N
            invariant
                i <= N,
                buf@.len() == i,
            decreases N - i,
        {
            buf.push(0);
            i = i + 1;
        }
        let r = RingBufReader { buf, pos: 0, len: 0 };
        assert(r@ =~= Seq::<u8>::empty());
        r
    }

    /// Whether no byte is buffered.
    pub fn is_empty(&self) -> (r: bool)
        requires
            self.wf(),
        ensures
            r == (self@.len() == 0),
    {
        self.len == 0
    }

    /// How many bytes the next fill may take; more than zero unless the buffer is full.
    pub fn fill_capacity(&self) -> (r: usize)
        requires
            self.wf(),
        ensures
            r == self.fill_limit(),
            r <= N - self@.len(),
            self@.len() < N ==> r > 0,
    {
        let start = if self.pos < N - self.len {
            self.pos + self.len
        } else {
            self.pos - (N - self.len)
        };
        if N - self.len <= N - start {
            N - self.len
        } else {
            N - start
        }
    }

    /// Appends the bytes that one read of the source returned. A read of zero bytes
    /// means that the source has ended: nothing changes and `ConnectionClosed` comes back.
    pub fn fill(&mut self, chunk: &[u8]) -> (r: Result<(), DecodeError>)
        requires
            old(self).wf(),
            chunk@.len() <= old(self).fill_limit(),
        ensures
            final(self).wf(),
            chunk@.len() == 0 ==> r == Err::<(), DecodeError>(DecodeError::ConnectionClosed)
                && final(self)@ == old(self)@,
            chunk@.len() > 0 ==> r is Ok && final(self)@ == old(self)@ + chunk@,
    {
        if chunk.len() == 0 {
            return Err(DecodeError::ConnectionClosed);
        }
        let ghost before = self@;
        let start = if self.pos < N - self.len {
            self.pos + self.len
        } else {
            self.pos - (N - self.len)
        };
        let mut j: usize = 0;
        while j < chunk.len()
            invariant
                self.wf(),
                self.pos == old(self).pos,
                self.len == old(self).len,
                start == self.slot(self.len as int),
                chunk@.len() <= self.fill_limit(),
                j <= chunk@.len(),
                self@ == before,
                forall|i: int| 0 <= i < j ==> #[trigger] self.buf@[start + i] == chunk@[i],
            decreases chunk@.len() - j,
        {
            self.buf[start + j] = chunk[j];
            j = j + 1;
            assert(self@ =~= before);
        }
        let ghost old_len = self.len as int;
        let ghost mid = self@;
        assert(mid == before);
        self.len = self.len + chunk.len();
        assert forall|i: int| 0 <= i < chunk@.len() implies #[trigger] self@[old_len + i] == chunk@[i] by {
            assert(self.slot(old_len + i) == start + i);
        }
        assert forall|i: int| 0 <= i < old_len implies #[trigger] self@[i] == before[i] by {
            assert(mid[i] == self.buf@[self.slot(i)]);
        }
        assert forall|i: int| 0 <= i < self@.len() implies #[trigger] self@[i] == (before + chunk@)[i] by {
            if i >= old_len {
                assert(self@[old_len + (i - old_len)] == chunk@[i - old_len]);
            }
        }
        assert(self@ =~= before + chunk@);
        Ok(())
    }

    /// Takes the oldest buffered byte, or gives `None` when nothing is buffered.
    pub fn read_u8(&mut self) -> (r: Option<u8>)
        requires
            old(self).wf(),
        ensures
            final(self).wf(),
            old(self)@.len() == 0 ==> r is None && final(self)@ == old(self)@,
            old(self)@.len() > 0 ==> r == Some(old(self)@[0]) && final(self)@ == old(self)@.drop_first(),
    {
        if self.len == 0 {
            return None;
        }
        let ghost before = self@;
        let b = self.buf[self.pos];
        self.pos = if self.pos + 1 < N {
            self.pos + 1
        } else {
            0
        };
        self.len = self.len - 1;
        assert(self@ =~= before.drop_first());
        Some(b)
    }

    /// Appends to `target` the next `length` bytes, as far as they are buffered, oldest
    /// first; whatever of them is still missing must come straight from the source.
    pub fn read_exact(&mut self, target: &mut Vec<u8>, length: usize)
        requires
            old(self).wf(),
        ensures
            final(self).wf(),
            final(target)@ == old(target)@ + old(self)@.take(taken(old(self)@.len(), length as int)),
            final(self)@ == old(self)@.skip(taken(old(self)@.len(), length as int)),
    {
        let ghost t0 = target@;
        let ghost b0 = self@;
        let ghost k = taken(b0.len(), length as int);
        let mut done: usize = 0;
        loop
            invariant
                self.wf(),
                done <= length,
                done <= k,
                k == taken(b0.len(), length as int),
                t0 == old(target)@,
                b0 == old(self)@,
                target@ == t0 + b0.take(done as int),
                self@ == b0.skip(done as int),
            decreases length - done,
        {
            let want = length - done;
            let run = if self.len < N - self.pos {
                self.len
            } else {
                N - self.pos
            };
            let n = if want < run {
                want
            } else {
                run
            };
            assert(self@.len() == self.len);
            if n == 0 {
                assert(done == k);
                return;
            }
            let ghost c = done as int;
            let start = self.pos;
            let mut j: usize = 0;
            while j < n
                invariant
                    self.wf(),
                    start == self.pos,
                    start + n <= N,
                    n <= self.len,
                    j <= n,
                    self@ == b0.skip(c),
                    target@ == t0 + b0.take(c + j),
                    0 <= c,
                    c + n <= b0.len(),
                decreases n - j,
            {
                target.push(self.buf[start + j]);
                proof {
                    assert(self@[j as int] == self.buf@[start + j]);
                    assert(self@.len() == self.len);
                    assert(b0.skip(c)[j as int] == b0[c + j]);
                    assert(target@ =~= t0 + b0.take(c + j + 1));
                }
                j = j + 1;
            }
            let ghost before = self@;
            self.pos = if start + n < N {
                start + n
            } else {
                0
            };
            self.len = self.len - n;
            done = done + n;
            assert(self@ =~= before.skip(n as int));
            assert(b0.skip(c).skip(n as int) =~= b0.skip(c + n));
        }
    }
}

/// How many buffered bytes a read of `want` bytes takes out of `buffered`.
pub open spec fn taken(buffered: nat, want: int) -> int {
    if want < buffered {
        want
    } else {
        buffered as int
    }
}

/// Reading `length` bytes through the ring buffer gives what a plain reader of the stream
/// gets: the bytes that `read_exact` appends from the buffer, then the rest read straight
/// from the source, are the next `length` bytes of the buffered bytes followed by the source.
pub proof fn read_exact_matches_plain_read(buffered: Seq<u8>, source: Seq<u8>, target: Seq<u8>, length: int)
    requires
        0 <= length <= buffered.len() + source.len(),
    ensures
        ({
            let k = taken(buffered.len(), length);
            target + buffered.take(k) + source.take(length - k) == target + (buffered + source).take(length)
        }),
{
    let k = taken(buffered.len(), length);
    assert(buffered.take(k) + source.take(length - k) =~= (buffered + source).take(length));
    assert(target + buffered.take(k) + source.take(length - k) =~= target + (buffered.take(k) + source.take(length - k)));
}

} // verus!
