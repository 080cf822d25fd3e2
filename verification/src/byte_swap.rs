//! The `Swap2` / `Swap4` filters: byte order reversed within each group.
use vstd::prelude::*;

verus! {

/// Byte `j` of the filtered stream: within each complete group of `width`
/// bytes the order is reversed; a trailing partial group is left as it is.
pub open spec fn swapped_index(len: nat, width: nat, j: nat) -> nat {
    let full = (len / width) * width;
    if j < full {
        ((j / width) * width + (width - 1 - j % width)) as nat
    } else {
        j
    }
}

/// The whole filtered stream.
pub open spec fn spec_byte_swap(src: Seq<u8>, width: nat) -> Seq<u8> {
    Seq::new(src.len(), |j: int| src[swapped_index(src.len(), width, j as nat) as int])
}

/// A reader that reverses the byte order of each `width`-byte group of its
/// source (a trailing partial group is passed through unchanged).
pub struct ByteSwapReader {
    inner: Vec<u8>,
    width: usize,
    /// Bytes of filtered output handed out so far.
    delivered: usize,
}

impl ByteSwapReader {
    /// The source bytes.
    pub closed spec fn source(&self) -> Seq<u8> {
        self.inner@
    }

    /// The group width.
    pub closed spec fn spec_width(&self) -> nat {
        self.width as nat
    }

    /// Bytes of output handed out so far.
    pub closed spec fn position(&self) -> nat {
        self.delivered as nat
    }

    /// Internal consistency.
    pub closed spec fn wf(&self) -> bool {
        (self.width == 2 || self.width == 4) && self.delivered <= self.inner@.len()
    }

    /// A reader over `inner` with groups of `width` bytes (2 or 4).
    pub fn new(inner: Vec<u8>, width: usize) -> (r: Self)
        requires
            width == 2 || width == 4,
        ensures
            r.wf(),
            r.source() == inner@,
            r.spec_width() == width,
            r.position() == 0,
    {
        ByteSwapReader { inner, width, delivered: 0 }
    }

    /// Fill `buf` with the next filtered bytes; gives how many (zero at the end).
    pub fn read(&mut self, buf: &mut [u8]) -> (n: usize)
        requires
            old(self).wf(),
        ensures
            final(self).wf(),
            final(self).source() == old(self).source(),
            final(self).spec_width() == old(self).spec_width(),
            n == vstd::math::min(old(buf)@.len() as int, old(self).source().len() - old(self).position()),
            final(self).position() == old(self).position() + n,
            final(buf)@.len() == old(buf)@.len(),
            final(buf)@.subrange(0, n as int) == spec_byte_swap(
                old(self).source(),
                old(self).spec_width(),
            ).subrange(old(self).position() as int, old(self).position() + n),
            final(buf)@.subrange(n as int, old(buf)@.len() as int) == old(buf)@.subrange(
                n as int,
                old(buf)@.len() as int,
            ),
    {
        let len = self.inner.len();
        let width = self.width;
        let full = (len / width) * width;
        let avail = len - self.delivered;
        let n = if buf.len() < avail {
            buf.len()
        } else {
            avail
        };
        let start = self.delivered;
        let ghost b0 = buf@;
        let mut i: usize = 0;
        proof {
            vstd::arithmetic::div_mod::lemma_fundamental_div_mod(len as int, width as int);
        }
        while i < n
            invariant
                i <= n,
                n <= buf@.len(),
                start + n <= len,
                len == self.inner@.len(),
                width == self.width,
                width == 2 || width == 4,
                full == (len / width) * width,
                full <= len,
                self.delivered == start,
                buf@.len() == b0.len(),
                forall|q: int| 0 <= q < i ==> buf@[q] == #[trigger] spec_byte_swap(self.inner@, width as nat)[start + q],
                forall|q: int| i <= q < b0.len() ==> buf@[q] == #[trigger] b0[q],
            decreases n - i,
        {
            let j = start + i;
            let src = if j < full {
                proof {
                    vstd::arithmetic::div_mod::lemma_fundamental_div_mod(j as int, width as int);
                    vstd::arithmetic::div_mod::lemma_div_is_ordered(j as int, full as int, width as int);
                    vstd::arithmetic::div_mod::lemma_div_multiples_vanish((len / width) as int, width as int);
                    assert((j / width) < len / width);
                    vstd::arithmetic::mul::lemma_mul_inequality((j / width) as int + 1, (len / width) as int, width as int);
                }
                (j / width) * width + (width - 1 - j % width)
            } else {
                j
            };
            buf[i] = self.inner[src];
            i = i + 1;
        }
        self.delivered = self.delivered + n;
        proof {
            let sw = spec_byte_swap(self.inner@, width as nat);
            assert forall|q: int| 0 <= q < n implies buf@.subrange(0, n as int)[q] == sw.subrange(
                start as int,
                start + n,
            )[q] by {
                assert(buf@[q] == sw[start + q]);
            }
            assert(buf@.subrange(0, n as int) =~= spec_byte_swap(self.inner@, width as nat).subrange(
                start as int,
                start + n,
            ));
            assert(buf@.subrange(n as int, b0.len() as int) =~= b0.subrange(n as int, b0.len() as int));
        }
        n
    }
}

} // verus!
