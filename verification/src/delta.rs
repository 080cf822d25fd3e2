//! The `Delta` filter decoder: each byte is stored as its difference from
//! the byte `distance` positions before it.
use crate::error::R7zError;
use vstd::prelude::*;
use vstd::wrapping::u8_specs;

verus! {

/// The first `n` decoded bytes of `src` with distance `d`: byte `i` is
/// `src[i]` plus decoded byte `i - d` (plus zero for the first `d` bytes),
/// modulo 256.
pub open spec fn delta_prefix(src: Seq<u8>, d: nat, n: nat) -> Seq<u8>
    decreases n,
{
    if n == 0 {
        Seq::empty()
    } else {
        let prev = delta_prefix(src, d, (n - 1) as nat);
        let i = (n - 1) as nat;
        prev.push(
            u8_specs::wrapping_add(
                src[i as int],
                if i >= d {
                    prev[i - d]
                } else {
                    0u8
                },
            ),
        )
    }
}

/// The whole decoded stream.
pub open spec fn spec_delta_decode(src: Seq<u8>, d: nat) -> Seq<u8> {
    delta_prefix(src, d, src.len())
}

pub proof fn lemma_delta_prefix_len(src: Seq<u8>, d: nat, n: nat)
    ensures
        delta_prefix(src, d, n).len() == n,
    decreases n,
{
    if n > 0 {
        lemma_delta_prefix_len(src, d, (n - 1) as nat);
    }
}

/// Decoded prefixes extend one another.
pub proof fn lemma_delta_prefix_extends(src: Seq<u8>, d: nat, m: nat, n: nat)
    requires
        m <= n,
    ensures
        delta_prefix(src, d, n).subrange(0, m as int) == delta_prefix(src, d, m),
    decreases n - m,
{
    lemma_delta_prefix_len(src, d, n);
    lemma_delta_prefix_len(src, d, m);
    if m == n {
        assert(delta_prefix(src, d, n).subrange(0, m as int) =~= delta_prefix(src, d, m));
    } else {
        lemma_delta_prefix_extends(src, d, m, (n - 1) as nat);
        lemma_delta_prefix_len(src, d, (n - 1) as nat);
        assert(delta_prefix(src, d, n).subrange(0, m as int) =~= delta_prefix(
            src,
            d,
            (n - 1) as nat,
        ).subrange(0, m as int));
    }
}

/// A reader that undoes the `Delta` filter over its source.
pub struct DeltaReader {
    inner: Vec<u8>,
    delta: usize,
    /// Everything decoded so far.
    decoded: Vec<u8>,
}

impl DeltaReader {
    /// The source bytes.
    pub closed spec fn source(&self) -> Seq<u8> {
        self.inner@
    }

    /// The distance between a byte and the one it is stored against.
    pub closed spec fn distance(&self) -> nat {
        self.delta as nat
    }

    /// Bytes handed out so far.
    pub closed spec fn position(&self) -> nat {
        self.decoded@.len()
    }

    /// Internal consistency.
    pub closed spec fn wf(&self) -> bool {
        &&& 1 <= self.delta <= 256
        &&& self.decoded@.len() <= self.inner@.len()
        &&& self.decoded@ == delta_prefix(self.inner@, self.delta as nat, self.decoded@.len())
    }

    /// A reader over `inner`; `props` is the single property byte, the
    /// distance less one.
    pub fn new(inner: Vec<u8>, props: &[u8]) -> (r: Result<Self, R7zError>)
        ensures
            props@.len() != 1 ==> r == Err::<Self, R7zError>(R7zError::Decompression),
            props@.len() == 1 ==> (r matches Ok(d) && d.wf() && d.source() == inner@ && d.distance()
                == props@[0] + 1 && d.position() == 0),
    {
        if props.len() != 1 {
            return Err(R7zError::Decompression);
        }
        let r = DeltaReader { inner, delta: props[0] as usize + 1, decoded: Vec::new() };
        proof {
            assert(r.decoded@ =~= delta_prefix(r.inner@, r.delta as nat, 0));
        }
        Ok(r)
    }

    /// Fill `buf` with the next decoded bytes; gives how many (zero at the end).
    pub fn read(&mut self, buf: &mut [u8]) -> (n: usize)
        requires
            old(self).wf(),
        ensures
            final(self).wf(),
            final(self).source() == old(self).source(),
            final(self).distance() == old(self).distance(),
            n == vstd::math::min(old(buf)@.len() as int, old(self).source().len() - old(self).position()),
            final(self).position() == old(self).position() + n,
            final(buf)@.len() == old(buf)@.len(),
            final(buf)@.subrange(0, n as int) == spec_delta_decode(
                old(self).source(),
                old(self).distance(),
            ).subrange(old(self).position() as int, old(self).position() + n),
            final(buf)@.subrange(n as int, old(buf)@.len() as int) == old(buf)@.subrange(
                n as int,
                old(buf)@.len() as int,
            ),
    {
        let start = self.decoded.len();
        let avail = self.inner.len() - start;
        let n = if buf.len() < avail {
            buf.len()
        } else {
            avail
        };
        let ghost b0 = buf@;
        let ghost src = self.inner@;
        let ghost d = self.delta as nat;
        let mut i: usize = 0;
        while i < n
            invariant
                i <= n,
                n <= buf@.len(),
                start + n <= src.len(),
                start + n <= self.inner.len(),
                src == self.inner@,
                d == self.delta,
                1 <= self.delta <= 256,
                self.decoded@.len() == start + i,
                self.decoded@ == delta_prefix(src, d, (start + i) as nat),
                buf@.len() == b0.len(),
                forall|q: int| 0 <= q < i ==> buf@[q] == #[trigger] self.decoded@[start + q],
                forall|q: int| i <= q < b0.len() ==> buf@[q] == #[trigger] b0[q],
            decreases n - i,
        {
            let k = start + i;
            let base = if k >= self.delta {
                self.decoded[k - self.delta]
            } else {
                0
            };
            let byte = self.inner[k].wrapping_add(base);
            self.decoded.push(byte);
            buf[i] = byte;
            i = i + 1;
        }
        proof {
            lemma_delta_prefix_len(src, d, src.len());
            lemma_delta_prefix_extends(src, d, (start + n) as nat, src.len());
            let full = spec_delta_decode(src, d);
            assert forall|q: int| 0 <= q < n implies buf@.subrange(0, n as int)[q] == full.subrange(
                start as int,
                start + n,
            )[q] by {
                assert(buf@[q] == self.decoded@[start + q]);
                assert(full.subrange(0, start + n)[start + q] == full[start + q]);
            }
            assert(buf@.subrange(0, n as int) =~= full.subrange(start as int, start + n));
            assert(buf@.subrange(n as int, b0.len() as int) =~= b0.subrange(n as int, b0.len() as int));
        }
        n
    }
}

} // verus!
