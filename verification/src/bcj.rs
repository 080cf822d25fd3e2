//! x86 BCJ (Branch, Call, Jump) filter.
//!
//! Converts relative addresses in x86 CALL (0xE8) and JMP (0xE9) instructions
//! to absolute form (encode) or back to relative form (decode). This improves
//! compression of executable code because nearby calls to the same target end up
//! with identical displacement bytes after the filter.
//!
//! The algorithm is that of the LZMA SDK's x86 branch converter.
use vstd::prelude::*;
use vstd::wrapping::{u32_specs, u8_specs};

verus! {

/// The byte that ends a 4-byte displacement makes it a near address: it is
/// `0x00` or `0xFF`.
pub open spec fn spec_test86_msb(b: u8) -> bool {
    b == 0 || b == 0xFF
}

/// Test whether the most-significant byte of a 4-byte displacement indicates
/// a near address (0x00 or 0xFF after biased addition).
pub fn test86_msb(b: u8) -> (r: bool)
    ensures
        r == spec_test86_msb(b),
{
    let r = (b.wrapping_add(1)) & 0xFE == 0;
    assert(r == (b == 0 || b == 0xFF)) by (bit_vector)
        requires
            r == ((u8_specs::wrapping_add(b, 1)) & 0xFE == 0),
    ;
    r
}

/// Whether `b` is a CALL (`E8`) or JMP (`E9`) opcode.
pub open spec fn is_branch_opcode(b: u8) -> bool {
    b & 0xFE == 0xE8
}

/// The first position in `[pos, limit)` holding a branch opcode, or `limit`.
pub open spec fn next_opcode(d: Seq<u8>, pos: nat, limit: nat) -> nat
    decreases limit - pos,
{
    if pos >= limit {
        limit
    } else if is_branch_opcode(d[pos as int]) {
        pos
    } else {
        next_opcode(d, pos + 1, limit)
    }
}

/// The little-endian 32-bit displacement stored at `p + 1 .. p + 5`.
pub open spec fn displacement(d: Seq<u8>, p: int) -> u32 {
    (d[p + 4] as u32) << 24u32 | (d[p + 3] as u32) << 16u32 | (d[p + 2] as u32) << 8u32 | (d[p
        + 1] as u32)
}

/// Move a displacement by `current` in the filter's direction.
pub open spec fn shift_address(v: u32, current: u32, encoding: bool) -> u32 {
    if encoding {
        u32_specs::wrapping_add(v, current)
    } else {
        u32_specs::wrapping_sub(v, current)
    }
}

/// The converted displacement of the instruction at `p`, given the prefix
/// mask `mask` (non-zero when a recent `E8`/`E9` byte was seen).
pub open spec fn converted_value(d: Seq<u8>, p: int, mask: u32, ip5: u32, encoding: bool) -> u32 {
    let current = u32_specs::wrapping_add(ip5, p as u32);
    let v1 = shift_address(displacement(d, p), current, encoding);
    if mask != 0 {
        let shift = (mask & 6) << 2u32;
        if spec_test86_msb((v1 >> shift) as u8) {
            let adjust = ((0x100u64 << shift) - 1) as u32;
            shift_address(v1 ^ adjust, current, encoding)
        } else {
            v1
        }
    } else {
        v1
    }
}

/// `d` with the displacement of the instruction at `p` replaced by `v`; the
/// top byte keeps only bit 24 of `v`, spread to `0x00` or `0xFF`.
pub open spec fn store_value(d: Seq<u8>, p: int, v: u32) -> Seq<u8> {
    d.update(p + 1, v as u8).update(p + 2, (v >> 8u32) as u8).update(p + 3, (v >> 16u32) as u8).update(
        p + 4,
        u8_specs::wrapping_sub(0u8, ((v >> 24u32) & 1) as u8),
    )
}

/// The filter run from position `pos` with prefix mask `mask`, over the
/// instructions that start before `limit = len - 4`. Gives the converted
/// bytes, the number of bytes fully processed and the mask to carry.
pub open spec fn bcj_run(d: Seq<u8>, pos: nat, mask: u32, ip5: u32, encoding: bool) -> (
    Seq<u8>,
    nat,
    u32,
)
    decreases d.len() - pos,
{
    let limit = (d.len() - 4) as nat;
    if d.len() < 5 || pos > limit {
        (d, pos, mask)
    } else {
        let p = next_opcode(d, pos, limit);
        proof {
            lemma_next_opcode(d, pos, limit);
        }
        let dist = p - pos;
        if p >= limit {
            (d, p, if dist > 2 {
                0
            } else {
                mask >> (dist as u32)
            })
        } else {
            let m1 = if dist > 2 {
                0
            } else {
                mask >> (dist as u32)
            };
            if dist <= 2 && m1 != 0 && (m1 > 4 || m1 == 3 || spec_test86_msb(
                d[p + (m1 >> 1u32) + 1],
            )) {
                bcj_run(d, p + 1, (m1 >> 1u32) | 4, ip5, encoding)
            } else if spec_test86_msb(d[(p + 4) as int]) {
                let v = converted_value(d, p as int, m1, ip5, encoding);
                proof {
                    assert(store_value(d, p as int, v).len() == d.len());
                }
                bcj_run(store_value(d, p as int, v), p + 5, 0, ip5, encoding)
            } else {
                bcj_run(d, p + 1, (m1 >> 1u32) | 4, ip5, encoding)
            }
        }
    }
}

/// The result of the filter on `d` with base address `ip` and carried
/// state `state`: converted bytes, bytes fully processed, new state.
/// Buffers shorter than five bytes are left alone.
pub open spec fn spec_bcj_x86_convert(d: Seq<u8>, ip: u32, state: u32, encoding: bool) -> (
    Seq<u8>,
    nat,
    u32,
) {
    if d.len() < 5 {
        (d, 0, state)
    } else {
        bcj_run(d, 0, state & 7, u32_specs::wrapping_add(ip, 5), encoding)
    }
}

/// Converting keeps the length.
pub proof fn lemma_bcj_run_len(d: Seq<u8>, pos: nat, mask: u32, ip5: u32, encoding: bool)
    requires
        pos <= d.len(),
    ensures
        bcj_run(d, pos, mask, ip5, encoding).0.len() == d.len(),
        bcj_run(d, pos, mask, ip5, encoding).1 <= d.len(),
    decreases d.len() - pos,
{
    let limit = (d.len() - 4) as nat;
    if d.len() < 5 || pos > limit {
    } else {
        let p = next_opcode(d, pos, limit);
        lemma_next_opcode(d, pos, limit);
        let dist = p - pos;
        if p >= limit {
        } else {
            let m1: u32 = if dist > 2 {
                0
            } else {
                mask >> (dist as u32)
            };
            if dist <= 2 && m1 != 0 && (m1 > 4 || m1 == 3 || spec_test86_msb(
                d[p + (m1 >> 1u32) + 1],
            )) {
                lemma_bcj_run_len(d, p + 1, (m1 >> 1u32) | 4, ip5, encoding);
            } else if spec_test86_msb(d[(p + 4) as int]) {
                let v = converted_value(d, p as int, m1, ip5, encoding);
                lemma_bcj_run_len(store_value(d, p as int, v), p + 5, 0, ip5, encoding);
            } else {
                lemma_bcj_run_len(d, p + 1, (m1 >> 1u32) | 4, ip5, encoding);
            }
        }
    }
}

/// `next_opcode` lands in `[pos, limit]` on an opcode, or on `limit`, and
/// skips no opcode.
pub proof fn lemma_next_opcode(d: Seq<u8>, pos: nat, limit: nat)
    requires
        pos <= limit <= d.len(),
    ensures
        pos <= next_opcode(d, pos, limit) <= limit,
        next_opcode(d, pos, limit) < limit ==> is_branch_opcode(d[next_opcode(d, pos, limit) as int]),
        forall|i: int| pos <= i < next_opcode(d, pos, limit) ==> !is_branch_opcode(#[trigger] d[i]),
    decreases limit - pos,
{
    if pos < limit && !is_branch_opcode(d[pos as int]) {
        lemma_next_opcode(d, pos + 1, limit);
    }
}

/// Scan from `pos` for the next branch opcode before `limit`.
fn find_opcode(data: &[u8], pos: usize, limit: usize) -> (r: usize)
    requires
        pos <= limit <= data@.len(),
    ensures
        r == next_opcode(data@, pos as nat, limit as nat),
{
    let mut q = pos;
    while q < limit && (data[q] & 0xFE) != 0xE8
        invariant
            pos <= q <= limit <= data@.len(),
            next_opcode(data@, pos as nat, limit as nat) == next_opcode(data@, q as nat, limit as nat),
        decreases limit - q,
    {
        q = q + 1;
    }
    q
}

/// Apply the x86 BCJ filter in-place.
///
/// * `encoding` — `true` to convert relative → absolute (encode / pre-compress),
///   `false` to convert absolute → relative (decode / post-decompress).
/// * `data`     — mutable buffer; modified in-place.
/// * `ip`       — virtual instruction pointer base (usually 0 for 7z).
/// * `state`    — 3-bit overlap state carried across calls; initialise to 0.
///
/// Returns the number of bytes that were fully processed. Trailing bytes
/// (fewer than 5) are left untouched and should be prepended to the next call.
#[verifier::rlimit(60)]
pub fn bcj_x86_convert(data: &mut [u8], ip: u32, state: &mut u32, encoding: bool) -> (r: usize)
    ensures
        final(data)@ == spec_bcj_x86_convert(old(data)@, ip, *old(state), encoding).0,
        r as nat == spec_bcj_x86_convert(old(data)@, ip, *old(state), encoding).1,
        *final(state) == spec_bcj_x86_convert(old(data)@, ip, *old(state), encoding).2,
{
    let size = data.len();
    let mut pos: usize = 0;
    let st0 = *state;
    let mut mask: u32 = st0 & 7;
    if size < 5 {
        return 0;
    }
    let limit = size - 4;
    let ip5 = ip.wrapping_add(5);
    let ghost d0 = data@;
    assert(d0 == old(data)@);
    assert(mask <= 7) by (bit_vector)
        requires
            mask == st0 & 7,
    ;
    loop
        invariant
            data@.len() == size,
            size >= 5,
            limit == size - 4,
            pos <= size,
            mask <= 7,
            ip5 == u32_specs::wrapping_add(ip, 5),
            spec_bcj_x86_convert(d0, ip, *old(state), encoding) == bcj_run(
                data@,
                pos as nat,
                mask,
                ip5,
                encoding,
            ),
            d0.len() == size,
            d0 == old(data)@,
        decreases size - pos,
    {
        if pos > limit {
            *state = mask;
            return pos;
        }
        let start = pos;
        proof {
            lemma_next_opcode(data@, pos as nat, limit as nat);
        }
        let p = find_opcode(data, pos, limit);
        let distance = p - start;
        if p >= limit {
            let st = if distance > 2 {
                0
            } else {
                mask >> (distance as u32)
            };
            *state = st;
            return p;
        }
        let m1: u32 = if distance > 2 {
            0
        } else {
            mask >> (distance as u32)
        };
        assert(m1 <= 7) by (bit_vector)
            requires
                mask <= 7,
                m1 == 0 || m1 == mask >> (distance as u32),
        ;
        let mut skip = false;
        if distance <= 2 && m1 != 0 {
            assert((m1 >> 1u32) <= 3) by (bit_vector)
                requires
                    m1 <= 7,
            ;
            let test_idx = p + ((m1 >> 1) as usize) + 1;
            if m1 > 4 || m1 == 3 || test86_msb(data[test_idx]) {
                skip = true;
            }
        }
        if skip {
            mask = (m1 >> 1) | 4;
            assert(mask <= 7) by (bit_vector)
                requires
                    m1 <= 7,
                    mask == (m1 >> 1u32) | 4,
            ;
            pos = p + 1;
        } else if test86_msb(data[p + 4]) {
            let value = (data[p + 4] as u32) << 24 | (data[p + 3] as u32) << 16 | (data[p + 2] as u32)
                << 8 | (data[p + 1] as u32);
            let current = ip5.wrapping_add(p as u32);
            let mut v = if encoding {
                value.wrapping_add(current)
            } else {
                value.wrapping_sub(current)
            };
            if m1 != 0 {
                let shift = (m1 & 6) << 2;
                assert(shift <= 24) by (bit_vector)
                    requires
                        m1 <= 7,
                        shift == (m1 & 6) << 2u32,
                ;
                if test86_msb((v >> shift) as u8) {
                    assert((0x100u64 << shift) >= 1) by (bit_vector)
                        requires
                            shift <= 24,
                    ;
                    let adjust_mask = ((0x100u64 << shift) - 1) as u32;
                    v = v ^ adjust_mask;
                    if encoding {
                        v = v.wrapping_add(current);
                    } else {
                        v = v.wrapping_sub(current);
                    }
                }
            }
            let ghost before = data@;
            data[p + 1] = v as u8;
            data[p + 2] = (v >> 8) as u8;
            data[p + 3] = (v >> 16) as u8;
            data[p + 4] = (0u8).wrapping_sub(((v >> 24) & 1) as u8);
            proof {
                assert(v == converted_value(before, p as int, m1, ip5, encoding));
                assert(data@ =~= store_value(before, p as int, v));
            }
            mask = 0;
            pos = p + 5;
        } else {
            mask = (m1 >> 1) | 4;
            assert(mask <= 7) by (bit_vector)
                requires
                    m1 <= 7,
                    mask == (m1 >> 1u32) | 4,
            ;
            pos = p + 1;
        }
    }
}

/// Decode (post-decompress) x86 BCJ filter over a whole buffer.
pub fn bcj_x86_decode(data: &mut [u8])
    ensures
        final(data)@ == spec_bcj_x86_convert(old(data)@, 0, 0, false).0,
{
    let mut state = 0u32;
    bcj_x86_convert(data, 0, &mut state, false);
}

/// Encode (pre-compress) x86 BCJ filter over a whole buffer.
pub fn bcj_x86_encode(data: &mut [u8])
    ensures
        final(data)@ == spec_bcj_x86_convert(old(data)@, 0, 0, true).0,
{
    let mut state = 0u32;
    bcj_x86_convert(data, 0, &mut state, true);
}

/// The model of a [`BcjX86Writer`]: the bytes held back for the next
/// call, the carried filter state and the stream offset of the held bytes.
pub struct BcjWriterView {
    pub tail: Seq<u8>,
    pub state: u32,
    pub input_offset: u64,
}

/// Streaming x86 BCJ encoder: bytes go in by [`write`](BcjX86Writer::write)
/// and the filtered bytes that are final come out; the last few bytes are
/// held back until more input or [`finish`](BcjX86Writer::finish).
pub struct BcjX86Writer {
    tail: Vec<u8>,
    state: u32,
    input_offset: u64,
}

impl View for BcjX86Writer {
    type V = BcjWriterView;

    closed spec fn view(&self) -> BcjWriterView {
        BcjWriterView { tail: self.tail@, state: self.state, input_offset: self.input_offset }
    }
}

/// One filter step of a stream: held bytes and new input are converted
/// together from the held bytes' offset; gives the bytes that are final, the
/// bytes to hold back and the new state and offset.
pub open spec fn stream_step(tail: Seq<u8>, input: Seq<u8>, state: u32, offset: u64, encoding: bool) -> (
    Seq<u8>,
    Seq<u8>,
    u32,
    u64,
) {
    let data = tail + input;
    let r = spec_bcj_x86_convert(data, offset as u32, state, encoding);
    (
        r.0.take(r.1 as int),
        r.0.skip(r.1 as int),
        r.2,
        vstd::wrapping::u64_specs::wrapping_add(offset, r.1 as u64),
    )
}

/// Run the filter over `tail + input`, returning the final bytes and
/// keeping the rest.
fn filter_step(tail: &mut Vec<u8>, input: &[u8], state: &mut u32, offset: &mut u64, encoding: bool) -> (out: Vec<u8>)
    ensures
        ({
            let r = stream_step(old(tail)@, input@, *old(state), *old(offset), encoding);
            &&& out@ == r.0
            &&& final(tail)@ == r.1
            &&& *final(state) == r.2
            &&& *final(offset) == r.3
        }),
{
    let mut data: Vec<u8> = Vec::new();
    data.append(tail);
    let mut k: usize = 0;
    let ghost t0 = data@;
    while k < input.len()
        invariant
            k <= input@.len(),
            data@ == t0 + input@.take(k as int),
        decreases input@.len() - k,
    {
        data.push(input[k]);
        k = k + 1;
        proof {
            assert(input@.take(k as int) =~= input@.take((k - 1) as int).push(input@[k - 1]));
        }
    }
    proof {
        assert(input@.take(input@.len() as int) =~= input@);
    }
    let ghost d0 = data@;
    let processed = bcj_x86_convert(data.as_mut_slice(), *offset as u32, state, encoding);
    proof {
        lemma_bcj_run_len(d0, 0, *old(state) & 7, u32_specs::wrapping_add(*old(offset) as u32, 5), encoding);
    }
    let rest = data.split_off(processed);
    *tail = rest;
    *offset = offset.wrapping_add(processed as u64);
    data
}

impl BcjX86Writer {
    /// A writer with nothing held back and a zero state.
    pub fn new() -> (r: Self)
        ensures
            r@.tail == Seq::<u8>::empty(),
            r@.state == 0,
            r@.input_offset == 0,
    {
        BcjX86Writer { tail: Vec::new(), state: 0, input_offset: 0 }
    }

    /// Filter `buf` after the held-back bytes; gives the bytes that are now final.
    pub fn write(&mut self, buf: &[u8]) -> (out: Vec<u8>)
        ensures
            buf@.len() == 0 ==> out@ == Seq::<u8>::empty() && final(self)@ == old(self)@,
            buf@.len() > 0 ==> ({
                let r = stream_step(old(self)@.tail, buf@, old(self)@.state, old(self)@.input_offset, true);
                &&& out@ == r.0
                &&& final(self)@.tail == r.1
                &&& final(self)@.state == r.2
                &&& final(self)@.input_offset == r.3
            }),
    {
        if buf.len() == 0 {
            return Vec::new();
        }
        filter_step(&mut self.tail, buf, &mut self.state, &mut self.input_offset, true)
    }

    /// The held-back bytes, which pass through unfiltered at the end of the stream.
    pub fn finish(self) -> (out: Vec<u8>)
        ensures
            out@ == self@.tail,
    {
        self.tail
    }
}

/// The model of a [`BcjX86Reader`].
pub struct BcjReaderView {
    pub source: Seq<u8>,
    pub source_pos: nat,
    pub tail: Seq<u8>,
    pub pending: Seq<u8>,
    pub pending_pos: nat,
    pub state: u32,
    pub input_offset: u64,
    pub eof: bool,
}

/// Bytes taken from the source per refill.
pub const BCJ_READ_CHUNK: usize = 8192;

/// Refill while nothing is pending and the source is not exhausted: read
/// the next chunk (at most [`BCJ_READ_CHUNK`] bytes), filter it after the
/// held-back bytes; at the end of the source the held-back bytes become
/// pending unfiltered.
pub open spec fn spec_fill_loop(v: BcjReaderView) -> BcjReaderView
    decreases v.source.len() - v.source_pos,
{
    if v.pending.len() > 0 || v.eof || v.source_pos > v.source.len() {
        v
    } else {
        let left = (v.source.len() - v.source_pos) as nat;
        let n = if left < BCJ_READ_CHUNK {
            left
        } else {
            BCJ_READ_CHUNK as nat
        };
        if n == 0 {
            BcjReaderView { eof: true, pending: v.tail, tail: Seq::empty(), ..v }
        } else {
            let chunk = v.source.subrange(v.source_pos as int, (v.source_pos + n) as int);
            let r = stream_step(v.tail, chunk, v.state, v.input_offset, false);
            spec_fill_loop(
                BcjReaderView {
                    source_pos: v.source_pos + n,
                    pending: r.0,
                    tail: r.1,
                    state: r.2,
                    input_offset: r.3,
                    ..v
                },
            )
        }
    }
}

/// A refill: the pending bytes are dropped, then [`spec_fill_loop`].
pub open spec fn spec_fill(v: BcjReaderView) -> BcjReaderView {
    spec_fill_loop(BcjReaderView { pending: Seq::empty(), pending_pos: 0, ..v })
}

/// Streaming x86 BCJ decoder over a source buffer.
pub struct BcjX86Reader {
    inner: Vec<u8>,
    source_pos: usize,
    tail: Vec<u8>,
    pending: Vec<u8>,
    pending_pos: usize,
    state: u32,
    input_offset: u64,
    eof: bool,
}

impl View for BcjX86Reader {
    type V = BcjReaderView;

    closed spec fn view(&self) -> BcjReaderView {
        BcjReaderView {
            source: self.inner@,
            source_pos: self.source_pos as nat,
            tail: self.tail@,
            pending: self.pending@,
            pending_pos: self.pending_pos as nat,
            state: self.state,
            input_offset: self.input_offset,
            eof: self.eof,
        }
    }
}

/// Reader consistency: positions within their buffers.
pub open spec fn reader_wf(v: BcjReaderView) -> bool {
    v.source_pos <= v.source.len() && v.pending_pos <= v.pending.len()
}

impl BcjX86Reader {
    /// A reader over `inner`, with nothing read yet.
    pub fn new(inner: Vec<u8>) -> (r: Self)
        ensures
            r@ == (BcjReaderView {
                source: inner@,
                source_pos: 0,
                tail: Seq::empty(),
                pending: Seq::empty(),
                pending_pos: 0,
                state: 0,
                input_offset: 0,
                eof: false,
            }),
    {
        BcjX86Reader {
            inner,
            source_pos: 0,
            tail: Vec::new(),
            pending: Vec::new(),
            pending_pos: 0,
            state: 0,
            input_offset: 0,
            eof: false,
        }
    }

    /// Refill the pending bytes (see [`spec_fill`]).
    fn fill_pending(&mut self)
        requires
            reader_wf(old(self)@),
        ensures
            final(self)@ == spec_fill(old(self)@),
            reader_wf(final(self)@),
    {
        self.pending = Vec::new();
        self.pending_pos = 0;
        proof {
            assert(self@.pending =~= Seq::<u8>::empty());
            assert(self@ == BcjReaderView { pending: Seq::empty(), pending_pos: 0, ..old(self)@ });
        }
        while self.pending.len() == 0 && !self.eof
            invariant
                self.source_pos <= self.inner@.len(),
                self.pending_pos == 0,
                spec_fill(old(self)@) == spec_fill_loop(self@),
            decreases self.inner@.len() - self.source_pos, (if self.eof {
                0int
            } else {
                1int
            }),
        {
            let left = self.inner.len() - self.source_pos;
            let n = if left < BCJ_READ_CHUNK {
                left
            } else {
                BCJ_READ_CHUNK
            };
            if n == 0 {
                let ghost before = self@;
                self.eof = true;
                let mut held: Vec<u8> = Vec::new();
                core::mem::swap(&mut held, &mut self.tail);
                self.pending = held;
                proof {
                    assert(self@.tail =~= Seq::<u8>::empty());
                    assert(self@ == spec_fill_loop(before));
                }
            } else {
                let chunk = vstd::slice::slice_subrange(
                    self.inner.as_slice(),
                    self.source_pos,
                    self.source_pos + n,
                );
                let out = filter_step(
                    &mut self.tail,
                    chunk,
                    &mut self.state,
                    &mut self.input_offset,
                    false,
                );
                self.pending = out;
                self.source_pos = self.source_pos + n;
            }
        }
    }

    /// Copy the next filtered bytes into `out`; gives how many (zero at the end).
    pub fn read(&mut self, out: &mut [u8]) -> (n: usize)
        requires
            reader_wf(old(self)@),
        ensures
            reader_wf(final(self)@),
            old(out)@.len() == 0 ==> n == 0 && final(self)@ == old(self)@ && final(out)@ == old(out)@,
            old(out)@.len() > 0 ==> ({
                let v1 = if old(self)@.pending_pos == old(self)@.pending.len() {
                    spec_fill(old(self)@)
                } else {
                    old(self)@
                };
                &&& n == vstd::math::min((v1.pending.len() - v1.pending_pos) as int, old(out)@.len() as int)
                &&& final(self)@ == BcjReaderView { pending_pos: (v1.pending_pos + n) as nat, ..v1 }
                &&& final(out)@.len() == old(out)@.len()
                &&& final(out)@.subrange(0, n as int) == v1.pending.subrange(v1.pending_pos as int, v1.pending_pos + n)
                &&& final(out)@.subrange(n as int, old(out)@.len() as int) == old(out)@.subrange(n as int, old(out)@.len() as int)
            }),
            old(out)@.len() > 0 ==> final(out)@.subrange(0, n as int) + reader_rest(final(self)@) == reader_rest(
                old(self)@,
            ),
            old(out)@.len() > 0 && n == 0 ==> reader_rest(old(self)@) == Seq::<u8>::empty(),
    {
        if out.len() == 0 {
            return 0;
        }
        let ghost v0 = self@;
        if self.pending_pos == self.pending.len() {
            self.fill_pending();
            proof {
                let w = BcjReaderView { pending: Seq::empty(), pending_pos: 0, ..v0 };
                lemma_fill_loop_rest(w);
                assert(v0.pending.skip(v0.pending_pos as int) =~= Seq::<u8>::empty());
                assert(w.pending.skip(0) =~= Seq::<u8>::empty());
                assert(reader_rest(w) =~= reader_rest(v0));
            }
        }
        let ghost v1 = self@;
        proof {
            if v1.pending_pos == v1.pending.len() {
                assert(v1.eof);
                assert(v1.pending.skip(v1.pending_pos as int) =~= Seq::<u8>::empty());
            }
        }
        let avail = self.pending.len() - self.pending_pos;
        let n = if avail < out.len() {
            avail
        } else {
            out.len()
        };
        let ghost o0 = out@;
        let start = self.pending_pos;
        let mut i: usize = 0;
        while i < n
            invariant
                i <= n,
                n <= out@.len(),
                start + n <= self.pending@.len(),
                start + n <= self.pending.len(),
                out@.len() == o0.len(),
                forall|q: int| 0 <= q < i ==> out@[q] == #[trigger] self.pending@[start + q],
                forall|q: int| i <= q < o0.len() ==> out@[q] == #[trigger] o0[q],
            decreases n - i,
        {
            out[i] = self.pending[start + i];
            i = i + 1;
        }
        self.pending_pos = start + n;
        proof {
            assert forall|q: int| 0 <= q < n implies out@.subrange(0, n as int)[q]
                == self.pending@.subrange(start as int, start + n)[q] by {
                assert(out@[q] == self.pending@[start + q]);
            }
            assert(out@.subrange(0, n as int) =~= self.pending@.subrange(start as int, start + n));
            assert(out@.subrange(n as int, o0.len() as int) =~= o0.subrange(n as int, o0.len() as int));
            assert(self.pending@.subrange(start as int, start + n) + self.pending@.skip(start + n) =~= self.pending@.skip(
                start as int,
            ));
            assert(out@.subrange(0, n as int) + reader_rest(self@) =~= reader_rest(v1));
        }
        n
    }
}


// ---------------------------------------------------------------------------
// Decoding undoes encoding.
// ---------------------------------------------------------------------------

/// The four displacement bytes `b1..b4` of a near branch (`b4` is `00` or
/// `FF`), converted for encoding at `cur` and then back for decoding, come
/// back unchanged; when a guard byte at `sh` was not near-like before,
/// the stored byte there is not near-like either.
proof fn lemma_value_roundtrip(b1: u8, b2: u8, b3: u8, b4: u8, cur: u32, sh: u32, masked: bool)
    by (bit_vector)
    requires
        b4 == 0 || b4 == 0xFF,
        sh == 0 || sh == 8 || sh == 16,
        masked ==> !((if sh == 0 { b1 } else if sh == 8 { b2 } else { b3 }) == 0 || (if sh == 0 {
            b1
        } else if sh == 8 {
            b2
        } else {
            b3
        }) == 0xFF),
    ensures
        ({
            let v = (b4 as u32) << 24u32 | (b3 as u32) << 16u32 | (b2 as u32) << 8u32 | (b1 as u32);
            let adj = ((0x100u64 << sh) - 1) as u32;
            let v1 = u32_specs::wrapping_add(v, cur);
            let ve = if masked && (((v1 >> sh) as u8) == 0 || ((v1 >> sh) as u8) == 0xFF) {
                u32_specs::wrapping_add(v1 ^ adj, cur)
            } else {
                v1
            };
            let e1 = ve as u8;
            let e2 = (ve >> 8u32) as u8;
            let e3 = (ve >> 16u32) as u8;
            let e4 = u8_specs::wrapping_sub(0u8, ((ve >> 24u32) & 1) as u8);
            let w = (e4 as u32) << 24u32 | (e3 as u32) << 16u32 | (e2 as u32) << 8u32 | (e1 as u32);
            let w1 = u32_specs::wrapping_sub(w, cur);
            let wd = if masked && (((w1 >> sh) as u8) == 0 || ((w1 >> sh) as u8) == 0xFF) {
                u32_specs::wrapping_sub(w1 ^ adj, cur)
            } else {
                w1
            };
            &&& wd as u8 == b1
            &&& (wd >> 8u32) as u8 == b2
            &&& (wd >> 16u32) as u8 == b3
            &&& u8_specs::wrapping_sub(0u8, ((wd >> 24u32) & 1) as u8) == b4
            &&& (e4 == 0 || e4 == 0xFF)
            &&& (masked && sh == 0 ==> !(e1 == 0 || e1 == 0xFF))
            &&& (masked && sh == 8 ==> !(e2 == 0 || e2 == 0xFF))
            &&& (masked && sh == 16 ==> !(e3 == 0 || e3 == 0xFF))
        }),
{
}


/// Facts about the three-bit prefix mask.
proof fn lemma_mask_bits(m1: u32)
    by (bit_vector)
    requires
        m1 <= 7,
    ensures
        (m1 >> 1u32) <= 3,
        (m1 >> 1u32) | 4u32 <= 7,
        (((m1 >> 1u32) | 4u32) >> 2u32) & 1 == 1,
        !(m1 > 4 || m1 == 3) && m1 != 0 ==> (m1 == 1 || m1 == 2 || m1 == 4),
        m1 == 0 ==> ((m1 & 6) << 2u32) == 0,
        m1 == 1 ==> (m1 >> 1u32) == 0 && ((m1 & 6) << 2u32) == 0,
        m1 == 2 ==> (m1 >> 1u32) == 1 && ((m1 & 6) << 2u32) == 8 && (((m1 >> 1u32) | 4u32) >> 0u32) & 1 == 1,
        m1 == 4 ==> (m1 >> 1u32) == 2 && ((m1 & 6) << 2u32) == 16 && (((m1 >> 1u32) | 4u32) >> 1u32) & 1 == 1,
        (m1 >> 0u32) & 1 == 1 && !(m1 > 4 || m1 == 3) ==> m1 == 1,
        (m1 >> 1u32) & 1 == 1 && !(m1 > 4 || m1 == 3) ==> m1 == 2,
        (m1 >> 2u32) & 1 == 1 && !(m1 > 4 || m1 == 3) ==> m1 == 4,
        (m1 >> 1u32) & 1 == 1 ==> (((m1 >> 1u32) | 4u32) >> 0u32) & 1 == 1,
        (m1 >> 2u32) & 1 == 1 ==> (((m1 >> 1u32) | 4u32) >> 1u32) & 1 == 1,
{
}

/// Shifting the mask by the distance to the next opcode keeps a marked bit.
proof fn lemma_mask_shift(mask: u32, dist: u32, j: u32)
    by (bit_vector)
    requires
        mask <= 7,
        dist <= 2,
    ensures
        mask >> dist <= 7,
        j <= 2 && dist <= j && (mask >> j) & 1 == 1 ==> ((mask >> dist) >> ((j - dist) as u32)) & 1 == 1,
{
}

/// `next_opcode` only looks at the bytes up to the opcode it finds.
proof fn lemma_next_opcode_same(d1: Seq<u8>, d2: Seq<u8>, pos: nat, limit: nat)
    requires
        pos <= limit <= d1.len(),
        limit <= d2.len(),
        forall|i: int| pos <= i <= next_opcode(d2, pos, limit) && i < limit ==> d1[i] == d2[i],
    ensures
        next_opcode(d1, pos, limit) == next_opcode(d2, pos, limit),
    decreases limit - pos,
{
    lemma_next_opcode(d2, pos, limit);
    if pos < limit {
        assert(d1[pos as int] == d2[pos as int]);
        if !is_branch_opcode(d2[pos as int]) {
            lemma_next_opcode_same(d1, d2, pos + 1, limit);
        }
    }
}

/// The filter changes no byte before `pos`, nor any byte up to the first
/// branch opcode from `pos` on.
proof fn lemma_run_prefix(d: Seq<u8>, pos: nat, mask: u32, ip5: u32, encoding: bool)
    requires
        pos <= d.len(),
    ensures
        forall|i: int| 0 <= i < pos ==> #[trigger] bcj_run(d, pos, mask, ip5, encoding).0[i] == d[i],
        d.len() >= 5 && pos <= d.len() - 4 ==> forall|i: int|
            pos <= i <= next_opcode(d, pos, (d.len() - 4) as nat) && i < d.len() ==> #[trigger] bcj_run(
                d,
                pos,
                mask,
                ip5,
                encoding,
            ).0[i] == d[i],
    decreases d.len() - pos,
{
    let limit = (d.len() - 4) as nat;
    if d.len() < 5 || pos > limit {
    } else {
        let p = next_opcode(d, pos, limit);
        lemma_next_opcode(d, pos, limit);
        let dist = p - pos;
        if p >= limit {
        } else {
            let m1: u32 = if dist > 2 {
                0
            } else {
                mask >> (dist as u32)
            };
            if dist <= 2 && m1 != 0 && (m1 > 4 || m1 == 3 || spec_test86_msb(d[p + (m1 >> 1u32) + 1])) {
                lemma_run_prefix(d, p + 1, (m1 >> 1u32) | 4, ip5, encoding);
                assert(bcj_run(d, pos, mask, ip5, encoding) == bcj_run(d, p + 1, (m1 >> 1u32) | 4, ip5, encoding));
            } else if spec_test86_msb(d[(p + 4) as int]) {
                let v = converted_value(d, p as int, m1, ip5, encoding);
                let d2 = store_value(d, p as int, v);
                lemma_run_prefix(d2, p + 5, 0, ip5, encoding);
                assert(bcj_run(d, pos, mask, ip5, encoding) == bcj_run(d2, p + 5, 0, ip5, encoding));
                assert forall|i: int| 0 <= i <= p implies d2[i] == d[i] by {}
            } else {
                lemma_run_prefix(d, p + 1, (m1 >> 1u32) | 4, ip5, encoding);
                assert(bcj_run(d, pos, mask, ip5, encoding) == bcj_run(d, p + 1, (m1 >> 1u32) | 4, ip5, encoding));
            }
        }
    }
}

/// The filter from `pos` on reads and writes only the bytes from `pos` on:
/// two buffers that agree there give the same result there.
proof fn lemma_run_frame(d1: Seq<u8>, d2: Seq<u8>, pos: nat, mask: u32, ip5: u32, encoding: bool)
    requires
        mask <= 7,
        d1.len() == d2.len(),
        pos <= d1.len(),
        forall|i: int| pos <= i < d1.len() ==> d1[i] == d2[i],
    ensures
        bcj_run(d1, pos, mask, ip5, encoding).1 == bcj_run(d2, pos, mask, ip5, encoding).1,
        bcj_run(d1, pos, mask, ip5, encoding).2 == bcj_run(d2, pos, mask, ip5, encoding).2,
        forall|i: int|
            0 <= i < d1.len() ==> #[trigger] bcj_run(d1, pos, mask, ip5, encoding).0[i] == (if i < pos {
                d1[i]
            } else {
                bcj_run(d2, pos, mask, ip5, encoding).0[i]
            }),
    decreases d1.len() - pos,
{
    lemma_bcj_run_len(d1, pos, mask, ip5, encoding);
    lemma_bcj_run_len(d2, pos, mask, ip5, encoding);
    lemma_run_prefix(d1, pos, mask, ip5, encoding);
    let limit = (d1.len() - 4) as nat;
    if d1.len() < 5 || pos > limit {
    } else {
        lemma_next_opcode(d2, pos, limit);
        lemma_next_opcode_same(d1, d2, pos, limit);
        let p = next_opcode(d1, pos, limit);
        let dist = p - pos;
        if p >= limit {
        } else {
            let m1: u32 = if dist > 2 {
                0
            } else {
                mask >> (dist as u32)
            };
            if dist <= 2 {
                lemma_mask_shift(mask, dist as u32, 0);
            }
            lemma_mask_bits(m1);
            assert(d1[(p + 4) as int] == d2[(p + 4) as int]);
            assert(d1[p + (m1 >> 1u32) + 1] == d2[p + (m1 >> 1u32) + 1]);
            if dist <= 2 && m1 != 0 && (m1 > 4 || m1 == 3 || spec_test86_msb(d1[p + (m1 >> 1u32) + 1])) {
                lemma_run_frame(d1, d2, p + 1, (m1 >> 1u32) | 4, ip5, encoding);
                lemma_run_prefix(d2, p + 1, (m1 >> 1u32) | 4, ip5, encoding);
            } else if spec_test86_msb(d1[(p + 4) as int]) {
                let v1 = converted_value(d1, p as int, m1, ip5, encoding);
                let v2 = converted_value(d2, p as int, m1, ip5, encoding);
                assert(displacement(d1, p as int) == displacement(d2, p as int));
                assert(v1 == v2);
                let s1 = store_value(d1, p as int, v1);
                let s2 = store_value(d2, p as int, v2);
                lemma_run_frame(s1, s2, p + 5, 0, ip5, encoding);
                lemma_run_prefix(s2, p + 5, 0, ip5, encoding);
                lemma_run_prefix(s1, p + 5, 0, ip5, encoding);
            } else {
                lemma_run_frame(d1, d2, p + 1, (m1 >> 1u32) | 4, ip5, encoding);
                lemma_run_prefix(d2, p + 1, (m1 >> 1u32) | 4, ip5, encoding);
            }
        }
    }
}


/// Encoding keeps whether a guarded byte is near-like: the last byte of the
/// displacement of an opcode that was passed over (bit `j` of `mask`, the
/// byte at `pos + 1 + j`) may change only by a conversion that keeps it
/// apart from `00` and `FF`.
proof fn lemma_guard(d: Seq<u8>, pos: nat, mask: u32, ip5: u32, j: u32)
    requires
        pos <= d.len(),
        mask <= 7,
        j <= 2,
        (mask >> j) & 1 == 1,
        pos + 1 + j < d.len(),
    ensures
        spec_test86_msb(bcj_run(d, pos, mask, ip5, true).0[pos + 1 + j]) == spec_test86_msb(d[pos + 1 + j]),
    decreases d.len() - pos,
{
    let g = pos + 1 + j;
    lemma_run_prefix(d, pos, mask, ip5, true);
    let limit = (d.len() - 4) as nat;
    if d.len() < 5 || pos > limit {
    } else {
        let p = next_opcode(d, pos, limit);
        lemma_next_opcode(d, pos, limit);
        let dist = p - pos;
        if p >= limit {
        } else if g <= p {
        } else {
            let m1: u32 = mask >> (dist as u32);
            lemma_mask_shift(mask, dist as u32, j);
            let jp = (j - dist) as u32;
            assert((m1 >> jp) & 1 == 1);
            lemma_mask_bits(m1);
            let m2 = (m1 >> 1u32) | 4;
            if m1 != 0 && (m1 > 4 || m1 == 3 || spec_test86_msb(d[p + (m1 >> 1u32) + 1])) {
                assert(bcj_run(d, pos, mask, ip5, true) == bcj_run(d, p + 1, m2, ip5, true));
                if jp == 0 {
                    lemma_run_prefix(d, p + 1, m2, ip5, true);
                    lemma_next_opcode(d, p + 1, limit);
                } else {
                    lemma_guard(d, p + 1, m2, ip5, (jp - 1) as u32);
                }
            } else if spec_test86_msb(d[(p + 4) as int]) {
                assert(m1 == 1 || m1 == 2 || m1 == 4);
                let sh = (m1 & 6) << 2u32;
                let cur = u32_specs::wrapping_add(ip5, p as u32);
                lemma_value_roundtrip(d[p + 1int], d[p + 2int], d[p + 3int], d[p + 4int], cur, sh, true);
                let v = converted_value(d, p as int, m1, ip5, true);
                let d2 = store_value(d, p as int, v);
                assert(bcj_run(d, pos, mask, ip5, true) == bcj_run(d2, p + 5, 0, ip5, true));
                lemma_run_prefix(d2, p + 5, 0, ip5, true);
            } else {
                assert(bcj_run(d, pos, mask, ip5, true) == bcj_run(d, p + 1, m2, ip5, true));
                if jp == 0 {
                    lemma_run_prefix(d, p + 1, m2, ip5, true);
                    lemma_next_opcode(d, p + 1, limit);
                } else {
                    lemma_guard(d, p + 1, m2, ip5, (jp - 1) as u32);
                }
            }
        }
    }
}


/// Decoding from `pos` with the same mask undoes encoding from `pos`.
proof fn lemma_run_roundtrip(x: Seq<u8>, pos: nat, mask: u32, ip5: u32)
    requires
        pos <= x.len(),
        mask <= 7,
    ensures
        bcj_run(bcj_run(x, pos, mask, ip5, true).0, pos, mask, ip5, false).0 == x,
    decreases x.len() - pos,
{
    let e = bcj_run(x, pos, mask, ip5, true).0;
    lemma_bcj_run_len(x, pos, mask, ip5, true);
    lemma_run_prefix(x, pos, mask, ip5, true);
    let limit = (x.len() - 4) as nat;
    if x.len() < 5 || pos > limit {
    } else {
        let p = next_opcode(x, pos, limit);
        lemma_next_opcode(x, pos, limit);
        lemma_next_opcode_same(e, x, pos, limit);
        let dist = p - pos;
        if p >= limit {
        } else {
            let m1: u32 = if dist > 2 {
                0
            } else {
                mask >> (dist as u32)
            };
            if dist <= 2 {
                lemma_mask_shift(mask, dist as u32, 0);
            }
            lemma_mask_bits(m1);
            let m2 = (m1 >> 1u32) | 4;
            let t = p + (m1 >> 1u32) + 1;
            let skip_x = dist <= 2 && m1 != 0 && (m1 > 4 || m1 == 3 || spec_test86_msb(x[t]));
            if skip_x || !spec_test86_msb(x[(p + 4) as int]) {
                // The opcode at `p` is passed over by both runs.
                assert(e == bcj_run(x, p + 1, m2, ip5, true).0);
                lemma_run_prefix(x, p + 1, m2, ip5, true);
                lemma_next_opcode(x, p + 1, limit);
                if m1 == 1 || m1 == 2 || m1 == 4 {
                    if m1 == 1 {
                        assert(e[t] == x[t]);
                    } else if m1 == 2 {
                        lemma_guard(x, p + 1, m2, ip5, 0);
                    } else {
                        lemma_guard(x, p + 1, m2, ip5, 1);
                    }
                }
                if !skip_x {
                    lemma_guard(x, p + 1, m2, ip5, 2);
                }
                assert(bcj_run(e, pos, mask, ip5, false) == bcj_run(e, p + 1, m2, ip5, false));
                lemma_run_roundtrip(x, p + 1, m2, ip5);
            } else {
                // The opcode at `p` is converted by both runs.
                let sh = (m1 & 6) << 2u32;
                let cur = u32_specs::wrapping_add(ip5, p as u32);
                lemma_value_roundtrip(x[p + 1int], x[p + 2int], x[p + 3int], x[p + 4int], cur, sh, m1 != 0);
                let v = converted_value(x, p as int, m1, ip5, true);
                let x2 = store_value(x, p as int, v);
                assert(e == bcj_run(x2, p + 5, 0, ip5, true).0);
                lemma_bcj_run_len(x2, p + 5, 0, ip5, true);
                lemma_run_prefix(x2, p + 5, 0, ip5, true);
                assert(e[p + 1int] == x2[p + 1int] && e[p + 2int] == x2[p + 2int] && e[p + 3int] == x2[p + 3int]
                    && e[p + 4int] == x2[p + 4int]);
                assert(displacement(e, p as int) == displacement(x2, p as int));
                let w = converted_value(e, p as int, m1, ip5, false);
                let e2 = store_value(e, p as int, w);
                assert(bcj_run(e, pos, mask, ip5, false) == bcj_run(e2, p + 5, 0, ip5, false));
                lemma_run_roundtrip(x2, p + 5, 0, ip5);
                lemma_run_frame(e2, e, p + 5, 0, ip5, false);
                lemma_bcj_run_len(e2, p + 5, 0, ip5, false);
                let r = bcj_run(e2, p + 5, 0, ip5, false).0;
                assert(bcj_run(e, p + 5, 0, ip5, false).0 == x2);
                assert(e2[p + 1int] == x[p + 1int] && e2[p + 2int] == x[p + 2int] && e2[p + 3int] == x[p + 3int]
                    && e2[p + 4int] == x[p + 4int]);
                assert forall|i: int| 0 <= i < x.len() implies r[i] == x[i] by {
                    if i < p + 5 {
                        assert(r[i] == e2[i]);
                        if i <= p {
                            assert(e2[i] == e[i]);
                            assert(e[i] == x2[i]);
                            assert(x2[i] == x[i]);
                        }
                    } else {
                        assert(r[i] == x2[i]);
                        assert(x2[i] == x[i]);
                    }
                }
                assert(r =~= x);
            }
        }
    }
}

/// Decoding undoes encoding: the x86 BCJ decoder applied to the encoder's
/// output over a whole buffer gives back the buffer.
pub proof fn lemma_bcj_decode_encode(x: Seq<u8>)
    ensures
        spec_bcj_x86_convert(spec_bcj_x86_convert(x, 0, 0, true).0, 0, 0, false).0 == x,
{
    if x.len() >= 5 {
        assert((0u32 & 7u32) == 0) by (bit_vector);
        lemma_bcj_run_len(x, 0, 0, u32_specs::wrapping_add(0, 5), true);
        lemma_run_roundtrip(x, 0, 0, u32_specs::wrapping_add(0, 5));
    }
}


// ---------------------------------------------------------------------------
// Streaming gives what one call over the whole input gives.
// ---------------------------------------------------------------------------

/// The mask after passing `n` bytes without a branch opcode.
pub open spec fn shifted(mask: u32, n: nat) -> u32 {
    if n > 2 {
        0
    } else {
        mask >> (n as u32)
    }
}

proof fn lemma_shifted(mask: u32, a: u32, b: u32)
    by (bit_vector)
    requires
        mask <= 7,
        a <= 2,
        b <= 2,
    ensures
        mask >> 0u32 == mask,
        (mask >> a) <= 7,
        a + b <= 2 ==> (mask >> a) >> b == mask >> ((a + b) as u32),
        a + b > 2 ==> (mask >> a) >> b == 0,
        0u32 >> a == 0,
{
}

/// Shifting by `a`, then by `b`, is shifting by `a + b`.
proof fn lemma_shifted_twice(mask: u32, a: nat, b: nat)
    requires
        mask <= 7,
    ensures
        shifted(shifted(mask, a), b) == shifted(mask, a + b),
        shifted(mask, a) <= 7,
{
    if a <= 2 && b <= 2 {
        lemma_shifted(mask, a as u32, b as u32);
    } else if a <= 2 {
        lemma_shifted(mask, a as u32, 0);
    } else if b <= 2 {
        lemma_shifted(mask, 0, b as u32);
        lemma_shifted(0, b as u32, 0);
    }
}

/// The mask the filter carries stays within three bits.
proof fn lemma_run_mask(d: Seq<u8>, pos: nat, mask: u32, ip5: u32, encoding: bool)
    requires
        pos <= d.len(),
        mask <= 7,
    ensures
        bcj_run(d, pos, mask, ip5, encoding).2 <= 7,
        d.len() >= 5 ==> bcj_run(d, pos, mask, ip5, encoding).1 + 4 >= d.len(),
        d.len() >= 5 ==> bcj_run(d, pos, mask, ip5, encoding).1 >= pos,
    decreases d.len() - pos,
{
    let limit = (d.len() - 4) as nat;
    if d.len() < 5 || pos > limit {
    } else {
        let p = next_opcode(d, pos, limit);
        lemma_next_opcode(d, pos, limit);
        let dist = p - pos;
        lemma_shifted_twice(mask, dist as nat, 0);
        let m1: u32 = if dist > 2 {
            0
        } else {
            mask >> (dist as u32)
        };
        lemma_mask_bits(m1);
        if p >= limit {
        } else if dist <= 2 && m1 != 0 && (m1 > 4 || m1 == 3 || spec_test86_msb(d[p + (m1 >> 1u32) + 1])) {
            lemma_run_mask(d, p + 1, (m1 >> 1u32) | 4, ip5, encoding);
        } else if spec_test86_msb(d[(p + 4) as int]) {
            let v = converted_value(d, p as int, m1, ip5, encoding);
            lemma_run_mask(store_value(d, p as int, v), p + 5, 0, ip5, encoding);
        } else {
            lemma_run_mask(d, p + 1, (m1 >> 1u32) | 4, ip5, encoding);
        }
    }
}

/// Passing bytes that hold no branch opcode only shifts the mask.
proof fn lemma_run_scan(d: Seq<u8>, pos: nat, q: nat, mask: u32, ip5: u32, encoding: bool)
    requires
        d.len() >= 5,
        pos <= q <= d.len() - 4,
        mask <= 7,
        forall|i: int| pos <= i < q ==> !is_branch_opcode(#[trigger] d[i]),
    ensures
        bcj_run(d, pos, mask, ip5, encoding) == bcj_run(d, q, shifted(mask, (q - pos) as nat), ip5, encoding),
{
    let limit = (d.len() - 4) as nat;
    lemma_next_opcode(d, pos, limit);
    lemma_next_opcode(d, q, limit);
    lemma_next_opcode_skip(d, pos, q, limit);
    let p = next_opcode(d, pos, limit);
    lemma_shifted_twice(mask, (q - pos) as nat, (p - q) as nat);
}

/// Bytes without a branch opcode do not change where the next one is.
proof fn lemma_next_opcode_skip(d: Seq<u8>, pos: nat, q: nat, limit: nat)
    requires
        pos <= q <= limit <= d.len(),
        forall|i: int| pos <= i < q ==> !is_branch_opcode(#[trigger] d[i]),
    ensures
        next_opcode(d, pos, limit) == next_opcode(d, q, limit),
    decreases q - pos,
{
    if pos < q {
        lemma_next_opcode_skip(d, pos + 1, q, limit);
    }
}

/// The next opcode found in `d2` before `l2` is found in `d1` too, when the
/// bytes agree up to it and `d1` is searched at least as far.
proof fn lemma_next_opcode_ext(d1: Seq<u8>, d2: Seq<u8>, pos: nat, l1: nat, l2: nat)
    requires
        pos <= l2 <= l1 <= d1.len(),
        l2 <= d2.len(),
        next_opcode(d2, pos, l2) < l2,
        forall|i: int| pos <= i <= next_opcode(d2, pos, l2) ==> d1[i] == d2[i],
    ensures
        next_opcode(d1, pos, l1) == next_opcode(d2, pos, l2),
    decreases l2 - pos,
{
    lemma_next_opcode(d2, pos, l2);
    assert(d1[pos as int] == d2[pos as int]);
    if !is_branch_opcode(d2[pos as int]) {
        lemma_next_opcode_ext(d1, d2, pos + 1, l1, l2);
    }
}

/// Filtering `a + b` goes as filtering `a` until that stops; then it goes
/// on from there over the rest.
proof fn lemma_run_extend(a: Seq<u8>, b: Seq<u8>, pos: nat, mask: u32, ip5: u32, encoding: bool)
    requires
        pos <= a.len(),
        mask <= 7,
    ensures
        bcj_run(a + b, pos, mask, ip5, encoding) == bcj_run(
            bcj_run(a, pos, mask, ip5, encoding).0 + b,
            bcj_run(a, pos, mask, ip5, encoding).1,
            bcj_run(a, pos, mask, ip5, encoding).2,
            ip5,
            encoding,
        ),
    decreases a.len() - pos,
{
    let ab = a + b;
    let la = (a.len() - 4) as nat;
    let lab = (ab.len() - 4) as nat;
    if a.len() < 5 || pos > la {
    } else {
        let p = next_opcode(a, pos, la);
        lemma_next_opcode(a, pos, la);
        let dist = p - pos;
        if p >= la {
            assert forall|i: int| pos <= i < la implies !is_branch_opcode(#[trigger] ab[i]) by {
                assert(ab[i] == a[i]);
            }
            lemma_run_scan(ab, pos, la, mask, ip5, encoding);
        } else {
            lemma_next_opcode_ext(ab, a, pos, lab, la);
            let m1: u32 = if dist > 2 {
                0
            } else {
                mask >> (dist as u32)
            };
            lemma_shifted_twice(mask, dist as nat, 0);
            lemma_mask_bits(m1);
            assert(ab[p + (m1 >> 1u32) + 1] == a[p + (m1 >> 1u32) + 1]);
            assert(ab[(p + 4) as int] == a[(p + 4) as int]);
            if dist <= 2 && m1 != 0 && (m1 > 4 || m1 == 3 || spec_test86_msb(a[p + (m1 >> 1u32) + 1])) {
                lemma_run_extend(a, b, p + 1, (m1 >> 1u32) | 4, ip5, encoding);
            } else if spec_test86_msb(a[(p + 4) as int]) {
                assert(displacement(ab, p as int) == displacement(a, p as int));
                let v = converted_value(a, p as int, m1, ip5, encoding);
                let a2 = store_value(a, p as int, v);
                assert(store_value(ab, p as int, v) =~= a2 + b);
                lemma_run_extend(a2, b, p + 5, 0, ip5, encoding);
            } else {
                lemma_run_extend(a, b, p + 1, (m1 >> 1u32) | 4, ip5, encoding);
            }
        }
    }
}


proof fn lemma_current_shift(ip5: u32, a: u64, b: u64)
    by (bit_vector)
    requires
        a + b <= 0xffff_ffff_ffff_ffff,
    ensures
        u32_specs::wrapping_add(ip5, (a + b) as u32) == u32_specs::wrapping_add(
            u32_specs::wrapping_add(ip5, a as u32),
            b as u32,
        ),
{
}

/// Searching `p + q` from inside `q` finds what searching `q` finds.
proof fn lemma_next_opcode_shift(pre: Seq<u8>, q: Seq<u8>, i: nat, limit: nat)
    requires
        i <= limit <= q.len(),
    ensures
        next_opcode(pre + q, pre.len() + i, pre.len() + limit) == pre.len() + next_opcode(q, i, limit),
    decreases limit - i,
{
    if i < limit {
        assert((pre + q)[(pre.len() + i) as int] == q[i as int]);
        lemma_next_opcode_shift(pre, q, i + 1, limit);
    }
}

/// Filtering the part `q` of `pre + q` is filtering `q` alone with the base
/// address moved by the length of `pre`.
proof fn lemma_run_shift(pre: Seq<u8>, q: Seq<u8>, i: nat, mask: u32, ip5: u32, encoding: bool)
    requires
        i <= q.len(),
        mask <= 7,
        pre.len() + q.len() <= u64::MAX,
    ensures
        ({
            let r = bcj_run(q, i, mask, u32_specs::wrapping_add(ip5, pre.len() as u32), encoding);
            let s = bcj_run(pre + q, pre.len() + i, mask, ip5, encoding);
            &&& s.0 == pre + r.0
            &&& s.1 == pre.len() + r.1
            &&& s.2 == r.2
        }),
    decreases q.len() - i,
{
    let ipq = u32_specs::wrapping_add(ip5, pre.len() as u32);
    let d = pre + q;
    let n = pre.len();
    lemma_shifted(mask, 0, 0);
    if q.len() < 5 {
        if d.len() >= 5 && n + i <= (d.len() - 4) as nat {
            lemma_next_opcode(d, n + i, (d.len() - 4) as nat);
        }
    } else {
        let lq = (q.len() - 4) as nat;
        if i > lq {
        } else {
            lemma_next_opcode(q, i, lq);
            lemma_next_opcode_shift(pre, q, i, lq);
            let p = next_opcode(q, i, lq);
            let dist = p - i;
            if p >= lq {
            } else {
                let m1: u32 = if dist > 2 {
                    0
                } else {
                    mask >> (dist as u32)
                };
                lemma_shifted_twice(mask, dist as nat, 0);
                lemma_mask_bits(m1);
                assert(d[n + p + (m1 >> 1u32) + 1] == q[p + (m1 >> 1u32) + 1]);
                assert(d[(n + p + 4) as int] == q[(p + 4) as int]);
                if dist <= 2 && m1 != 0 && (m1 > 4 || m1 == 3 || spec_test86_msb(q[p + (m1 >> 1u32) + 1])) {
                    lemma_run_shift(pre, q, p + 1, (m1 >> 1u32) | 4, ip5, encoding);
                } else if spec_test86_msb(q[(p + 4) as int]) {
                    assert(displacement(d, (n + p) as int) == displacement(q, p as int));
                    lemma_current_shift(ip5, n as u64, p as u64);
                    let v = converted_value(q, p as int, m1, ipq, encoding);
                    assert(converted_value(d, (n + p) as int, m1, ip5, encoding) == v);
                    let q2 = store_value(q, p as int, v);
                    assert(store_value(d, (n + p) as int, v) =~= pre + q2);
                    lemma_run_shift(pre, q2, p + 5, 0, ip5, encoding);
                } else {
                    lemma_run_shift(pre, q, p + 1, (m1 >> 1u32) | 4, ip5, encoding);
                }
            }
        }
    }
}


proof fn lemma_trunc_add(a: u64, b: u64, ip: u32)
    by (bit_vector)
    requires
        a + b <= 0xffff_ffff_ffff_ffff,
    ensures
        ((a + b) as u32) == u32_specs::wrapping_add(a as u32, b as u32),
        u32_specs::wrapping_add(u32_specs::wrapping_add(ip, b as u32), 5) == u32_specs::wrapping_add(
            u32_specs::wrapping_add(ip, 5),
            b as u32,
        ),
        u32_specs::wrapping_add(ip, 0) == ip,
{
}

proof fn lemma_low_bits(st: u32)
    by (bit_vector)
    requires
        st <= 7,
    ensures
        st & 7 == st,
{
}

/// One call over `a + b` gives what a call over `a` gives for the bytes it
/// finishes, then a call over the bytes it leaves and `b`, from where the
/// first one stopped.
proof fn lemma_convert_split(a: Seq<u8>, b: Seq<u8>, ip: u32, st: u32, encoding: bool)
    requires
        st <= 7,
        a.len() + b.len() <= u64::MAX,
    ensures
        ({
            let r = spec_bcj_x86_convert(a, ip, st, encoding);
            let k = r.1;
            let rest = spec_bcj_x86_convert(
                r.0.skip(k as int) + b,
                u32_specs::wrapping_add(ip, k as u32),
                r.2,
                encoding,
            );
            let whole = spec_bcj_x86_convert(a + b, ip, st, encoding);
            &&& whole.0 == r.0.take(k as int) + rest.0
            &&& whole.1 == k + rest.1
            &&& whole.2 == rest.2
            &&& r.2 <= 7
            &&& r.0.len() == a.len()
            &&& k <= a.len()
            &&& a.len() - k <= 4
        }),
{
    lemma_low_bits(st);
    lemma_trunc_add(0, 0, ip);
    if a.len() < 5 {
        assert(a.skip(0) =~= a);
        assert(a.take(0) + spec_bcj_x86_convert(a + b, ip, st, encoding).0 =~= spec_bcj_x86_convert(
            a + b,
            ip,
            st,
            encoding,
        ).0);
    } else {
        let ip5 = u32_specs::wrapping_add(ip, 5);
        let r = bcj_run(a, 0, st, ip5, encoding);
        lemma_bcj_run_len(a, 0, st, ip5, encoding);
        lemma_run_mask(a, 0, st, ip5, encoding);
        lemma_run_extend(a, b, 0, st, ip5, encoding);
        let k = r.1;
        let pre = r.0.take(k as int);
        let q = r.0.skip(k as int) + b;
        assert(pre + q =~= r.0 + b);
        lemma_run_shift(pre, q, 0, r.2, ip5, encoding);
        lemma_low_bits(r.2);
        lemma_trunc_add(0, k as u64, ip);
        lemma_shifted(r.2, 0, 0);
    }
}

/// The bytes of `chunks`, one after another.
pub open spec fn flatten(chunks: Seq<Seq<u8>>) -> Seq<u8>
    decreases chunks.len(),
{
    if chunks.len() == 0 {
        Seq::empty()
    } else {
        chunks[0] + flatten(chunks.drop_first())
    }
}

/// What a stream gives out when `chunks` go in, one [`stream_step`] each,
/// after the held-back bytes `tail`; at the end the bytes still held back
/// come out as they are.
pub open spec fn stream_out(chunks: Seq<Seq<u8>>, tail: Seq<u8>, state: u32, offset: u64, encoding: bool) -> Seq<u8>
    decreases chunks.len(),
{
    if chunks.len() == 0 {
        tail
    } else {
        let r = stream_step(tail, chunks[0], state, offset, encoding);
        r.0 + stream_out(chunks.drop_first(), r.1, r.2, r.3, encoding)
    }
}

proof fn lemma_stream_fold(chunks: Seq<Seq<u8>>, tail: Seq<u8>, state: u32, offset: u64, encoding: bool)
    requires
        state <= 7,
        tail.len() <= 4,
        offset + tail.len() + flatten(chunks).len() <= u64::MAX,
    ensures
        stream_out(chunks, tail, state, offset, encoding) == spec_bcj_x86_convert(
            tail + flatten(chunks),
            offset as u32,
            state,
            encoding,
        ).0,
    decreases chunks.len(),
{
    if chunks.len() == 0 {
        assert(tail + flatten(chunks) =~= tail);
    } else {
        let a = tail + chunks[0];
        let b = flatten(chunks.drop_first());
        assert(tail + flatten(chunks) =~= a + b);
        lemma_convert_split(a, b, offset as u32, state, encoding);
        let r = spec_bcj_x86_convert(a, offset as u32, state, encoding);
        let k = r.1;
        lemma_trunc_add(offset, k as u64, 0);
        lemma_stream_fold(chunks.drop_first(), r.0.skip(k as int), r.2, (offset + k) as u64, encoding);
    }
}

/// Streaming gives what one call over the whole input gives: the bytes a
/// stream puts out for `chunks` given in turn, with the held-back bytes at
/// the end, are the whole input filtered at once. This holds for the
/// encoder ([`BcjX86Writer`]: each `write` is one [`stream_step`], `finish`
/// gives the held-back bytes) and for the decoder alike.
pub proof fn lemma_stream_matches_batch(chunks: Seq<Seq<u8>>, encoding: bool)
    requires
        flatten(chunks).len() <= u64::MAX,
    ensures
        stream_out(chunks, Seq::empty(), 0, 0, encoding) == spec_bcj_x86_convert(flatten(chunks), 0, 0, encoding).0,
{
    assert(Seq::<u8>::empty() + flatten(chunks) =~= flatten(chunks));
    lemma_stream_fold(chunks, Seq::empty(), 0, 0, encoding);
}


/// The chunks a [`BcjX86Reader`] takes from `src`, from position `from`:
/// [`BCJ_READ_CHUNK`] bytes each, the last one shorter.
pub open spec fn source_chunks(src: Seq<u8>, from: nat) -> Seq<Seq<u8>>
    decreases src.len() - from,
{
    if from >= src.len() {
        Seq::empty()
    } else {
        let left = (src.len() - from) as nat;
        let n = if left < BCJ_READ_CHUNK {
            left
        } else {
            BCJ_READ_CHUNK as nat
        };
        seq![src.subrange(from as int, (from + n) as int)] + source_chunks(src, from + n)
    }
}

proof fn lemma_source_chunks(src: Seq<u8>, from: nat)
    requires
        from <= src.len(),
    ensures
        flatten(source_chunks(src, from)) == src.skip(from as int),
    decreases src.len() - from,
{
    if from < src.len() {
        let left = (src.len() - from) as nat;
        let n = if left < BCJ_READ_CHUNK {
            left
        } else {
            BCJ_READ_CHUNK as nat
        };
        lemma_source_chunks(src, from + n);
        let cs = source_chunks(src, from);
        assert(cs.drop_first() =~= source_chunks(src, from + n));
        assert(src.skip(from as int) =~= src.subrange(from as int, (from + n) as int) + src.skip((from + n) as int));
    } else {
        assert(src.skip(from as int) =~= Seq::<u8>::empty());
    }
}

/// The bytes a reader has still to give: what is pending, then what the
/// rest of its source gives after the held-back bytes.
pub open spec fn reader_rest(v: BcjReaderView) -> Seq<u8> {
    v.pending.skip(v.pending_pos as int) + if v.eof {
        Seq::empty()
    } else {
        stream_out(source_chunks(v.source, v.source_pos), v.tail, v.state, v.input_offset, false)
    }
}

/// A refill keeps what is still to be given, and leaves something pending
/// unless the source is done.
proof fn lemma_fill_loop_rest(w: BcjReaderView)
    requires
        w.source_pos <= w.source.len(),
        w.pending_pos == 0,
    ensures
        reader_rest(spec_fill_loop(w)) == reader_rest(w),
        spec_fill_loop(w).pending_pos == 0,
        spec_fill_loop(w).source_pos <= spec_fill_loop(w).source.len(),
        spec_fill_loop(w).source == w.source,
        spec_fill_loop(w).pending.len() > 0 || spec_fill_loop(w).eof,
        w.pending.len() > 0 || w.eof ==> spec_fill_loop(w) == w,
    decreases w.source.len() - w.source_pos,
{
    if w.pending.len() > 0 || w.eof {
    } else {
        let left = (w.source.len() - w.source_pos) as nat;
        let n = if left < BCJ_READ_CHUNK {
            left
        } else {
            BCJ_READ_CHUNK as nat
        };
        if n == 0 {
            let f = spec_fill_loop(w);
            assert(source_chunks(w.source, w.source_pos) =~= Seq::<Seq<u8>>::empty());
            assert(f.pending.skip(0) =~= f.pending);
            assert(w.pending.skip(0) =~= Seq::<u8>::empty());
            assert(reader_rest(f) =~= reader_rest(w));
        } else {
            let chunk = w.source.subrange(w.source_pos as int, (w.source_pos + n) as int);
            let r = stream_step(w.tail, chunk, w.state, w.input_offset, false);
            let w2 = BcjReaderView {
                source_pos: w.source_pos + n,
                pending: r.0,
                tail: r.1,
                state: r.2,
                input_offset: r.3,
                ..w
            };
            lemma_fill_loop_rest(w2);
            let cs = source_chunks(w.source, w.source_pos);
            assert(cs[0] == chunk);
            assert(cs.drop_first() =~= source_chunks(w.source, w.source_pos + n));
            assert(w2.pending.skip(0) =~= r.0);
            assert(w.pending.skip(0) =~= Seq::<u8>::empty());
            assert(reader_rest(w2) =~= reader_rest(w));
        }
    }
}

/// A reader over `src` gives, in all, the decoding of `src` at once.
pub proof fn lemma_reader_matches_batch(src: Seq<u8>)
    requires
        src.len() <= u64::MAX,
    ensures
        reader_rest(
            BcjReaderView {
                source: src,
                source_pos: 0,
                tail: Seq::empty(),
                pending: Seq::empty(),
                pending_pos: 0,
                state: 0,
                input_offset: 0,
                eof: false,
            },
        ) == spec_bcj_x86_convert(src, 0, 0, false).0,
{
    lemma_source_chunks(src, 0);
    assert(src.skip(0) =~= src);
    lemma_stream_matches_batch(source_chunks(src, 0), false);
    assert(Seq::<u8>::empty().skip(0) =~= Seq::<u8>::empty());
    assert(reader_rest(
        BcjReaderView {
            source: src,
            source_pos: 0,
            tail: Seq::empty(),
            pending: Seq::empty(),
            pending_pos: 0,
            state: 0,
            input_offset: 0,
            eof: false,
        },
    ) =~= stream_out(source_chunks(src, 0), Seq::empty(), 0, 0, false));
}


/// The reader states `vs` follow one another through reads that gave
/// `outs`: each read's bytes, then what the next state has still to give,
/// are what the state before it had still to give (as [`BcjX86Reader::read`]
/// states of every call).
pub open spec fn reads_follow(vs: Seq<BcjReaderView>, outs: Seq<Seq<u8>>) -> bool {
    &&& vs.len() == outs.len() + 1
    &&& forall|j: int| 0 <= j < outs.len() ==> #[trigger] outs[j] + reader_rest(vs[j + 1]) == reader_rest(vs[j])
}

proof fn lemma_reads_concat(vs: Seq<BcjReaderView>, outs: Seq<Seq<u8>>)
    requires
        reads_follow(vs, outs),
    ensures
        flatten(outs) + reader_rest(vs[outs.len() as int]) == reader_rest(vs[0]),
    decreases outs.len(),
{
    if outs.len() > 0 {
        let vs2 = vs.drop_first();
        let outs2 = outs.drop_first();
        assert forall|j: int| 0 <= j < outs2.len() implies #[trigger] outs2[j] + reader_rest(vs2[j + 1]) == reader_rest(
            vs2[j],
        ) by {
            assert(outs2[j] == outs[j + 1]);
            assert(vs2[j + 1] == vs[j + 2]);
            assert(vs2[j] == vs[j + 1]);
        }
        lemma_reads_concat(vs2, outs2);
        assert(outs[0] + reader_rest(vs[1]) == reader_rest(vs[0]));
        assert(vs2[outs2.len() as int] == vs[outs.len() as int]);
        assert(flatten(outs) == outs[0] + flatten(outs2));
        assert(flatten(outs) + reader_rest(vs[outs.len() as int]) =~= outs[0] + (flatten(outs2) + reader_rest(
            vs2[outs2.len() as int],
        )));
    } else {
        assert(flatten(outs) + reader_rest(vs[0]) =~= reader_rest(vs[0]));
    }
}

/// Streamed decoding gives what decoding at once gives, whatever the sizes
/// of the reads: the bytes of successive reads of a new reader over `src`,
/// up to the state with nothing left to give (where a read gives zero
/// bytes), are the x86 BCJ decoding of `src`.
pub proof fn lemma_streamed_reads_match_batch(src: Seq<u8>, vs: Seq<BcjReaderView>, outs: Seq<Seq<u8>>)
    requires
        src.len() <= u64::MAX,
        reads_follow(vs, outs),
        vs[0] == (BcjReaderView {
            source: src,
            source_pos: 0,
            tail: Seq::empty(),
            pending: Seq::empty(),
            pending_pos: 0,
            state: 0,
            input_offset: 0,
            eof: false,
        }),
        reader_rest(vs[outs.len() as int]) == Seq::<u8>::empty(),
    ensures
        flatten(outs) == spec_bcj_x86_convert(src, 0, 0, false).0,
{
    lemma_reads_concat(vs, outs);
    lemma_reader_matches_batch(src);
    assert(flatten(outs) + Seq::<u8>::empty() =~= flatten(outs));
}

/// Bytes without a `E8` or `E9` opcode pass through the filter unchanged.
pub proof fn lemma_bcj_no_opcode_no_change(d: Seq<u8>, ip: u32, state: u32, encoding: bool)
    requires
        forall|i: int| 0 <= i < d.len() ==> !is_branch_opcode(#[trigger] d[i]),
    ensures
        spec_bcj_x86_convert(d, ip, state, encoding).0 == d,
{
    if d.len() >= 5 {
        lemma_next_opcode(d, 0, (d.len() - 4) as nat);
    }
}

} // verus!
