//! x86 BCJ2 decoder: rebuilds x86 code from its four BCJ2 streams, the main
//! bytes, the absolute targets of CALL and of JMP instructions, and a
//! range-coded stream that tells which branches were converted.
use vstd::prelude::*;
use vstd::wrapping::u32_specs;
use crate::error::R7zError;

verus! {

/// The range coder reads a new byte when its range falls below this.
pub const BCJ2_TOP: u32 = 0x100_0000;

/// Where the decoder is: its positions in the four streams, the range
/// coder's range and code, the branch probabilities, the output so far,
/// the instruction pointer and the last output byte.
pub struct Bcj2State {
    pub main: nat,
    pub call: nat,
    pub jump: nat,
    pub rc: nat,
    pub range: u32,
    pub code: u32,
    pub probs: Seq<u16>,
    pub out: Seq<u8>,
    pub ip: u32,
    pub prev: u8,
}

/// The big-endian 32-bit value at `p`.
pub open spec fn be32(s: Seq<u8>, p: int) -> u32 {
    (s[p] as u32) << 24u32 | (s[p + 1] as u32) << 16u32 | (s[p + 2] as u32) << 8u32 | (s[p + 3] as u32)
}

/// `x` as four little-endian bytes.
pub open spec fn le4(x: u32) -> Seq<u8> {
    seq![x as u8, (x >> 8u32) as u8, (x >> 16u32) as u8, (x >> 24u32) as u8]
}

/// Main bytes are copied to the output, from `pos`, until a branch opcode
/// (`E8`, `E9`, or `0F 80`..`0F 8F`) has been copied, the output has
/// `size` bytes or the main stream ends. Gives the new position, output
/// and instruction pointer, and the opcode with the byte before it when
/// one ended the copy.
pub open spec fn spec_copy(main: Seq<u8>, pos: nat, out: Seq<u8>, size: nat, ip: u32, prev: u8) -> (
    nat,
    Seq<u8>,
    u32,
    Option<(u8, u8)>,
)
    decreases main.len() - pos,
{
    if out.len() >= size || pos >= main.len() {
        (pos, out, ip, None)
    } else {
        let op = main[pos as int];
        let out2 = out.push(op);
        let ip2 = u32_specs::wrapping_add(ip, 1);
        if prev == 0x0F && op & 0xF0 == 0x80 {
            (pos + 1, out2, ip2, Some((op, prev)))
        } else if op & 0xFE == 0xE8 {
            (pos + 1, out2, ip2, Some((op, prev)))
        } else {
            spec_copy(main, pos + 1, out2, size, ip2, op)
        }
    }
}

/// Copying moves forward, and an opcode that ends it was copied.
pub proof fn lemma_copy(main: Seq<u8>, pos: nat, out: Seq<u8>, size: nat, ip: u32, prev: u8)
    requires
        pos <= main.len(),
        out.len() <= size,
    ensures
        ({
            let r = spec_copy(main, pos, out, size, ip, prev);
            &&& pos <= r.0 <= main.len()
            &&& out.len() <= r.1.len() <= size
            &&& r.3 is Some ==> r.1.len() > out.len()
        }),
    decreases main.len() - pos,
{
    if out.len() < size && pos < main.len() {
        let op = main[pos as int];
        if !(prev == 0x0F && op & 0xF0 == 0x80) && !(op & 0xFE == 0xE8) {
            lemma_copy(main, pos + 1, out.push(op), size, u32_specs::wrapping_add(ip, 1), op);
        }
    }
}

/// One byte more of the range-coded stream: the range and code move up a
/// byte.
pub open spec fn spec_normalize(rc: Seq<u8>, st: Bcj2State) -> Bcj2State {
    Bcj2State { range: st.range << 8u32, code: (st.code << 8u32) | (rc[st.rc as int] as u32), rc: st.rc + 1, ..st }
}

/// The probability used after the opcode `op` preceded by `pb`.
pub open spec fn prob_index(op: u8, pb: u8) -> int {
    if op == 0xE8 {
        2 + pb
    } else if op == 0xE9 {
        1
    } else {
        0
    }
}

/// The split point of the range for a bit of probability `p` (of 2048).
pub open spec fn bound_of(range: u32, p: u16) -> int {
    (range >> 11u32) * p
}

/// A probability after a zero bit.
pub open spec fn prob_up(p: u16) -> u16 {
    (p + (((2048 - p) as u16) >> 5u16)) as u16
}

/// A probability after a one bit.
pub open spec fn prob_down(p: u16) -> u16 {
    (p - (p >> 5u16)) as u16
}

/// The decoder from state `st` until the output has `size` bytes or the
/// main stream ends: the final state, or `None` when a stream runs short
/// or a converted branch would overflow the output.
pub open spec fn spec_loop(main: Seq<u8>, call: Seq<u8>, jump: Seq<u8>, rc: Seq<u8>, size: nat, st: Bcj2State) -> Option<
    Bcj2State,
>
    decreases size - st.out.len(),
{
    if st.out.len() >= size {
        Some(st)
    } else if st.range < BCJ2_TOP && st.rc >= rc.len() {
        None
    } else {
        let s1 = if st.range < BCJ2_TOP {
            spec_normalize(rc, st)
        } else {
            st
        };
        let c = spec_copy(main, s1.main, s1.out, size, s1.ip, s1.prev);
        match c.3 {
            None => Some(Bcj2State { main: c.0, out: c.1, ip: c.2, ..s1 }),
            Some((op, pb)) => {
                proof {
                    if s1.main <= main.len() {
                        lemma_copy(main, s1.main, s1.out, size, s1.ip, s1.prev);
                    }
                }
                let idx = prob_index(op, pb);
                let p = s1.probs[idx];
                let bound = bound_of(s1.range, p);
                if (s1.code as int) < bound {
                    if c.1.len() > st.out.len() && c.1.len() <= size {
                        spec_loop(
                            main,
                            call,
                            jump,
                            rc,
                            size,
                            Bcj2State {
                                main: c.0,
                                out: c.1,
                                ip: c.2,
                                prev: op,
                                range: bound as u32,
                                probs: s1.probs.update(idx, prob_up(p)),
                                ..s1
                            },
                        )
                    } else {
                        None
                    }
                } else {
                    let is_call = op == 0xE8;
                    let spos = if is_call {
                        s1.call
                    } else {
                        s1.jump
                    };
                    let stream = if is_call {
                        call
                    } else {
                        jump
                    };
                    if spos + 4 > stream.len() {
                        None
                    } else {
                        let ip2 = u32_specs::wrapping_add(c.2, 4);
                        let rel = u32_specs::wrapping_sub(be32(stream, spos as int), ip2);
                        if c.1.len() + 4 > size {
                            None
                        } else {
                            let s2 = Bcj2State {
                                main: c.0,
                                call: if is_call {
                                    spos + 4
                                } else {
                                    s1.call
                                },
                                jump: if is_call {
                                    s1.jump
                                } else {
                                    spos + 4
                                },
                                rc: s1.rc,
                                range: (s1.range - bound) as u32,
                                code: (s1.code - bound) as u32,
                                probs: s1.probs.update(idx, prob_down(p)),
                                out: c.1 + le4(rel),
                                ip: ip2,
                                prev: (rel >> 24u32) as u8,
                            };
                            let s3 = if s2.range < BCJ2_TOP && s2.rc < rc.len() {
                                spec_normalize(rc, s2)
                            } else {
                                s2
                            };
                            if s3.out.len() > st.out.len() {
                                spec_loop(main, call, jump, rc, size, s3)
                            } else {
                                None
                            }
                        }
                    }
                }
            },
        }
    }
}

/// The decoder's starting state for the range-coded stream `rc`.
pub open spec fn bcj2_start(rc: Seq<u8>) -> Bcj2State {
    Bcj2State {
        main: 0,
        call: 0,
        jump: 0,
        rc: 5,
        range: 0xFFFF_FFFF,
        code: be32(rc, 1),
        probs: Seq::new(258, |i: int| 1024u16),
        out: Seq::empty(),
        ip: 0,
        prev: 0,
    }
}

/// BCJ2 decoding of the four streams into `size` bytes: `None` when the
/// streams are malformed, run short, or are not used up exactly with the
/// range coder's code back at zero.
pub open spec fn spec_bcj2_decode(main: Seq<u8>, call: Seq<u8>, jump: Seq<u8>, rc: Seq<u8>, size: nat) -> Option<
    Seq<u8>,
> {
    if call.len() % 4 != 0 || jump.len() % 4 != 0 || rc.len() < 5 || rc[0] != 0 {
        None
    } else if be32(rc, 1) == 0xFFFF_FFFF {
        None
    } else {
        match spec_loop(main, call, jump, rc, size, bcj2_start(rc)) {
            None => None,
            Some(st) => if st.out.len() != size || st.main != main.len() || st.call != call.len() || st.jump
                != jump.len() || st.rc != rc.len() || st.code != 0 {
                None
            } else {
                Some(st.out)
            },
        }
    }
}

proof fn lemma_range_top(range: u32)
    by (bit_vector)
    ensures
        range >> 11u32 <= 0x1F_FFFF,
        ((range >> 11u32) as int) * 2048 <= range as int,
{
}

proof fn lemma_range_split(range: u32, p: u16)
    requires
        1 <= p <= 2047,
    ensures
        ((range >> 11u32) as int) * (p as int) < 0x1_0000_0000,
        ((range >> 11u32) as int) * (p as int) <= range as int,
{
    lemma_range_top(range);
    let a = (range >> 11u32) as int;
    assert(a * (p as int) <= a * 2048) by (nonlinear_arith)
        requires
            0 <= a,
            p <= 2047,
    ;
    assert(a * 2048 <= 0x1F_FFFF * 2048) by (nonlinear_arith)
        requires
            0 <= a <= 0x1F_FFFF,
    ;
}

proof fn lemma_prob_steps(p: u16)
    by (bit_vector)
    requires
        1 <= p <= 2047,
    ensures
        1 <= (p + (((2048 - p) as u16) >> 5u16)) as u16 <= 2047,
        p + (((2048 - p) as u16) >> 5u16) <= 2047,
        1 <= (p - (p >> 5u16)) as u16 <= 2047,
        p >> 5u16 <= p,
{
}

fn copy_until_branch_opcode(
    main: &[u8],
    pos: &mut usize,
    output: &mut Vec<u8>,
    output_size: usize,
    ip: &mut u32,
    prev: u8,
) -> (r: Option<(u8, u8)>)
    requires
        *old(pos) <= main@.len(),
        old(output)@.len() <= output_size,
    ensures
        ({
            let c = spec_copy(main@, *old(pos) as nat, old(output)@, output_size as nat, *old(ip), prev);
            &&& *final(pos) as nat == c.0
            &&& final(output)@ == c.1
            &&& *final(ip) == c.2
            &&& r == c.3
        }),
{
    let mut prev = prev;
    let ghost c0 = spec_copy(main@, *pos as nat, output@, output_size as nat, *ip, prev);
    let mut result: Option<(u8, u8)> = None;
    let mut done = false;
    while !done && output.len() < output_size
        invariant
            *pos <= main@.len(),
            output@.len() <= output_size,
            !done ==> c0 == spec_copy(main@, *pos as nat, output@, output_size as nat, *ip, prev) && result is None,
            done ==> c0 == (*pos as nat, output@, *ip, result),
        decreases main@.len() - *pos, (if done { 0int } else { 1int }),
    {
        let ghost p0 = *pos as nat;
        let ghost o0 = output@;
        let ghost i0 = *ip;
        if *pos >= main.len() {
            done = true;
        } else {
            let opcode = main[*pos];
            *pos = *pos + 1;
            output.push(opcode);
            *ip = ip.wrapping_add(1);
            if prev == 0x0F && (opcode & 0xF0) == 0x80 {
                result = Some((opcode, prev));
                done = true;
                proof {
                    assert(c0 == (p0 + 1, o0.push(opcode), *ip, result));
                }
            } else {
                let before = prev;
                prev = opcode;
                if (opcode & 0xFE) == 0xE8 {
                    result = Some((opcode, before));
                    done = true;
                    proof {
                        assert(c0 == (p0 + 1, o0.push(opcode), *ip, result));
                    }
                }
            }
        }
    }
    result
}

fn read_be32(s: &[u8], p: usize) -> (r: u32)
    requires
        p + 4 <= s@.len(),
    ensures
        r == be32(s@, p as int),
{
    (s[p] as u32) << 24u32 | (s[p + 1] as u32) << 16u32 | (s[p + 2] as u32) << 8u32 | (s[p + 3] as u32)
}

/// BCJ2 decoding of the streams `main`, `call`, `jump` and `rc` into
/// `output_size` bytes. Malformed or short streams, and streams not used up
/// exactly, are a decompression error.
#[verifier::rlimit(80)]
pub fn decode(main: &[u8], call: &[u8], jump: &[u8], rc: &[u8], output_size: usize) -> (r: Result<Vec<u8>, R7zError>)
    ensures
        match spec_bcj2_decode(main@, call@, jump@, rc@, output_size as nat) {
            None => r == Err::<Vec<u8>, R7zError>(R7zError::Decompression),
            Some(s) => r matches Ok(v) && v@ == s,
        },
{
    if call.len() % 4 != 0 || jump.len() % 4 != 0 || rc.len() < 5 || rc[0] != 0 {
        return Err(R7zError::Decompression);
    }
    let code0 = read_be32(rc, 1);
    if code0 == 0xFFFF_FFFF {
        return Err(R7zError::Decompression);
    }
    let mut main_pos: usize = 0;
    let mut call_pos: usize = 0;
    let mut jump_pos: usize = 0;
    let mut rc_pos: usize = 5;
    let mut code = code0;
    let mut range: u32 = 0xFFFF_FFFF;
    let mut probs: Vec<u16> = Vec::new();
    let mut k: usize = 0;
    while k < 258
        invariant
            k <= 258,
            probs@.len() == k,
            forall|i: int| 0 <= i < k ==> probs@[i] == 1024u16,
        decreases 258 - k,
    {
        probs.push(1024);
        k = k + 1;
    }
    proof {
        assert(probs@ =~= bcj2_start(rc@).probs);
    }
    let mut output: Vec<u8> = Vec::new();
    let mut ip: u32 = 0;
    let mut prev: u8 = 0;
    let ghost result = spec_loop(main@, call@, jump@, rc@, output_size as nat, bcj2_start(rc@));
    loop
        invariant_except_break
            result == spec_loop(
                main@,
                call@,
                jump@,
                rc@,
                output_size as nat,
                Bcj2State {
                    main: main_pos as nat,
                    call: call_pos as nat,
                    jump: jump_pos as nat,
                    rc: rc_pos as nat,
                    range,
                    code,
                    probs: probs@,
                    out: output@,
                    ip,
                    prev,
                },
            ),
        invariant
            !(call@.len() % 4 != 0 || jump@.len() % 4 != 0 || rc@.len() < 5 || rc@[0] != 0),
            be32(rc@, 1) != 0xFFFF_FFFF,
            result == spec_loop(main@, call@, jump@, rc@, output_size as nat, bcj2_start(rc@)),
            main_pos <= main@.len(),
            call_pos <= call@.len(),
            jump_pos <= jump@.len(),
            rc_pos <= rc@.len(),
            output@.len() <= output_size,
            probs@.len() == 258,
            forall|i: int| 0 <= i < 258 ==> 1 <= #[trigger] probs@[i] <= 2047,
        ensures
            result matches Some(st) && st == (Bcj2State {
                main: main_pos as nat,
                call: call_pos as nat,
                jump: jump_pos as nat,
                rc: rc_pos as nat,
                range,
                code,
                probs: probs@,
                out: output@,
                ip,
                prev,
            }),
        decreases output_size - output@.len(),
    {
        if output.len() >= output_size {
            break;
        }
        let ghost st0 = Bcj2State {
            main: main_pos as nat,
            call: call_pos as nat,
            jump: jump_pos as nat,
            rc: rc_pos as nat,
            range,
            code,
            probs: probs@,
            out: output@,
            ip,
            prev,
        };
        if range < BCJ2_TOP {
            if rc_pos >= rc.len() {
                proof {
                    assert(spec_loop(main@, call@, jump@, rc@, output_size as nat, st0) is None);
                }
                return Err(R7zError::Decompression);
            }
            range = range << 8u32;
            code = (code << 8u32) | (rc[rc_pos] as u32);
            rc_pos = rc_pos + 1;
        }
        let ghost s1 = Bcj2State {
            main: main_pos as nat,
            call: call_pos as nat,
            jump: jump_pos as nat,
            rc: rc_pos as nat,
            range,
            code,
            probs: probs@,
            out: output@,
            ip,
            prev,
        };
        proof {
            assert(s1 == (if st0.range < BCJ2_TOP {
                spec_normalize(rc@, st0)
            } else {
                st0
            }));
        }
        let ghost out0 = output@;
        let ghost len_before = output@.len();
        let ghost pos0 = main_pos as nat;
        let ghost ip0 = ip;
        proof {
            lemma_copy(main@, pos0, out0, output_size as nat, ip0, prev);
        }
        let found = copy_until_branch_opcode(main, &mut main_pos, &mut output, output_size, &mut ip, prev);
        let (opcode, before) = match found {
            None => {
                break;
            },
            Some(x) => x,
        };
        prev = opcode;
        let idx: usize = if opcode == 0xE8 {
            2 + before as usize
        } else if opcode == 0xE9 {
            1
        } else {
            0
        };
        let p = probs[idx];
        proof {
            lemma_range_split(range, p);
            lemma_prob_steps(p);
        }
        let bound = (range >> 11u32) * (p as u32);
        if code < bound {
            range = bound;
            probs.set(idx, p + ((2048u16 - p) >> 5u16));
            continue;
        }
        range = range - bound;
        code = code - bound;
        probs.set(idx, p - (p >> 5u16));
        let absolute = if opcode == 0xE8 {
            if call.len() < 4 || call_pos > call.len() - 4 {
                proof {
                    assert(spec_loop(main@, call@, jump@, rc@, output_size as nat, st0) is None);
                }
                return Err(R7zError::Decompression);
            }
            let a = read_be32(call, call_pos);
            call_pos = call_pos + 4;
            a
        } else {
            if jump.len() < 4 || jump_pos > jump.len() - 4 {
                proof {
                    assert(spec_loop(main@, call@, jump@, rc@, output_size as nat, st0) is None);
                }
                return Err(R7zError::Decompression);
            }
            let a = read_be32(jump, jump_pos);
            jump_pos = jump_pos + 4;
            a
        };
        ip = ip.wrapping_add(4);
        let relative = absolute.wrapping_sub(ip);
        if output_size < 4 || output.len() > output_size - 4 {
            return Err(R7zError::Decompression);
        }
        let ghost c1 = output@;
        output.push(relative as u8);
        output.push((relative >> 8u32) as u8);
        output.push((relative >> 16u32) as u8);
        output.push((relative >> 24u32) as u8);
        prev = (relative >> 24u32) as u8;
        proof {
            assert(output@ =~= c1 + le4(relative));
        }
        if range < BCJ2_TOP && rc_pos < rc.len() {
            range = range << 8u32;
            code = (code << 8u32) | (rc[rc_pos] as u32);
            rc_pos = rc_pos + 1;
        }
    }
    if output.len() != output_size || main_pos != main.len() || call_pos != call.len() || jump_pos != jump.len()
        || rc_pos != rc.len() || code != 0 {
        return Err(R7zError::Decompression);
    }
    Ok(output)
}

// ---------------------------------------------------------------------------
// Which stream a converted branch reads its target from.
// ---------------------------------------------------------------------------

/// No byte of `main` is `E8`, the CALL opcode.
pub open spec fn no_call_opcode(main: Seq<u8>) -> bool {
    forall|k: int| 0 <= k < main.len() ==> #[trigger] main[k] != 0xE8u8
}

/// No byte of `main` is `E9`, the JMP opcode, nor `80`..`8F`, the second
/// byte of a conditional jump.
pub open spec fn no_jump_opcode(main: Seq<u8>) -> bool {
    forall|k: int| 0 <= k < main.len() ==> #[trigger] main[k] != 0xE9u8 && !(0x80u8 <= main[k] <= 0x8Fu8)
}

/// The opcode that ends a copy is a byte of `main`: `E8`, `E9`, or a byte
/// `80`..`8F`.
proof fn lemma_copy_opcode(main: Seq<u8>, pos: nat, out: Seq<u8>, size: nat, ip: u32, prev: u8)
    ensures
        spec_copy(main, pos, out, size, ip, prev).3 matches Some((op, _)) ==> (exists|k: int|
            0 <= k < main.len() && #[trigger] main[k] == op) && (op == 0xE8u8 || op == 0xE9u8 || (0x80u8 <= op
            <= 0x8Fu8)),
    decreases main.len() - pos,
{
    if !(out.len() >= size || pos >= main.len()) {
        let op = main[pos as int];
        assert((op & 0xF0u8 == 0x80u8) == (0x80u8 <= op <= 0x8Fu8)) by (bit_vector);
        assert((op & 0xFEu8 == 0xE8u8) == (op == 0xE8u8 || op == 0xE9u8)) by (bit_vector);
        if !(prev == 0x0F && op & 0xF0 == 0x80) && !(op & 0xFE == 0xE8) {
            lemma_copy_opcode(main, pos + 1, out.push(op), size, u32_specs::wrapping_add(ip, 1), op);
        }
    }
}

/// Decoding moves the position in the call stream only at an `E8` opcode,
/// and the position in the jump stream only at an `E9` or `0F 8x` one.
proof fn lemma_loop_streams(main: Seq<u8>, call: Seq<u8>, jump: Seq<u8>, rc: Seq<u8>, size: nat, st: Bcj2State)
    ensures
        spec_loop(main, call, jump, rc, size, st) matches Some(st2) ==> (no_call_opcode(main) ==> st2.call == st.call)
            && (no_jump_opcode(main) ==> st2.jump == st.jump),
    decreases size - st.out.len(),
{
    if st.out.len() >= size {
    } else if st.range < BCJ2_TOP && st.rc >= rc.len() {
    } else {
        let s1 = if st.range < BCJ2_TOP {
            spec_normalize(rc, st)
        } else {
            st
        };
        let c = spec_copy(main, s1.main, s1.out, size, s1.ip, s1.prev);
        lemma_copy_opcode(main, s1.main, s1.out, size, s1.ip, s1.prev);
        match c.3 {
            None => {},
            Some((op, pb)) => {
                let idx = prob_index(op, pb);
                let p = s1.probs[idx];
                let bound = bound_of(s1.range, p);
                if (s1.code as int) < bound {
                    if c.1.len() > st.out.len() && c.1.len() <= size {
                        lemma_loop_streams(
                            main,
                            call,
                            jump,
                            rc,
                            size,
                            Bcj2State {
                                main: c.0,
                                out: c.1,
                                ip: c.2,
                                prev: op,
                                range: bound as u32,
                                probs: s1.probs.update(idx, prob_up(p)),
                                ..s1
                            },
                        );
                    }
                } else {
                    let is_call = op == 0xE8u8;
                    let spos = if is_call {
                        s1.call
                    } else {
                        s1.jump
                    };
                    let stream = if is_call {
                        call
                    } else {
                        jump
                    };
                    if spos + 4 <= stream.len() && c.1.len() + 4 <= size {
                        let ip2 = u32_specs::wrapping_add(c.2, 4);
                        let rel = u32_specs::wrapping_sub(be32(stream, spos as int), ip2);
                        let s2 = Bcj2State {
                            main: c.0,
                            call: if is_call {
                                spos + 4
                            } else {
                                s1.call
                            },
                            jump: if is_call {
                                s1.jump
                            } else {
                                spos + 4
                            },
                            rc: s1.rc,
                            range: (s1.range - bound) as u32,
                            code: (s1.code - bound) as u32,
                            probs: s1.probs.update(idx, prob_down(p)),
                            out: c.1 + le4(rel),
                            ip: ip2,
                            prev: (rel >> 24u32) as u8,
                        };
                        let s3 = if s2.range < BCJ2_TOP && s2.rc < rc.len() {
                            spec_normalize(rc, s2)
                        } else {
                            s2
                        };
                        if s3.out.len() > st.out.len() {
                            lemma_loop_streams(main, call, jump, rc, size, s3);
                            if no_call_opcode(main) {
                                let k = choose|k: int| 0 <= k < main.len() && #[trigger] main[k] == op;
                                assert(main[k] != 0xE8u8);
                            }
                            if no_jump_opcode(main) {
                                let k = choose|k: int| 0 <= k < main.len() && #[trigger] main[k] == op;
                                assert(main[k] != 0xE9u8 && !(0x80u8 <= main[k] <= 0x8Fu8));
                            }
                        }
                    }
                }
            },
        }
    }
}

/// Only `E8` (CALL) branches take their targets from the call stream: when
/// the main stream holds no `E8` byte, a successful decoding uses no call
/// stream at all.
pub proof fn lemma_call_stream_only_for_calls(main: Seq<u8>, call: Seq<u8>, jump: Seq<u8>, rc: Seq<u8>, size: nat)
    requires
        no_call_opcode(main),
    ensures
        spec_bcj2_decode(main, call, jump, rc, size) is Some ==> call.len() == 0,
{
    lemma_loop_streams(main, call, jump, rc, size, bcj2_start(rc));
}

/// `E9` (JMP) and `0F 8x` (conditional jump) branches, and only they, take
/// their targets from the jump stream: when the main stream holds no `E9`
/// byte and no byte `80`..`8F`, a successful decoding uses no jump stream.
pub proof fn lemma_jump_stream_only_for_jumps(main: Seq<u8>, call: Seq<u8>, jump: Seq<u8>, rc: Seq<u8>, size: nat)
    requires
        no_jump_opcode(main),
    ensures
        spec_bcj2_decode(main, call, jump, rc, size) is Some ==> jump.len() == 0,
{
    lemma_loop_streams(main, call, jump, rc, size, bcj2_start(rc));
}

/// A branch target read from a stream: its four bytes, most significant
/// first.
pub open spec fn target_of(s: Seq<u8>) -> int {
    s[0] as int * 0x100_0000 + s[1] as int * 0x1_0000 + s[2] as int * 0x100 + s[3] as int
}

/// The four bytes after the opcode, least significant first.
pub open spec fn written_offset(out: Seq<u8>) -> int {
    out[1] as int + out[2] as int * 0x100 + out[3] as int * 0x1_0000 + out[4] as int * 0x100_0000
}

proof fn lemma_le4_value(x: u32)
    ensures
        le4(x)[0] as int + le4(x)[1] as int * 0x100 + le4(x)[2] as int * 0x1_0000 + le4(x)[3] as int * 0x100_0000
            == x as int,
{
    let b0 = x as u8;
    let b1 = (x >> 8u32) as u8;
    let b2 = (x >> 16u32) as u8;
    let b3 = (x >> 24u32) as u8;
    assert(x == (b0 as u32) | ((b1 as u32) << 8u32) | ((b2 as u32) << 16u32) | ((b3 as u32) << 24u32)) by (bit_vector)
        requires
            b0 == x as u8,
            b1 == (x >> 8u32) as u8,
            b2 == (x >> 16u32) as u8,
            b3 == (x >> 24u32) as u8,
    ;
    assert((b0 as u32) | ((b1 as u32) << 8u32) | ((b2 as u32) << 16u32) | ((b3 as u32) << 24u32) == b0 as u32 + (
    b1 as u32) * 0x100 + (b2 as u32) * 0x1_0000 + (b3 as u32) * 0x100_0000) by (bit_vector);
}

/// The split point of the full range at even odds.
proof fn lemma_full_range_split()
    ensures
        (0xFFFF_FFFFu32 >> 11u32) == 0x1F_FFFFu32,
{
    assert((0xFFFF_FFFFu32 >> 11u32) == 0x1F_FFFFu32) by (bit_vector);
}

proof fn lemma_be32_value(s: Seq<u8>)
    requires
        s.len() >= 4,
    ensures
        be32(s, 0) as int == target_of(s),
{
    lemma_be32_at(s, 0);
}

proof fn lemma_be32_at(s: Seq<u8>, p: int)
    requires
        0 <= p,
        p + 4 <= s.len(),
    ensures
        be32(s, p) as int == s[p] as int * 0x100_0000 + s[p + 1] as int * 0x1_0000 + s[p + 2] as int * 0x100 + s[p
            + 3] as int,
{
    let a = s[p];
    let b = s[p + 1];
    let c = s[p + 2];
    let d = s[p + 3];
    assert((a as u32) << 24u32 | (b as u32) << 16u32 | (c as u32) << 8u32 | (d as u32) == (a as u32) * 0x100_0000 + (
    b as u32) * 0x1_0000 + (c as u32) * 0x100 + (d as u32)) by (bit_vector);
}

proof fn lemma_copy_lone(main: Seq<u8>, op: u8)
    requires
        op == 0xE8u8 || op == 0xE9u8,
        main == seq![op],
    ensures
        spec_copy(main, 0, Seq::empty(), 5, 0, 0) == (1nat, main, 1u32, Some((op, 0u8))),
        forall|out: Seq<u8>, ip: u32, prev: u8| #[trigger] spec_copy(main, 1, out, 5, ip, prev).3 is None,
{
    assert(op & 0xFEu8 == 0xE8u8) by (bit_vector)
        requires
            op == 0xE8u8 || op == 0xE9u8,
    ;
    assert(Seq::<u8>::empty().push(op) =~= main);
    reveal_with_fuel(spec_copy, 2);
}

/// A lone branch decodes from the right stream: five bytes decoded from
/// a main stream holding only an `E8` (CALL) or `E9` (JMP) opcode give the
/// opcode, then the target read from the call stream for `E8` and from the
/// jump stream for `E9`, made relative to the end of the instruction
/// (offset 5), in four little-endian bytes; the other stream is unused.
#[verifier::rlimit(100)]
pub proof fn lemma_lone_branch(op: u8, call: Seq<u8>, jump: Seq<u8>, rc: Seq<u8>)
    requires
        op == 0xE8u8 || op == 0xE9u8,
    ensures
        spec_bcj2_decode(seq![op], call, jump, rc, 5) matches Some(out) ==> {
            let used = if op == 0xE8u8 { call } else { jump };
            let unused = if op == 0xE8u8 { jump } else { call };
            &&& used.len() == 4
            &&& unused.len() == 0
            &&& out.len() == 5
            &&& out[0] == op
            &&& (written_offset(out) + 5) % 0x1_0000_0000 == target_of(used)
        },
{
    let main = seq![op];
    lemma_copy_lone(main, op);
    reveal_with_fuel(spec_loop, 3);
    match spec_bcj2_decode(main, call, jump, rc, 5) {
        None => {},
        Some(out) => {
            let st0 = bcj2_start(rc);
            let c = spec_copy(main, 0, Seq::empty(), 5, 0, 0);
            assert(c.0 == 1 && c.1 == seq![op] && c.2 == 1u32 && c.3 == Some((op, 0u8)));
            let idx = prob_index(op, 0);
            let p = st0.probs[idx];
            assert(p == 1024u16);
            let bound = bound_of(st0.range, p);
            assert(bound == 0x1F_FFFF * 1024) by {
                lemma_full_range_split();
            }
            if (st0.code as int) < bound {
                let s2 = Bcj2State {
                    main: c.0,
                    out: c.1,
                    ip: c.2,
                    prev: op,
                    range: bound as u32,
                    probs: st0.probs.update(idx, prob_up(p)),
                    ..st0
                };
                let c2 = spec_copy(main, s2.main, s2.out, 5, s2.ip, s2.prev);
                assert(c2.3 is None);
                assert(false);
            } else {
                let is_call = op == 0xE8u8;
                let stream = if is_call { call } else { jump };
                assert(stream.len() >= 4);
                let ip2 = u32_specs::wrapping_add(c.2, 4);
                assert(ip2 == 5u32);
                let rel = u32_specs::wrapping_sub(be32(stream, 0), ip2);
                lemma_le4_value(rel);
                lemma_be32_value(stream);
                assert(out == seq![op] + le4(rel));
                assert(out[1] == le4(rel)[0] && out[2] == le4(rel)[1] && out[3] == le4(rel)[2] && out[4] == le4(rel)[3]);
                assert(written_offset(out) == rel as int);
                assert(rel as int == (be32(stream, 0) as int - 5) % 0x1_0000_0000);
            }
        },
    }
}

proof fn lemma_copy_jcc(main: Seq<u8>, op: u8)
    requires
        0x80u8 <= op <= 0x8Fu8,
        main == seq![0x0Fu8, op],
    ensures
        spec_copy(main, 0, Seq::empty(), 6, 0, 0) == (2nat, main, 2u32, Some((op, 0x0Fu8))),
        forall|out: Seq<u8>, ip: u32, prev: u8| #[trigger] spec_copy(main, 2, out, 6, ip, prev).3 is None,
{
    assert(op & 0xF0u8 == 0x80u8 && op & 0xFEu8 != 0xE8u8) by (bit_vector)
        requires
            0x80u8 <= op <= 0x8Fu8,
    ;
    assert(0x0Fu8 & 0xFEu8 != 0xE8u8) by (bit_vector);
    assert(Seq::<u8>::empty().push(0x0Fu8).push(op) =~= main);
    reveal_with_fuel(spec_copy, 3);
}

/// A lone conditional jump decodes from the jump stream: six bytes decoded
/// from a main stream holding only `0F 8x` give those two bytes, then the
/// target read from the jump stream made relative to the end of the
/// instruction (offset 6), in four little-endian bytes; the call stream is
/// unused.
#[verifier::rlimit(100)]
pub proof fn lemma_lone_conditional_jump(op: u8, call: Seq<u8>, jump: Seq<u8>, rc: Seq<u8>)
    requires
        0x80u8 <= op <= 0x8Fu8,
    ensures
        spec_bcj2_decode(seq![0x0Fu8, op], call, jump, rc, 6) matches Some(out) ==> {
            &&& jump.len() == 4
            &&& call.len() == 0
            &&& out.len() == 6
            &&& out[0] == 0x0Fu8
            &&& out[1] == op
            &&& (out[2] as int + out[3] as int * 0x100 + out[4] as int * 0x1_0000 + out[5] as int * 0x100_0000 + 6)
                % 0x1_0000_0000 == target_of(jump)
        },
{
    let main = seq![0x0Fu8, op];
    lemma_copy_jcc(main, op);
    reveal_with_fuel(spec_loop, 3);
    match spec_bcj2_decode(main, call, jump, rc, 6) {
        None => {},
        Some(out) => {
            let st0 = bcj2_start(rc);
            let c = spec_copy(main, 0, Seq::empty(), 6, 0, 0);
            let idx = prob_index(op, 0x0F);
            assert(idx == 0);
            let p = st0.probs[idx];
            assert(p == 1024u16);
            let bound = bound_of(st0.range, p);
            assert(bound == 0x1F_FFFF * 1024) by {
                lemma_full_range_split();
            }
            if (st0.code as int) < bound {
                let s2 = Bcj2State {
                    main: c.0,
                    out: c.1,
                    ip: c.2,
                    prev: op,
                    range: bound as u32,
                    probs: st0.probs.update(idx, prob_up(p)),
                    ..st0
                };
                let c2 = spec_copy(main, s2.main, s2.out, 6, s2.ip, s2.prev);
                assert(c2.3 is None);
                assert(false);
            } else {
                assert(jump.len() >= 4);
                let ip2 = u32_specs::wrapping_add(c.2, 4);
                assert(ip2 == 6u32);
                let rel = u32_specs::wrapping_sub(be32(jump, 0), ip2);
                lemma_le4_value(rel);
                lemma_be32_value(jump);
                assert(out == main + le4(rel));
                assert(out[2] == le4(rel)[0] && out[3] == le4(rel)[1] && out[4] == le4(rel)[2] && out[5] == le4(rel)[3]);
                assert(rel as int == (be32(jump, 0) as int - 6) % 0x1_0000_0000);
            }
        },
    }
}

/// A range-coder stream that marks its first branch as converted and ends.
pub open spec fn one_conversion_rc() -> Seq<u8> {
    seq![0x00u8, 0x7Fu8, 0xFFu8, 0xFCu8, 0x00u8]
}

/// Every lone CALL or JMP is decoded: for any four target bytes, a main
/// stream holding only `E8` (target in the call stream) or `E9` (target in
/// the jump stream), with a range coder that marks the branch converted,
/// decodes to the opcode and the target made relative to offset 5.
#[verifier::rlimit(100)]
pub proof fn lemma_lone_branch_decodes(op: u8, target: Seq<u8>)
    requires
        op == 0xE8u8 || op == 0xE9u8,
        target.len() == 4,
    ensures
        ({
            let call = if op == 0xE8u8 { target } else { Seq::<u8>::empty() };
            let jump = if op == 0xE8u8 { Seq::<u8>::empty() } else { target };
            spec_bcj2_decode(seq![op], call, jump, one_conversion_rc(), 5) matches Some(out) && out.len() == 5 && out[0]
                == op && (written_offset(out) + 5) % 0x1_0000_0000 == target_of(target)
        }),
{
    let main = seq![op];
    let call = if op == 0xE8u8 { target } else { Seq::<u8>::empty() };
    let jump = if op == 0xE8u8 { Seq::<u8>::empty() } else { target };
    let rc = one_conversion_rc();
    lemma_copy_lone(main, op);
    reveal_with_fuel(spec_loop, 3);
    assert(be32(rc, 1) == 0x7FFF_FC00u32) by {
        lemma_be32_at(rc, 1);
    }
    lemma_full_range_split();
    lemma_lone_branch(op, call, jump, rc);
    let st0 = bcj2_start(rc);
    let c = spec_copy(main, 0, Seq::empty(), 5, 0, 0);
    assert(c.0 == 1 && c.1 == seq![op] && c.2 == 1u32 && c.3 == Some((op, 0u8)));
    let idx = prob_index(op, 0);
    assert(st0.probs[idx] == 1024u16);
    let stream = if op == 0xE8u8 { call } else { jump };
    let ip2 = u32_specs::wrapping_add(c.2, 4);
    let rel = u32_specs::wrapping_sub(be32(stream, 0), ip2);
    assert(spec_loop(main, call, jump, rc, 5, st0) is Some);
    let st = spec_loop(main, call, jump, rc, 5, st0)->Some_0;
    assert(st.out == seq![op] + le4(rel));
    assert(st.code == 0);
}

/// Every lone conditional jump is decoded: for any second opcode byte
/// `80`..`8F` and any four target bytes in the jump stream, with a range
/// coder that marks the branch converted, `0F 8x` decodes to those two
/// bytes and the target made relative to offset 6.
#[verifier::rlimit(100)]
pub proof fn lemma_lone_conditional_jump_decodes(op: u8, target: Seq<u8>)
    requires
        0x80u8 <= op <= 0x8Fu8,
        target.len() == 4,
    ensures
        spec_bcj2_decode(seq![0x0Fu8, op], Seq::empty(), target, one_conversion_rc(), 6) matches Some(out) && out.len()
            == 6 && out[0] == 0x0Fu8 && out[1] == op && (out[2] as int + out[3] as int * 0x100 + out[4] as int
            * 0x1_0000 + out[5] as int * 0x100_0000 + 6) % 0x1_0000_0000 == target_of(target),
{
    let main = seq![0x0Fu8, op];
    let rc = one_conversion_rc();
    lemma_copy_jcc(main, op);
    reveal_with_fuel(spec_loop, 3);
    assert(be32(rc, 1) == 0x7FFF_FC00u32) by {
        lemma_be32_at(rc, 1);
    }
    lemma_full_range_split();
    lemma_lone_conditional_jump(op, Seq::empty(), target, rc);
    let st0 = bcj2_start(rc);
    assert(st0.probs[0] == 1024u16);
    assert(spec_loop(main, Seq::empty(), target, rc, 6, st0) is Some);
    let st = spec_loop(main, Seq::empty(), target, rc, 6, st0)->Some_0;
    assert(st.code == 0);
}

} // verus!
