//! Folders of the BCJ2 layout: four coders, one of them BCJ2 with four
//! input streams and one output, the others with one of each. The main,
//! call and jump inputs of BCJ2 are packed streams or the outputs of the
//! single-stream coders bound to them, each decoded from its own packed
//! stream; the range-coder input is a packed stream.
use crate::bcj2::{decode as bcj2_decode, spec_bcj2_decode};
use crate::codec::{decompress_coder, opt_password, result_is, spec_decompress_coder, DecodeResult};
use crate::error::R7zError;
use crate::folder::{Folder, FolderView};
use crate::method::{bytes_equal, spec_method_id, SevenZMethod};
use vstd::prelude::*;
use vstd::slice::{slice_subrange, slice_to_vec};

verus! {

/// The place of the first `x` in `s`, searching from `i`.
pub open spec fn first_index_from(s: Seq<u64>, x: nat, i: nat) -> Option<nat>
    decreases s.len() - i,
{
    if i >= s.len() {
        None
    } else if s[i as int] == x {
        Some(i)
    } else {
        first_index_from(s, x, i + 1)
    }
}

/// The output stream that the first bind pair naming input stream `x`
/// (searching from pair `i`) binds to it.
pub open spec fn bound_output_from(bps: Seq<(u64, u64)>, x: nat, i: nat) -> Option<nat>
    decreases bps.len() - i,
{
    if i >= bps.len() {
        None
    } else if bps[i as int].0 == x {
        Some(bps[i as int].1 as nat)
    } else {
        bound_output_from(bps, x, i + 1)
    }
}

/// Some bind pair from pair `i` on takes output stream `o`.
pub open spec fn output_bound_from(bps: Seq<(u64, u64)>, o: nat, i: nat) -> bool
    decreases bps.len() - i,
{
    if i >= bps.len() {
        false
    } else if bps[i as int].1 == o {
        true
    } else {
        output_bound_from(bps, o, i + 1)
    }
}

/// Coder `b` of `f` is BCJ2 with four inputs and one output, and the folder
/// has three more coders of one input and one output each.
pub open spec fn is_bcj2_layout(f: FolderView, b: nat) -> bool {
    &&& f.coders.len() == 4
    &&& b < 4
    &&& f.coders[b as int].codec_id == spec_method_id(SevenZMethod::Bcj2)
    &&& f.coders[b as int].num_in_streams == 4
    &&& f.coders[b as int].num_out_streams == 1
    &&& forall|c: int|
        0 <= c < 4 && c != b ==> (#[trigger] f.coders[c]).num_in_streams == 1 && f.coders[c].num_out_streams == 1
}

/// The BCJ2 coder of a folder of the BCJ2 layout.
pub open spec fn spec_bcj2_coder(f: FolderView) -> Option<nat> {
    if is_bcj2_layout(f, 0) {
        Some(0)
    } else if is_bcj2_layout(f, 1) {
        Some(1)
    } else if is_bcj2_layout(f, 2) {
        Some(2)
    } else if is_bcj2_layout(f, 3) {
        Some(3)
    } else {
        None
    }
}

/// The input stream of the single-stream coder `c` when the BCJ2 coder `b`
/// takes the inputs `b..b + 4`. Coder `c`'s output stream is `c`.
pub open spec fn coder_input(c: nat, b: nat) -> nat {
    if c < b {
        c
    } else {
        c + 3
    }
}

/// Packed stream `p`, whose range in `bytes` is `ranges[p]`; a range that
/// does not lie in `bytes` fails.
pub open spec fn spec_packed_at(bytes: Seq<u8>, ranges: Seq<(nat, nat)>, p: nat) -> DecodeResult {
    if p >= ranges.len() || ranges[p as int].0 > ranges[p as int].1 || ranges[p as int].1 > bytes.len() {
        DecodeResult::Failure(R7zError::Parse)
    } else {
        DecodeResult::Data(bytes.subrange(ranges[p as int].0 as int, ranges[p as int].1 as int))
    }
}

/// Input `j` of the BCJ2 coder `b`: a packed stream, or the output of the
/// coder bound to it, decoded from that coder's packed stream with its
/// output size `sizes[c]`.
pub open spec fn spec_bcj2_input(
    f: FolderView,
    b: nat,
    j: nat,
    bytes: Seq<u8>,
    ranges: Seq<(nat, nat)>,
    sizes: Seq<u64>,
    password: Option<Seq<char>>,
) -> DecodeResult {
    match first_index_from(f.packed_indices, b + j, 0) {
        Some(p) => spec_packed_at(bytes, ranges, p),
        None => match bound_output_from(f.bind_pairs, b + j, 0) {
            None => DecodeResult::Failure(R7zError::Parse),
            Some(c) => if c >= 4 || c == b || c >= sizes.len() {
                DecodeResult::Failure(R7zError::Parse)
            } else {
                match first_index_from(f.packed_indices, coder_input(c, b), 0) {
                    None => DecodeResult::Failure(R7zError::Parse),
                    Some(p) => match spec_packed_at(bytes, ranges, p) {
                        DecodeResult::Data(input) => spec_decompress_coder(
                            f.coders[c as int],
                            input,
                            sizes[c as int],
                            password,
                        ),
                        other => other,
                    },
                }
            },
        },
    }
}

/// Decoding a folder of the BCJ2 layout whose BCJ2 coder is `b`: its four
/// inputs in order (main, call, jump, range coder), then BCJ2 into the
/// coder's output size `sizes[b]`. The BCJ2 output must be the folder's
/// output, bound to no other coder.
pub open spec fn spec_decompress_bcj2_folder(
    f: FolderView,
    b: nat,
    bytes: Seq<u8>,
    ranges: Seq<(nat, nat)>,
    sizes: Seq<u64>,
    password: Option<Seq<char>>,
) -> DecodeResult {
    if b >= sizes.len() || sizes[b as int] > usize::MAX || output_bound_from(f.bind_pairs, b, 0) {
        DecodeResult::Failure(R7zError::Parse)
    } else {
        match spec_bcj2_input(f, b, 0, bytes, ranges, sizes, password) {
            DecodeResult::Data(main) => match spec_bcj2_input(f, b, 1, bytes, ranges, sizes, password) {
                DecodeResult::Data(call) => match spec_bcj2_input(f, b, 2, bytes, ranges, sizes, password) {
                    DecodeResult::Data(jump) => match spec_bcj2_input(f, b, 3, bytes, ranges, sizes, password) {
                        DecodeResult::Data(rc) => match spec_bcj2_decode(main, call, jump, rc, sizes[b as int] as nat) {
                            None => DecodeResult::Failure(R7zError::Decompression),
                            Some(out) => DecodeResult::Data(out),
                        },
                        other => other,
                    },
                    other => other,
                },
                other => other,
            },
            other => other,
        }
    }
}

/// Byte ranges as plain numbers.
pub open spec fn ranges_view(r: Seq<(usize, usize)>) -> Seq<(nat, nat)> {
    r.map_values(|x: (usize, usize)| (x.0 as nat, x.1 as nat))
}

fn first_index(s: &[u64], x: u64) -> (r: Option<usize>)
    ensures
        match first_index_from(s@, x as nat, 0) {
            None => r is None,
            Some(p) => r matches Some(q) && q as nat == p,
        },
{
    let mut i: usize = 0;
    while i < s.len()
        invariant
            i <= s@.len(),
            first_index_from(s@, x as nat, 0) == first_index_from(s@, x as nat, i as nat),
        decreases s@.len() - i,
    {
        if s[i] == x {
            return Some(i);
        }
        i = i + 1;
    }
    None
}

fn bound_output(bps: &[(u64, u64)], x: u64) -> (r: Option<u64>)
    ensures
        match bound_output_from(bps@, x as nat, 0) {
            None => r is None,
            Some(o) => r matches Some(v) && v as nat == o,
        },
{
    let mut i: usize = 0;
    while i < bps.len()
        invariant
            i <= bps@.len(),
            bound_output_from(bps@, x as nat, 0) == bound_output_from(bps@, x as nat, i as nat),
        decreases bps@.len() - i,
    {
        if bps[i].0 == x {
            return Some(bps[i].1);
        }
        i = i + 1;
    }
    None
}

fn output_bound(bps: &[(u64, u64)], o: u64) -> (r: bool)
    ensures
        r == output_bound_from(bps@, o as nat, 0),
{
    let mut i: usize = 0;
    while i < bps.len()
        invariant
            i <= bps@.len(),
            output_bound_from(bps@, o as nat, 0) == output_bound_from(bps@, o as nat, i as nat),
        decreases bps@.len() - i,
    {
        if bps[i].1 == o {
            return true;
        }
        i = i + 1;
    }
    false
}

fn bcj2_layout_at(folder: &Folder, b: usize) -> (r: bool)
    requires
        b < 4,
    ensures
        r == is_bcj2_layout(folder@, b as nat),
{
    if folder.coders.len() != 4 {
        return false;
    }
    proof {
        assert(forall|c: int| 0 <= c < 4 ==> folder@.coders[c] == (#[trigger] folder.coders@[c])@);
    }
    let id = SevenZMethod::Bcj2.id();
    let cb = &folder.coders[b];
    if !bytes_equal(cb.codec_id.as_slice(), id.as_slice()) || cb.num_in_streams != 4 || cb.num_out_streams != 1 {
        return false;
    }
    let mut c: usize = 0;
    while c < 4
        invariant
            c <= 4,
            b < 4,
            folder.coders@.len() == 4,
            forall|q: int| 0 <= q < 4 ==> folder@.coders[q] == (#[trigger] folder.coders@[q])@,
            forall|q: int|
                0 <= q < c && q != b ==> (#[trigger] folder@.coders[q]).num_in_streams == 1
                    && folder@.coders[q].num_out_streams == 1,
        decreases 4 - c,
    {
        if c != b && (folder.coders[c].num_in_streams != 1 || folder.coders[c].num_out_streams != 1) {
            return false;
        }
        c = c + 1;
    }
    true
}

/// The BCJ2 coder of `folder`, when it has the BCJ2 layout.
pub fn bcj2_coder(folder: &Folder) -> (r: Option<usize>)
    ensures
        match spec_bcj2_coder(folder@) {
            None => r is None,
            Some(b) => r == Some(b as usize),
        },
{
    if bcj2_layout_at(folder, 0) {
        Some(0)
    } else if bcj2_layout_at(folder, 1) {
        Some(1)
    } else if bcj2_layout_at(folder, 2) {
        Some(2)
    } else if bcj2_layout_at(folder, 3) {
        Some(3)
    } else {
        None
    }
}

fn packed_at(data: &[u8], ranges: &[(usize, usize)], p: usize) -> (r: Result<Vec<u8>, R7zError>)
    ensures
        result_is(r, spec_packed_at(data@, ranges_view(ranges@), p as nat)),
{
    if p >= ranges.len() {
        return Err(R7zError::Parse);
    }
    let (a, e) = ranges[p];
    if a > e || e > data.len() {
        return Err(R7zError::Parse);
    }
    Ok(slice_to_vec(slice_subrange(data, a, e)))
}

fn bcj2_input(
    folder: &Folder,
    b: usize,
    j: usize,
    data: &[u8],
    ranges: &[(usize, usize)],
    sizes: &[u64],
    password: Option<&str>,
) -> (r: Result<Vec<u8>, R7zError>)
    requires
        is_bcj2_layout(folder@, b as nat),
        j < 4,
    ensures
        result_is(
            r,
            spec_bcj2_input(folder@, b as nat, j as nat, data@, ranges_view(ranges@), sizes@, opt_password(password)),
        ),
{
    match first_index(folder.packed_indices.as_slice(), (b + j) as u64) {
        Some(p) => packed_at(data, ranges, p),
        None => {
            let c64 = match bound_output(folder.bind_pairs.as_slice(), (b + j) as u64) {
                Some(c) => c,
                None => {
                    return Err(R7zError::Parse);
                },
            };
            if c64 >= 4 || c64 == b as u64 || c64 >= sizes.len() as u64 {
                return Err(R7zError::Parse);
            }
            let c = c64 as usize;
            let ci: u64 = if c < b {
                c as u64
            } else {
                (c + 3) as u64
            };
            let p = match first_index(folder.packed_indices.as_slice(), ci) {
                Some(p) => p,
                None => {
                    return Err(R7zError::Parse);
                },
            };
            let input = match packed_at(data, ranges, p) {
                Ok(v) => v,
                Err(e) => {
                    return Err(e);
                },
            };
            proof {
                assert(folder@.coders[c as int] == folder.coders@[c as int]@);
            }
            decompress_coder(&folder.coders[c], input.as_slice(), sizes[c], password)
        },
    }
}

/// Decode a folder of the BCJ2 layout whose BCJ2 coder is `b`, from the
/// packed streams at `ranges` in `data`, with the output sizes `sizes` of
/// its coders.
pub fn decompress_bcj2_folder(
    folder: &Folder,
    b: usize,
    data: &[u8],
    ranges: &[(usize, usize)],
    sizes: &[u64],
    password: Option<&str>,
) -> (r: Result<Vec<u8>, R7zError>)
    requires
        is_bcj2_layout(folder@, b as nat),
    ensures
        result_is(
            r,
            spec_decompress_bcj2_folder(folder@, b as nat, data@, ranges_view(ranges@), sizes@, opt_password(password)),
        ),
{
    if b >= sizes.len() || sizes[b] > usize::MAX as u64 || output_bound(folder.bind_pairs.as_slice(), b as u64) {
        return Err(R7zError::Parse);
    }
    let main = match bcj2_input(folder, b, 0, data, ranges, sizes, password) {
        Ok(v) => v,
        Err(e) => {
            return Err(e);
        },
    };
    let call = match bcj2_input(folder, b, 1, data, ranges, sizes, password) {
        Ok(v) => v,
        Err(e) => {
            return Err(e);
        },
    };
    let jump = match bcj2_input(folder, b, 2, data, ranges, sizes, password) {
        Ok(v) => v,
        Err(e) => {
            return Err(e);
        },
    };
    let rc = match bcj2_input(folder, b, 3, data, ranges, sizes, password) {
        Ok(v) => v,
        Err(e) => {
            return Err(e);
        },
    };
    bcj2_decode(main.as_slice(), call.as_slice(), jump.as_slice(), rc.as_slice(), sizes[b] as usize)
}

} // verus!
