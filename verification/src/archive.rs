//! Reading an archive held in memory: locating the signature header,
//! decoding the (possibly compressed) header, listing entries and
//! extracting them.
use vstd::prelude::*;
use vstd::string::StringSliceAdditionalSpecFns;
use crate::error::R7zError;
use crate::files_info::{spec_is_empty_stream, FilesInfo, FilesInfoView};
use crate::folder::{sum_in, sum_out, Folder, FolderView};
use crate::pack_info::{spec_folder_at, PackInfo, PackInfoView, UnpackInfo, UnpackInfoView};
use crate::stream_info::{one_stream_each, StreamInfo, SubstreamInfo, SubstreamInfoView};
use crate::crc::{crc32, crc32_of};
use crate::codec::{decompress_folder_with_password, opt_password, result_is, spec_decompress_folder, DecodeResult};
use crate::bcj2_folder::{bcj2_coder, decompress_bcj2_folder, ranges_view, spec_bcj2_coder, spec_decompress_bcj2_folder};
use crate::headers::{
    spec_parse_encoded_header, spec_parse_header, spec_signature_header, start_header_bytes, EncodedHeader,
    EncodedHeaderView, Header, HeaderView, SignatureHeader, SignatureHeaderView,
};
use crate::property::{spec_parse_property, Property};
use vstd::slice::{slice_subrange, slice_to_vec};
use crate::files_info::{spec_is_anti, spec_is_directory, spec_is_empty_file, spec_is_symlink, spec_name};
use crate::listing::{
    archive_is_solid, archive_method_names, folder_is_encrypted, folder_method_names, spec_coder_name, spec_is_solid,
    spec_method_names,
};

verus! {

// ---------------------------------------------------------------------------
// From an entry to its data stream, folder and position in the folder.
// ---------------------------------------------------------------------------

/// The model of an optional file listing.
pub open spec fn fi_view(fi: Option<&FilesInfo>) -> Option<FilesInfoView> {
    match fi {
        Some(f) => Some(f@),
        None => None,
    }
}

/// The model of an optional substreams block.
pub open spec fn si_view(si: Option<&SubstreamInfo>) -> Option<SubstreamInfoView> {
    match si {
        Some(s) => Some(s@),
        None => None,
    }
}

/// Entry `i` has no data stream.
pub open spec fn empty_in(fi: Option<FilesInfoView>, i: nat) -> bool {
    fi matches Some(f) && spec_is_empty_stream(f, i)
}

/// How many of the first `n` entries have a data stream.
pub open spec fn count_streams(fi: Option<FilesInfoView>, n: nat) -> nat
    decreases n,
{
    if n == 0 {
        0
    } else {
        count_streams(fi, (n - 1) as nat) + if empty_in(fi, (n - 1) as nat) { 0nat } else { 1nat }
    }
}

/// The data stream of entry `i`: the number of entries with data before it,
/// when it has data itself.
pub open spec fn spec_file_to_data_stream(fi: Option<FilesInfoView>, i: nat) -> Option<nat> {
    if empty_in(fi, i) { None } else { Some(count_streams(fi, i)) }
}

proof fn lemma_count_le(fi: Option<FilesInfoView>, n: nat)
    ensures
        count_streams(fi, n) <= n,
    decreases n,
{
    if n > 0 {
        lemma_count_le(fi, (n - 1) as nat);
    }
}

/// The data stream of entry `file_idx` (entries without data are skipped).
pub fn file_to_data_stream(file_idx: usize, fi: Option<&FilesInfo>) -> (r: Option<usize>)
    ensures
        r matches Some(x) ==> spec_file_to_data_stream(fi_view(fi), file_idx as nat) == Some(x as nat),
        r is None ==> spec_file_to_data_stream(fi_view(fi), file_idx as nat) is None,
{
    let ghost v = fi_view(fi);
    let mut data_idx: usize = 0;
    let mut i: usize = 0;
    while i < file_idx
        invariant
            i <= file_idx,
            v == fi_view(fi),
            data_idx == count_streams(v, i as nat),
        decreases file_idx - i,
    {
        proof {
            lemma_count_le(v, i as nat);
        }
        let empty = match fi {
            Some(f) => f.is_empty_stream(i),
            None => false,
        };
        if !empty {
            data_idx = data_idx + 1;
        }
        i = i + 1;
    }
    let empty = match fi {
        Some(f) => f.is_empty_stream(file_idx),
        None => false,
    };
    if empty { None } else { Some(data_idx) }
}

/// The number of data streams of each folder: as the substreams block says,
/// or one per folder.
pub open spec fn stream_counts(si: Option<SubstreamInfoView>, nf: nat) -> Seq<u64> {
    match si {
        Some(s) => s.num_unpack_streams_per_folder,
        None => one_stream_each(nf),
    }
}

/// The folder holding data stream `d` (counting from folder `f`), and the
/// stream's position in it.
pub open spec fn spec_locate(counts: Seq<u64>, d: int, f: nat) -> Option<(nat, nat)>
    decreases counts.len() - f,
{
    if f >= counts.len() || d < 0 {
        None
    } else if d < counts[f as int] {
        Some((f, d as nat))
    } else {
        spec_locate(counts, d - counts[f as int], f + 1)
    }
}

/// Map a global data-stream index to (folder, stream within the folder).
pub fn data_stream_to_folder(data_idx: usize, substream_info: Option<&SubstreamInfo>, num_folders: usize) -> (r: Option<
    (usize, usize),
>)
    ensures
        match spec_locate(stream_counts(si_view(substream_info), num_folders as nat), data_idx as int, 0) {
            None => r is None,
            Some((f, s)) => r matches Some((a, b)) && a as nat == f && b as nat == s,
        },
{
    proof {
        lemma_locate_range(stream_counts(si_view(substream_info), num_folders as nat), data_idx as int, 0);
    }
    let ghost counts = stream_counts(si_view(substream_info), num_folders as nat);
    let n: usize = match substream_info {
        Some(si) => si.num_unpack_streams_per_folder.len(),
        None => num_folders,
    };
    let mut rest: u64 = data_idx as u64;
    let mut f: usize = 0;
    while f < n
        invariant
            f <= n,
            n == counts.len(),
            counts == stream_counts(si_view(substream_info), num_folders as nat),
            rest <= data_idx,
            spec_locate(counts, data_idx as int, 0) == spec_locate(counts, rest as int, f as nat),
        decreases n - f,
    {
        let c: u64 = match substream_info {
            Some(si) => si.num_unpack_streams_per_folder[f],
            None => 1,
        };
        if rest < c {
            return Some((f, rest as usize));
        }
        rest = rest - c;
        f = f + 1;
    }
    None
}

// ---------------------------------------------------------------------------
// Packed streams of a folder.
// ---------------------------------------------------------------------------

/// The number of packed streams of a folder: its input streams not bound to
/// another coder.
pub open spec fn spec_num_pack_streams(f: FolderView) -> Result<nat, R7zError> {
    let tin = sum_in(f.coders);
    if tin > u64::MAX || tin < f.bind_pairs.len() || tin - f.bind_pairs.len() > usize::MAX {
        Err(R7zError::Parse)
    } else {
        Ok((tin - f.bind_pairs.len()) as nat)
    }
}

proof fn lemma_sum_in_step(cs: Seq<crate::coder_info::CoderInfoView>, j: int)
    requires
        0 <= j < cs.len(),
    ensures
        sum_in(cs.take(j + 1)) == sum_in(cs.take(j)) + cs[j].num_in_streams,
        sum_out(cs.take(j + 1)) == sum_out(cs.take(j)) + cs[j].num_out_streams,
{
    assert(cs.take(j + 1).drop_last() =~= cs.take(j));
}

proof fn lemma_sum_in_mono(cs: Seq<crate::coder_info::CoderInfoView>, j: int)
    requires
        0 <= j <= cs.len(),
    ensures
        sum_in(cs.take(j)) <= sum_in(cs),
        sum_out(cs.take(j)) <= sum_out(cs),
    decreases cs.len() - j,
{
    if j < cs.len() {
        lemma_sum_in_step(cs, j);
        lemma_sum_in_mono(cs, j + 1);
    } else {
        assert(cs.take(j) =~= cs);
    }
}

/// The number of packed streams of `folder`.
pub fn folder_num_pack_streams(folder: &Folder) -> (r: Result<usize, R7zError>)
    ensures
        match spec_num_pack_streams(folder@) {
            Err(e) => r == Err::<usize, R7zError>(e),
            Ok(n) => r == Ok::<usize, R7zError>(n as usize),
        },
{
    let ghost cs = folder@.coders;
    let mut num_in: u64 = 0;
    let mut j: usize = 0;
    while j < folder.coders.len()
        invariant
            j <= folder.coders@.len(),
            cs == folder@.coders,
            cs.len() == folder.coders@.len(),
            num_in == sum_in(cs.take(j as int)),
        decreases folder.coders@.len() - j,
    {
        proof {
            lemma_sum_in_step(cs, j as int);
            lemma_sum_in_mono(cs, j + 1);
            assert(cs[j as int] == folder.coders@[j as int]@);
        }
        num_in = match num_in.checked_add(folder.coders[j].num_in_streams) {
            Some(x) => x,
            None => {
                proof {
                    lemma_sum_in_mono(cs, j + 1);
                }
                return Err(R7zError::Parse);
            },
        };
        j = j + 1;
    }
    proof {
        assert(cs.take(cs.len() as int) =~= cs);
    }
    let nb = folder.bind_pairs.len() as u64;
    if num_in < nb {
        return Err(R7zError::Parse);
    }
    let np = num_in - nb;
    if np > usize::MAX as u64 {
        return Err(R7zError::Parse);
    }
    Ok(np as usize)
}

/// The index of the first packed stream of folder `k`: the packed streams of
/// the folders before it.
pub open spec fn spec_pack_stream_base(u: UnpackInfoView, k: nat) -> Result<nat, R7zError>
    decreases k,
{
    if k == 0 {
        Ok(0)
    } else {
        match spec_pack_stream_base(u, (k - 1) as nat) {
            Err(e) => Err(e),
            Ok(b) => match spec_folder_at(u, (k - 1) as nat) {
                None => Err(R7zError::Parse),
                Some(f) => match spec_num_pack_streams(f) {
                    Err(e) => Err(e),
                    Ok(n) => if b + n > usize::MAX { Err(R7zError::Parse) } else { Ok(b + n) },
                },
            },
        }
    }
}

/// The index of the first packed stream of folder `folder_idx`.
pub fn folder_pack_stream_base(folder_idx: usize, unpack_info: &UnpackInfo) -> (r: Result<usize, R7zError>)
    ensures
        match spec_pack_stream_base(unpack_info@, folder_idx as nat) {
            Err(e) => r == Err::<usize, R7zError>(e),
            Ok(b) => r == Ok::<usize, R7zError>(b as usize),
        },
{
    let mut base: usize = 0;
    let mut idx: usize = 0;
    while idx < folder_idx
        invariant
            idx <= folder_idx,
            spec_pack_stream_base(unpack_info@, idx as nat) == Ok::<nat, R7zError>(base as nat),
        decreases folder_idx - idx,
    {
        let folder = match unpack_info.parse_folder(idx) {
            Ok(f) => f,
            Err(e) => {
                proof {
                    lemma_base_err(unpack_info@, (idx + 1) as nat, folder_idx as nat);
                }
                return Err(e);
            },
        };
        let n = match folder_num_pack_streams(&folder) {
            Ok(n) => n,
            Err(e) => {
                proof {
                    lemma_base_err(unpack_info@, (idx + 1) as nat, folder_idx as nat);
                }
                return Err(e);
            },
        };
        base = match base.checked_add(n) {
            Some(b) => b,
            None => {
                proof {
                    lemma_base_err(unpack_info@, (idx + 1) as nat, folder_idx as nat);
                }
                return Err(R7zError::Parse);
            },
        };
        idx = idx + 1;
    }
    Ok(base)
}

proof fn lemma_base_err(u: UnpackInfoView, k: nat, m: nat)
    requires
        k <= m,
        spec_pack_stream_base(u, k) is Err,
    ensures
        spec_pack_stream_base(u, m) == spec_pack_stream_base(u, k),
    decreases m - k,
{
    if k < m {
        lemma_base_err(u, k, (m - 1) as nat);
    }
}

/// Sum of `xs`.
pub open spec fn seq_sum(xs: Seq<u64>) -> nat
    decreases xs.len(),
{
    if xs.len() == 0 { 0 } else { seq_sum(xs.drop_last()) + xs.last() as nat }
}

proof fn lemma_seq_sum_mono(xs: Seq<u64>, j: int)
    requires
        0 <= j <= xs.len(),
    ensures
        seq_sum(xs.take(j)) <= seq_sum(xs),
    decreases xs.len() - j,
{
    if j < xs.len() {
        assert(xs.take(j + 1).drop_last() =~= xs.take(j));
        lemma_seq_sum_mono(xs, j + 1);
    } else {
        assert(xs.take(j) =~= xs);
    }
}

/// Sum of `xs`, or `None` when it passes `limit`.
fn checked_sum(xs: &[u64], limit: u64) -> (r: Option<u64>)
    ensures
        seq_sum(xs@) <= limit ==> r == Some(seq_sum(xs@) as u64),
        seq_sum(xs@) > limit ==> r is None,
{
    let mut acc: u64 = 0;
    let mut i: usize = 0;
    while i < xs.len()
        invariant
            i <= xs@.len(),
            acc == seq_sum(xs@.take(i as int)),
            acc <= limit,
        decreases xs@.len() - i,
    {
        proof {
            assert(xs@.take(i + 1).drop_last() =~= xs@.take(i as int));
        }
        if xs[i] > limit - acc {
            proof {
                lemma_seq_sum_mono(xs@, i + 1);
            }
            return None;
        }
        acc = acc + xs[i];
        i = i + 1;
    }
    proof {
        assert(xs@.take(xs@.len() as int) =~= xs@);
    }
    Some(acc)
}

/// The total packed size of folder `k`.
pub open spec fn spec_folder_packed_size(p: PackInfoView, u: UnpackInfoView, k: nat) -> Result<u64, R7zError> {
    match spec_folder_at(u, k) {
        None => Err(R7zError::Parse),
        Some(f) => match spec_pack_stream_base(u, k) {
            Err(e) => Err(e),
            Ok(b) => match spec_num_pack_streams(f) {
                Err(e) => Err(e),
                Ok(n) => if b + n > p.pack_size.len() || b + n > usize::MAX {
                    Err(R7zError::Parse)
                } else if seq_sum(p.pack_size.subrange(b as int, (b + n) as int)) > u64::MAX {
                    Err(R7zError::Parse)
                } else {
                    Ok(seq_sum(p.pack_size.subrange(b as int, (b + n) as int)) as u64)
                },
            },
        },
    }
}

/// The total packed size of folder `folder_idx`.
pub fn folder_packed_size(folder_idx: usize, pack_info: &PackInfo, unpack_info: &UnpackInfo) -> (r: Result<u64, R7zError>)
    ensures
        r == spec_folder_packed_size(pack_info@, unpack_info@, folder_idx as nat),
{
    let folder = unpack_info.parse_folder(folder_idx)?;
    let base = folder_pack_stream_base(folder_idx, unpack_info)?;
    let num = folder_num_pack_streams(&folder)?;
    if num > pack_info.pack_size.len() || base > pack_info.pack_size.len() - num {
        return Err(R7zError::Parse);
    }
    let sizes = vstd::slice::slice_subrange(pack_info.pack_size.as_slice(), base, base + num);
    match checked_sum(sizes, u64::MAX) {
        Some(t) => Ok(t),
        None => Err(R7zError::Parse),
    }
}

/// Sum of the first `k` per-folder stream counts.
pub open spec fn prefix_count(counts: Seq<u64>, k: nat) -> nat {
    seq_sum(counts.take(k as int))
}

/// The index among all substreams of stream `s` of folder `k`.
pub open spec fn spec_substream_global_index(si: SubstreamInfoView, k: nat, s: nat) -> Result<nat, R7zError> {
    let counts = si.num_unpack_streams_per_folder;
    if k > counts.len() || prefix_count(counts, k) > usize::MAX || prefix_count(counts, k) + s > usize::MAX {
        Err(R7zError::Parse)
    } else {
        Ok(prefix_count(counts, k) + s)
    }
}

/// The index among all substreams of stream `stream_in_folder` of folder `folder_idx`.
pub fn substream_global_index(folder_idx: usize, stream_in_folder: usize, substream_info: &SubstreamInfo) -> (r: Result<
    usize,
    R7zError,
>)
    ensures
        match spec_substream_global_index(substream_info@, folder_idx as nat, stream_in_folder as nat) {
            Err(e) => r == Err::<usize, R7zError>(e),
            Ok(g) => r == Ok::<usize, R7zError>(g as usize),
        },
{
    if folder_idx > substream_info.num_unpack_streams_per_folder.len() {
        return Err(R7zError::Parse);
    }
    let prior_counts = vstd::slice::slice_subrange(substream_info.num_unpack_streams_per_folder.as_slice(), 0, folder_idx);
    proof {
        assert(prior_counts@ =~= substream_info@.num_unpack_streams_per_folder.take(folder_idx as int));
    }
    let prior = match checked_sum(prior_counts, usize::MAX as u64) {
        Some(p) => p as usize,
        None => {
            return Err(R7zError::Parse);
        },
    };
    prior.checked_add(stream_in_folder).ok_or(R7zError::Parse)
}

/// The digest of stream `s` of folder `k`: from the substreams block when
/// there is one, else the folder's own digest.
pub open spec fn spec_stream_crc(u: UnpackInfoView, si: Option<SubstreamInfoView>, k: nat, s: nat) -> Option<nat> {
    match si {
        Some(sub) => match spec_substream_global_index(sub, k, s) {
            Ok(g) => if g < sub.digests.len() { sub.digests[g as int] } else { None },
            Err(_) => None,
        },
        None => if k < u.digests.len() { u.digests[k as int] } else { None },
    }
}

/// The digest of stream `stream_in_folder` of folder `folder_idx`, if recorded.
pub fn stream_crc(
    folder_idx: usize,
    stream_in_folder: usize,
    unpack_info: &UnpackInfo,
    substream_info: Option<&SubstreamInfo>,
) -> (r: Option<u32>)
    ensures
        match spec_stream_crc(unpack_info@, si_view(substream_info), folder_idx as nat, stream_in_folder as nat) {
            None => r is None,
            Some(c) => r matches Some(x) && x as nat == c,
        },
{
    match substream_info {
        Some(sub) => match substream_global_index(folder_idx, stream_in_folder, sub) {
            Ok(g) => if g < sub.digests.len() { sub.digests[g] } else { None },
            Err(_) => None,
        },
        None => unpack_info.folder_digest(folder_idx),
    }
}

/// The output streams of folder `i`, counting one for a folder that does
/// not parse.
pub open spec fn outs_or_one(u: UnpackInfoView, i: nat) -> nat {
    match spec_folder_at(u, i) {
        Some(f) => sum_out(f.coders),
        None => 1,
    }
}

/// The position among all unpack sizes of the first output of folder `k`;
/// `None` when it passes `usize`.
pub open spec fn spec_out_base(u: UnpackInfoView, k: nat) -> Option<nat>
    decreases k,
{
    if k == 0 {
        Some(0)
    } else {
        match spec_out_base(u, (k - 1) as nat) {
            None => None,
            Some(b) => if b + outs_or_one(u, (k - 1) as nat) > usize::MAX {
                None
            } else {
                Some(b + outs_or_one(u, (k - 1) as nat))
            },
        }
    }
}

/// Output stream `j` of `f` feeds another coder.
pub open spec fn is_bound_out(f: FolderView, j: nat) -> bool {
    exists|b: int| 0 <= b < f.bind_pairs.len() && f.bind_pairs[b].1 == j
}

/// The first output stream of `f` from `j` on that feeds no coder.
pub open spec fn first_unbound(f: FolderView, j: nat) -> Option<nat>
    decreases sum_out(f.coders) - j,
{
    if j >= sum_out(f.coders) {
        None
    } else if !is_bound_out(f, j) {
        Some(j)
    } else {
        first_unbound(f, j + 1)
    }
}

/// Sum of the per-folder stream counts of the folders before `k`, each less one.
pub open spec fn explicit_prefix(counts: Seq<u64>, k: nat) -> nat
    decreases k,
{
    if k == 0 || k > counts.len() {
        0
    } else {
        explicit_prefix(counts, (k - 1) as nat) + if counts[k - 1] == 0 { 0nat } else { (counts[k - 1] - 1) as nat }
    }
}

/// The size of the final output of folder `k`: the output that feeds no
/// other coder. When the folder does not parse, the size at position `k`,
/// else the sum of its substream sizes.
pub open spec fn spec_folder_total_unpack_size(u: UnpackInfoView, si: Option<SubstreamInfoView>, k: nat) -> Result<u64, R7zError> {
    match spec_out_base(u, k) {
        None => Err(R7zError::Parse),
        Some(base) => match spec_folder_at(u, k) {
            Some(f) => {
                let n = sum_out(f.coders);
                let idx: int = if n == 1 {
                    base as int
                } else {
                    match first_unbound(f, 0) {
                        Some(j) => (base + j) as int,
                        None => base + n - 1,
                    }
                };
                if 0 <= idx < u.unpack_sizes.len() { Ok(u.unpack_sizes[idx]) } else { Err(R7zError::Parse) }
            },
            None => if k < u.unpack_sizes.len() {
                Ok(u.unpack_sizes[k as int])
            } else {
                match si {
                    None => Err(R7zError::Parse),
                    Some(sub) => {
                        let counts = sub.num_unpack_streams_per_folder;
                        if k >= counts.len() || prefix_count(counts, k) + counts[k as int] > usize::MAX {
                            Err(R7zError::Parse)
                        } else {
                            let start = prefix_count(counts, k);
                            let end = start + counts[k as int];
                            if end > sub.unpack_sizes.len() || seq_sum(sub.unpack_sizes.subrange(start as int, end as int)) > u64::MAX {
                                Err(R7zError::Parse)
                            } else {
                                Ok(seq_sum(sub.unpack_sizes.subrange(start as int, end as int)) as u64)
                            }
                        }
                    },
                }
            },
        },
    }
}

proof fn lemma_out_base_none(u: UnpackInfoView, k: nat, m: nat)
    requires
        k <= m,
        spec_out_base(u, k) is None,
    ensures
        spec_out_base(u, m) is None,
    decreases m - k,
{
    if k < m {
        lemma_out_base_none(u, k, (m - 1) as nat);
    }
}

fn out_base(unpack_info: &UnpackInfo, folder_idx: usize) -> (r: Option<usize>)
    ensures
        match spec_out_base(unpack_info@, folder_idx as nat) {
            None => r is None,
            Some(b) => r == Some(b as usize),
        },
{
    let mut base: usize = 0;
    let mut i: usize = 0;
    while i < folder_idx
        invariant
            i <= folder_idx,
            spec_out_base(unpack_info@, i as nat) == Some(base as nat),
        decreases folder_idx - i,
    {
        let add: usize = match unpack_info.parse_folder(i) {
            Ok(f) => {
                proof {
                    lemma_folder_sums_fit(unpack_info@, i as nat);
                }
                if sum_out_u64(&f) > (usize::MAX - base) as u64 {
                    proof {
                        lemma_out_base_none(unpack_info@, (i + 1) as nat, folder_idx as nat);
                    }
                    return None;
                }
                sum_out_u64(&f) as usize
            },
            Err(_) => 1,
        };
        if add > usize::MAX - base {
            proof {
                lemma_out_base_none(unpack_info@, (i + 1) as nat, folder_idx as nat);
            }
            return None;
        }
        base = base + add;
        i = i + 1;
    }
    Some(base)
}

/// A folder that parses has input and output totals within `u64`.
proof fn lemma_folder_sums_fit(u: UnpackInfoView, k: nat)
    ensures
        spec_folder_at(u, k) matches Some(f) ==> sum_in(f.coders) <= u64::MAX && sum_out(f.coders) <= u64::MAX,
{
}

/// The number of output streams of `f`.
fn sum_out_u64(f: &Folder) -> (r: u64)
    requires
        sum_out(f@.coders) <= u64::MAX,
    ensures
        r == sum_out(f@.coders),
{
    let ghost cs = f@.coders;
    let mut t: u64 = 0;
    let mut j: usize = 0;
    while j < f.coders.len()
        invariant
            j <= f.coders@.len(),
            cs == f@.coders,
            cs.len() == f.coders@.len(),
            sum_out(cs) <= u64::MAX,
            t == sum_out(cs.take(j as int)),
        decreases f.coders@.len() - j,
    {
        proof {
            lemma_sum_in_step(cs, j as int);
            lemma_sum_in_mono(cs, j + 1);
            assert(cs[j as int] == f.coders@[j as int]@);
        }
        t = t + f.coders[j].num_out_streams;
        j = j + 1;
    }
    proof {
        assert(cs.take(cs.len() as int) =~= cs);
    }
    t
}

proof fn lemma_first_unbound_range(f: FolderView, j: nat)
    ensures
        first_unbound(f, j) matches Some(x) ==> j <= x < sum_out(f.coders),
    decreases sum_out(f.coders) - j,
{
    if j < sum_out(f.coders) && is_bound_out(f, j) {
        lemma_first_unbound_range(f, j + 1);
    }
}

fn first_unbound_out(f: &Folder) -> (r: Option<u64>)
    requires
        sum_out(f@.coders) <= u64::MAX,
    ensures
        match first_unbound(f@, 0) {
            None => r is None,
            Some(j) => r == Some(j as u64) && j < sum_out(f@.coders),
        },
{
    proof {
        lemma_first_unbound_range(f@, 0);
    }
    let n = sum_out_u64(f);
    let mut j: u64 = 0;
    while j < n
        invariant
            j <= n,
            n == sum_out(f@.coders),
            first_unbound(f@, 0) == first_unbound(f@, j as nat),
        decreases n - j,
    {
        let mut bound = false;
        let mut b: usize = 0;
        while b < f.bind_pairs.len()
            invariant
                b <= f.bind_pairs@.len(),
                bound <==> exists|q: int| 0 <= q < b && f@.bind_pairs[q].1 == j,
            decreases f.bind_pairs@.len() - b,
        {
            proof {
                assert(f@.bind_pairs[b as int] == f.bind_pairs@[b as int]);
            }
            if f.bind_pairs[b].1 == j {
                bound = true;
            }
            b = b + 1;
        }
        if !bound {
            return Some(j);
        }
        j = j + 1;
    }
    None
}

/// The size of the final output of folder `folder_idx`.
pub fn folder_total_unpack_size(folder_idx: usize, unpack_info: &UnpackInfo, substream_info: Option<&SubstreamInfo>) -> (r: Result<
    u64,
    R7zError,
>)
    ensures
        r == spec_folder_total_unpack_size(unpack_info@, si_view(substream_info), folder_idx as nat),
{
    let base = match out_base(unpack_info, folder_idx) {
        Some(b) => b,
        None => {
            return Err(R7zError::Parse);
        },
    };
    match unpack_info.parse_folder(folder_idx) {
        Ok(folder) => {
            proof {
                lemma_folder_sums_fit(unpack_info@, folder_idx as nat);
            }
            let n = sum_out_u64(&folder);
            let _len = unpack_info.unpack_sizes_len();
            let idx: u64 = if n == 1 {
                base as u64
            } else {
                match first_unbound_out(&folder) {
                    Some(j) => {
                        if j > u64::MAX - base as u64 {
                            return Err(R7zError::Parse);
                        }
                        base as u64 + j
                    },
                    None => {
                        if n == 0 {
                            if base == 0 {
                                return Err(R7zError::Parse);
                            }
                            base as u64 - 1
                        } else {
                            if n - 1 > u64::MAX - base as u64 {
                                return Err(R7zError::Parse);
                            }
                            base as u64 + (n - 1)
                        }
                    },
                }
            };
            proof {
                let f = spec_folder_at(unpack_info@, folder_idx as nat)->Some_0;
                assert(f == folder@);
            }
            if idx > usize::MAX as u64 {
                return Err(R7zError::Parse);
            }
            unpack_info.unpack_size_at(idx as usize).ok_or(R7zError::Parse)
        },
        Err(_) => match unpack_info.unpack_size_at(folder_idx) {
            Some(sz) => Ok(sz),
            None => match substream_info {
                None => Err(R7zError::Parse),
                Some(si) => {
                    let counts = si.num_unpack_streams_per_folder.as_slice();
                    if folder_idx >= counts.len() {
                        return Err(R7zError::Parse);
                    }
                    let prior = vstd::slice::slice_subrange(counts, 0, folder_idx);
                    proof {
                        assert(prior@ =~= si@.num_unpack_streams_per_folder.take(folder_idx as int));
                    }
                    let start = match checked_sum(prior, usize::MAX as u64) {
                        Some(p) => p,
                        None => {
                            return Err(R7zError::Parse);
                        },
                    };
                    let n = counts[folder_idx];
                    if n > usize::MAX as u64 - start {
                        return Err(R7zError::Parse);
                    }
                    let end = (start + n) as usize;
                    let start = start as usize;
                    if end > si.unpack_sizes.len() {
                        return Err(R7zError::Parse);
                    }
                    let sizes = vstd::slice::slice_subrange(si.unpack_sizes.as_slice(), start, end);
                    checked_sum(sizes, u64::MAX).ok_or(R7zError::Parse)
                },
            },
        },
    }
}

/// The per-folder stream counts before folder `k`, each less one (the sizes
/// the substreams block stores explicitly for them).
fn explicit_sizes_before(counts: &[u64], k: usize) -> (r: Option<usize>)
    requires
        k <= counts@.len(),
    ensures
        explicit_prefix(counts@, k as nat) <= usize::MAX ==> r == Some(explicit_prefix(counts@, k as nat) as usize),
        explicit_prefix(counts@, k as nat) > usize::MAX ==> r is None,
{
    let mut acc: usize = 0;
    let mut i: usize = 0;
    while i < k
        invariant
            i <= k <= counts@.len(),
            acc == explicit_prefix(counts@, i as nat),
        decreases k - i,
    {
        let c = counts[i];
        let add: u64 = if c == 0 { 0 } else { c - 1 };
        if add > (usize::MAX - acc) as u64 {
            proof {
                lemma_explicit_prefix_mono(counts@, (i + 1) as nat, k as nat);
            }
            return None;
        }
        acc = acc + add as usize;
        i = i + 1;
    }
    Some(acc)
}

proof fn lemma_explicit_prefix_mono(counts: Seq<u64>, j: nat, k: nat)
    requires
        j <= k <= counts.len(),
    ensures
        explicit_prefix(counts, j) <= explicit_prefix(counts, k),
    decreases k - j,
{
    if j < k {
        lemma_explicit_prefix_mono(counts, j, (k - 1) as nat);
    }
}

/// Where stream `s` of folder `k` starts in the folder's decoded data: the
/// sum of the explicit sizes of the streams before it.
pub open spec fn spec_stream_offset(si: Option<SubstreamInfoView>, k: nat, s: nat) -> Result<nat, R7zError> {
    if s == 0 {
        Ok(0)
    } else {
        match si {
            None => Ok(0),
            Some(sub) => {
                let b = explicit_prefix(sub.num_unpack_streams_per_folder, k);
                if b + s > sub.unpack_sizes.len() || b + s > usize::MAX {
                    Err(R7zError::Parse)
                } else if seq_sum(sub.unpack_sizes.subrange(b as int, (b + s) as int)) > usize::MAX {
                    Err(R7zError::Parse)
                } else {
                    Ok(seq_sum(sub.unpack_sizes.subrange(b as int, (b + s) as int)))
                }
            },
        }
    }
}

/// Byte offset of stream `stream_in_folder` within the decoded folder data.
pub fn stream_offset_in_folder(folder_idx: usize, stream_in_folder: usize, substream_info: Option<&SubstreamInfo>) -> (r: Result<
    usize,
    R7zError,
>)
    requires
        substream_info matches Some(x) ==> (stream_in_folder != 0 ==> folder_idx <= x@.num_unpack_streams_per_folder.len()),
    ensures
        match spec_stream_offset(si_view(substream_info), folder_idx as nat, stream_in_folder as nat) {
            Err(e) => r == Err::<usize, R7zError>(e),
            Ok(o) => r == Ok::<usize, R7zError>(o as usize),
        },
{
    if stream_in_folder == 0 {
        return Ok(0);
    }
    let si = match substream_info {
        Some(si) => si,
        None => {
            return Ok(0);
        },
    };
    let base = match explicit_sizes_before(si.num_unpack_streams_per_folder.as_slice(), folder_idx) {
        Some(b) => b,
        None => {
            return Err(R7zError::Parse);
        },
    };
    if stream_in_folder > usize::MAX - base || base + stream_in_folder > si.unpack_sizes.len() {
        return Err(R7zError::Parse);
    }
    let sizes = vstd::slice::slice_subrange(si.unpack_sizes.as_slice(), base, base + stream_in_folder);
    match checked_sum(sizes, usize::MAX as u64) {
        Some(t) => Ok(t as usize),
        None => Err(R7zError::Parse),
    }
}

/// The number of streams of folder `k` (one when no substreams block says otherwise).
pub open spec fn streams_in_folder(si: Option<SubstreamInfoView>, k: nat) -> u64 {
    match si {
        Some(sub) => if k < sub.num_unpack_streams_per_folder.len() { sub.num_unpack_streams_per_folder[k as int] } else { 1 },
        None => 1,
    }
}

/// The size of stream `s` of folder `k`: an explicit size, or for the last
/// stream what is left of the folder's size.
pub open spec fn spec_stream_size(u: UnpackInfoView, si: Option<SubstreamInfoView>, k: nat, s: nat) -> Result<nat, R7zError> {
    let n = streams_in_folder(si, k);
    let total = spec_folder_total_unpack_size(u, si, k);
    if n == 1 || si is None {
        match total {
            Err(e) => Err(e),
            Ok(t) => if t > usize::MAX { Err(R7zError::Parse) } else { Ok(t as nat) },
        }
    } else {
        let sub = si->Some_0;
        let b = explicit_prefix(sub.num_unpack_streams_per_folder, k);
        if s + 1 < n {
            if b + s >= sub.unpack_sizes.len() || sub.unpack_sizes[(b + s) as int] > usize::MAX {
                Err(R7zError::Parse)
            } else {
                Ok(sub.unpack_sizes[(b + s) as int] as nat)
            }
        } else {
            match total {
                Err(e) => Err(e),
                Ok(t) => if t > usize::MAX {
                    Err(R7zError::Parse)
                } else if n == 0 || b + n - 1 > sub.unpack_sizes.len() || b + n - 1 > usize::MAX {
                    Err(R7zError::Parse)
                } else {
                    let explicit = seq_sum(sub.unpack_sizes.subrange(b as int, b + n - 1));
                    if explicit > usize::MAX || explicit > t {
                        Err(R7zError::Parse)
                    } else {
                        Ok((t - explicit) as nat)
                    }
                },
            }
        }
    }
}

proof fn lemma_total_err_is_parse(u: UnpackInfoView, si: Option<SubstreamInfoView>, k: nat)
    ensures
        spec_folder_total_unpack_size(u, si, k) is Err ==> spec_folder_total_unpack_size(u, si, k) == Err::<u64, R7zError>(
            R7zError::Parse,
        ),
{
}

/// Size of stream `stream_in_folder` within the decoded data of folder `folder_idx`.
pub fn stream_size_at(
    folder_idx: usize,
    stream_in_folder: usize,
    substream_info: Option<&SubstreamInfo>,
    unpack_info: &UnpackInfo,
) -> (r: Result<usize, R7zError>)
    ensures
        match spec_stream_size(unpack_info@, si_view(substream_info), folder_idx as nat, stream_in_folder as nat) {
            Err(e) => r == Err::<usize, R7zError>(e),
            Ok(z) => r == Ok::<usize, R7zError>(z as usize),
        },
{
    let n: u64 = match substream_info {
        Some(si) => if folder_idx < si.num_unpack_streams_per_folder.len() {
            si.num_unpack_streams_per_folder[folder_idx]
        } else {
            1
        },
        None => 1,
    };
    let si = match substream_info {
        Some(si) => si,
        None => {
            let t = folder_total_unpack_size(folder_idx, unpack_info, substream_info)?;
            if t > usize::MAX as u64 {
                return Err(R7zError::Parse);
            }
            return Ok(t as usize);
        },
    };
    if n == 1 {
        let t = folder_total_unpack_size(folder_idx, unpack_info, substream_info)?;
        if t > usize::MAX as u64 {
            return Err(R7zError::Parse);
        }
        return Ok(t as usize);
    }
    let counts = si.num_unpack_streams_per_folder.as_slice();
    let ulen = si.unpack_sizes.len();
    proof {
        lemma_total_err_is_parse(unpack_info@, si_view(substream_info), folder_idx as nat);
    }
    let base = match explicit_sizes_before(counts, folder_idx) {
        Some(b) => b,
        None => {
            return Err(R7zError::Parse);
        },
    };
    if n > 0 && (stream_in_folder as u64) < n - 1 {
        if stream_in_folder >= usize::MAX - base || base + stream_in_folder >= ulen {
            return Err(R7zError::Parse);
        }
        let z = si.unpack_sizes[base + stream_in_folder];
        if z > usize::MAX as u64 {
            return Err(R7zError::Parse);
        }
        Ok(z as usize)
    } else {
        let t = folder_total_unpack_size(folder_idx, unpack_info, substream_info)?;
        if t > usize::MAX as u64 {
            return Err(R7zError::Parse);
        }
        if n == 0 || n - 1 > (usize::MAX - base) as u64 || base + (n - 1) as usize > si.unpack_sizes.len() {
            return Err(R7zError::Parse);
        }
        let sizes = vstd::slice::slice_subrange(si.unpack_sizes.as_slice(), base, base + (n - 1) as usize);
        let explicit = match checked_sum(sizes, usize::MAX as u64) {
            Some(e) => e,
            None => {
                return Err(R7zError::Parse);
            },
        };
        if explicit > t {
            return Err(R7zError::Parse);
        }
        Ok((t - explicit) as usize)
    }
}

// ---------------------------------------------------------------------------
// Opening an archive.
// ---------------------------------------------------------------------------

/// The default cap on the size of the archive's metadata (64 MiB).
pub const DEFAULT_MAX_METADATA_BYTES: u64 = 0x400_0000;

/// How the archive file is accessed when it is opened from disk.
#[derive(Clone, Copy, Debug, PartialEq, Eq)]
pub enum ArchiveStorageMode {
    Mmap,
    Seek,
}

/// Options for opening an archive.
#[derive(Clone, Copy, Debug, PartialEq, Eq)]
pub struct ArchiveOpenOptions {
    /// The largest header (packed, unpacked or plain) that is accepted.
    pub max_metadata_bytes: u64,
    pub storage_mode: ArchiveStorageMode,
}

impl Default for ArchiveOpenOptions {
    fn default() -> (r: Self)
        ensures
            r.max_metadata_bytes == DEFAULT_MAX_METADATA_BYTES,
            r.storage_mode == ArchiveStorageMode::Mmap,
    {
        ArchiveOpenOptions { max_metadata_bytes: DEFAULT_MAX_METADATA_BYTES, storage_mode: ArchiveStorageMode::Mmap }
    }
}

/// The 7z magic bytes.
pub open spec fn magic() -> Seq<u8> {
    seq![0x37u8, 0x7au8, 0xbcu8, 0xafu8, 0x27u8, 0x1cu8]
}

/// The signature header at `p` carries a correct start-header digest.
pub open spec fn sig_valid_at(d: Seq<u8>, p: int) -> bool {
    let h = spec_signature_header(d.subrange(p, p + 32));
    crc32(start_header_bytes(h.next_header_offset, h.next_header_size, h.next_header_crc)) == h.start_header_crc
}

/// Scan for the signature header from position `p`, looking at magic bytes
/// that lie within the first `scan` bytes: the first complete candidate with
/// a correct digest; else `Crc` when a complete candidate had a wrong digest
/// (`bad`), else `Parse`.
pub open spec fn spec_scan_signature(d: Seq<u8>, scan: int, p: int, bad: bool) -> Result<nat, R7zError>
    decreases scan - p,
{
    if p < 0 || p + 6 > scan {
        if bad { Err(R7zError::Crc) } else { Err(R7zError::Parse) }
    } else if d.subrange(p, p + 6) == magic() && p + 32 <= d.len() {
        if sig_valid_at(d, p) { Ok(p as nat) } else { spec_scan_signature(d, scan, p + 1, true) }
    } else {
        spec_scan_signature(d, scan, p + 1, bad)
    }
}

proof fn lemma_scan_ok(d: Seq<u8>, scan: int, p: int, bad: bool)
    ensures
        spec_scan_signature(d, scan, p, bad) matches Ok(q) ==> q + 32 <= d.len() && sig_valid_at(d, q as int),
    decreases scan - p,
{
    if !(p < 0 || p + 6 > scan) {
        lemma_scan_ok(d, scan, p + 1, true);
        lemma_scan_ok(d, scan, p + 1, bad);
    }
}

fn is_magic_at(d: &[u8], p: usize) -> (r: bool)
    requires
        p + 6 <= d@.len(),
    ensures
        r == (d@.subrange(p as int, p + 6) == magic()),
{
    let r = d[p] == 0x37 && d[p + 1] == 0x7a && d[p + 2] == 0xbc && d[p + 3] == 0xaf && d[p + 4] == 0x27 && d[p + 5]
        == 0x1c;
    proof {
        if r {
            assert(d@.subrange(p as int, p + 6) =~= magic());
        } else {
            if d@.subrange(p as int, p + 6) == magic() {
                assert(d@.subrange(p as int, p + 6)[0] == d@[p as int]);
                assert(d@.subrange(p as int, p + 6)[1] == d@[p + 1]);
                assert(d@.subrange(p as int, p + 6)[2] == d@[p + 2]);
                assert(d@.subrange(p as int, p + 6)[3] == d@[p + 3]);
                assert(d@.subrange(p as int, p + 6)[4] == d@[p + 4]);
                assert(d@.subrange(p as int, p + 6)[5] == d@[p + 5]);
            }
        }
    }
    r
}

/// The outer header of an archive whose main header is stored compressed:
/// what [`ArchiveMetadata::parse`] gives, or its error. The signature header
/// is the first one with a correct digest; its next header must lie within
/// the bytes and start with the `EncodedHeader` tag.
pub open spec fn spec_metadata(data: Seq<u8>) -> Result<(SignatureHeaderView, EncodedHeaderView), R7zError> {
    match spec_scan_signature(data, data.len() as int, 0, false) {
        Err(e) => Err(e),
        Ok(base) => {
            let ad = data.skip(base as int);
            let sig = spec_signature_header(ad);
            if crc32(start_header_bytes(sig.next_header_offset, sig.next_header_size, sig.next_header_crc))
                != sig.start_header_crc {
                Err(R7zError::Crc)
            } else if 32 + sig.next_header_offset + sig.next_header_size > ad.len() {
                Err(R7zError::Parse)
            } else {
                match spec_parse_property(ad.skip(32 + sig.next_header_offset)) {
                    Some(Property::EncodedHeader) => match spec_parse_encoded_header(
                        ad.skip(33 + sig.next_header_offset),
                    ) {
                        Some((_, v)) => Ok((sig, v)),
                        None => Err(R7zError::Parse),
                    },
                    _ => Err(R7zError::Parse),
                }
            }
        },
    }
}

/// Metadata from the outer header of a 7z archive (`EncodedHeader` only).
pub struct ArchiveMetadata {
    pub signature: SignatureHeader,
    pub encoded_header: EncodedHeader,
}

impl ArchiveMetadata {
    /// Parse the outer header of a 7z archive from raw bytes: `Parse` when
    /// they are not an `EncodedHeader` archive, `Crc` when the start-header
    /// digest does not match.
    pub fn parse(data: &[u8]) -> (r: Result<ArchiveMetadata, R7zError>)
        ensures
            match spec_metadata(data@) {
                Err(e) => r matches Err(x) && x == e,
                Ok((s, h)) => r matches Ok(m) && m.signature@ == s && m.encoded_header@ == h,
            },
    {
        let base = find_signature_offset(data, data.len() as u64)?;
        let ad = slice_subrange(data, base, data.len());
        proof {
            assert(ad@ =~= data@.skip(base as int));
        }
        let (input, signature) = match SignatureHeader::parse(ad) {
            Ok(x) => x,
            Err(_) => {
                return Err(R7zError::Parse);
            },
        };
        signature.validate_start_header_crc()?;
        let off = signature.next_header_offset;
        if off > ad.len() as u64 || 32 > ad.len() as u64 - off || signature.next_header_size > ad.len() as u64 - 32
            - off {
            return Err(R7zError::Parse);
        }
        let off = off as usize;
        let (rest, prop) = match crate::property::find_next_property_id(input, off) {
            Ok(x) => x,
            Err(_) => {
                return Err(R7zError::Parse);
            },
        };
        proof {
            assert(input@.skip(off as int) =~= ad@.skip(32 + off));
            assert(input@.skip(off + 1) =~= ad@.skip(33 + off));
        }
        match prop {
            Property::EncodedHeader => {
                let (_, encoded_header) = match EncodedHeader::parse(rest) {
                    Ok(x) => x,
                    Err(_) => {
                        return Err(R7zError::Parse);
                    },
                };
                Ok(ArchiveMetadata { signature, encoded_header })
            },
            _ => Err(R7zError::Parse),
        }
    }
}

/// The offset of the signature header among the first `limit` bytes of `data`.
pub fn find_signature_offset(data: &[u8], limit: u64) -> (r: Result<usize, R7zError>)
    ensures
        match spec_scan_signature(data@, if data@.len() < limit { data@.len() as int } else { limit as int }, 0, false) {
            Err(e) => r == Err::<usize, R7zError>(e),
            Ok(p) => r matches Ok(q) && q as nat == p,
        },
        r matches Ok(p) ==> p + 32 <= data@.len(),
{
    proof {
        lemma_scan_ok(data@, if data@.len() < limit { data@.len() as int } else { limit as int }, 0, false);
    }
    let scan: usize = if (data.len() as u64) < limit { data.len() } else { limit as usize };
    let mut bad = false;
    let mut p: usize = 0;
    while p <= scan && scan - p >= 6
        invariant
            p <= scan + 1,
            scan <= data@.len(),
            scan == (if data@.len() < limit { data@.len() as int } else { limit as int }),
            spec_scan_signature(data@, scan as int, 0, false) == spec_scan_signature(data@, scan as int, p as int, bad),
        decreases scan - p,
    {
        if is_magic_at(data, p) && data.len() - p >= 32 {
            let (_, sig) = match SignatureHeader::parse(slice_subrange(data, p, p + 32)) {
                Ok(x) => x,
                Err(_) => {
                    return Err(R7zError::Parse);
                },
            };
            match sig.validate_start_header_crc() {
                Ok(()) => {
                    return Ok(p);
                },
                Err(_) => {
                    bad = true;
                },
            }
        }
        p = p + 1;
    }
    if bad { Err(R7zError::Crc) } else { Err(R7zError::Parse) }
}

/// The size of the final output of the encoded header's folder.
pub open spec fn spec_header_unpack_size(u: UnpackInfoView, f: FolderView) -> Option<u64> {
    let n = sum_out(f.coders);
    let idx: int = if n <= 1 {
        0
    } else {
        match first_unbound(f, 0) {
            Some(j) => j as int,
            None => n - 1,
        }
    };
    if 0 <= idx < u.unpack_sizes.len() { Some(u.unpack_sizes[idx]) } else { None }
}

/// The outcome of locating and decoding an archive's header.
pub enum OpenOutcome {
    /// The signature header's offset and the bytes the main header is
    /// parsed from.
    Located(nat, Seq<u8>),
    Failed(R7zError),
    /// The header is compressed with the codec of this id, which is not supported.
    Unsupported(Seq<u8>),
}

/// What opening `d` gives: the offset of the signature header and the bytes
/// the main header is parsed from (decoded first when it is stored
/// compressed), or the error.
pub open spec fn spec_open(d: Seq<u8>, password: Option<Seq<char>>, max: u64) -> OpenOutcome {
    match spec_open_raw(d, password, max) {
        Err(e) => OpenOutcome::Failed(e),
        Ok((base, DecodeResult::Data(h))) => OpenOutcome::Located(base, h),
        Ok((_, DecodeResult::Failure(e))) => OpenOutcome::Failed(e),
        Ok((_, DecodeResult::Unsupported(id))) => OpenOutcome::Unsupported(id),
    }
}

/// The offset of the signature header and the decoding of the main header's bytes.
pub open spec fn spec_open_raw(d: Seq<u8>, password: Option<Seq<char>>, max: u64) -> Result<(nat, DecodeResult), R7zError> {
    if d.len() < 32 {
        Err(R7zError::Parse)
    } else {
        let scan: int = if d.len() < DEFAULT_MAX_METADATA_BYTES { d.len() as int } else { DEFAULT_MAX_METADATA_BYTES as int };
        match spec_scan_signature(d, scan, 0, false) {
            Err(e) => Err(e),
            Ok(base) => {
                let sig = spec_signature_header(d.subrange(base as int, (base + 32) as int));
                if sig.next_header_size > max {
                    Err(R7zError::LimitExceeded("metadata"))
                } else if base + 32 + sig.next_header_offset > u64::MAX
                    || base + 32 + sig.next_header_offset + sig.next_header_size > d.len() {
                    Err(R7zError::Parse)
                } else {
                    let start = base + 32 + sig.next_header_offset;
                    let next = d.subrange(start as int, (start + sig.next_header_size) as int);
                    if crc32(next) != sig.next_header_crc {
                        Err(R7zError::Crc)
                    } else {
                        match spec_parse_property(next) {
                            Some(Property::Header) => Ok((base, DecodeResult::Data(next))),
                            Some(Property::EncodedHeader) => match spec_parse_encoded_header(next.skip(1)) {
                                None => Err(R7zError::Parse),
                                Some((_, eh)) => {
                                    let pi = eh.pack_info;
                                    let ui = eh.unpack_info;
                                    if base + 32 + pi.pack_pos > u64::MAX || pi.pack_size.len() == 0 {
                                        Err(R7zError::Parse)
                                    } else if pi.pack_size[0] > max {
                                        Err(R7zError::LimitExceeded("metadata"))
                                    } else if base + 32 + pi.pack_pos + pi.pack_size[0] > d.len() {
                                        Err(R7zError::Parse)
                                    } else {
                                        let ps = base + 32 + pi.pack_pos;
                                        let packed = d.subrange(ps as int, (ps + pi.pack_size[0]) as int);
                                        match spec_folder_at(ui, 0) {
                                            None => Err(R7zError::Parse),
                                            Some(f) => match spec_header_unpack_size(ui, f) {
                                                None => Err(R7zError::Parse),
                                                Some(us) => if us > max {
                                                    Err(R7zError::LimitExceeded("metadata"))
                                                } else {
                                                    Ok((base, spec_decompress_folder(f, packed, us, password)))
                                                },
                                            },
                                        }
                                    }
                                },
                            },
                            _ => Err(R7zError::Parse),
                        }
                    }
                }
            },
        }
    }
}

/// An archive held in memory, with its header decoded.
pub struct Archive {
    data: Vec<u8>,
    base_offset: usize,
    pub signature: SignatureHeader,
    /// Present when the main header is stored compressed.
    pub encoded_header: Option<EncodedHeader>,
    pub header: Header,
}

/// The executable form of an opening outcome, once the main header bytes
/// have been parsed.
pub open spec fn opened_as(r: Result<Archive, R7zError>, o: OpenOutcome, d: Seq<u8>) -> bool {
    match o {
        OpenOutcome::Failed(e) => r == Err::<Archive, R7zError>(e),
        OpenOutcome::Unsupported(id) => r matches Err(R7zError::UnsupportedCodec(v)) && v@ == id,
        OpenOutcome::Located(base, h) => match spec_parse_header(h) {
            None => r == Err::<Archive, R7zError>(R7zError::Parse),
            Some((_, v)) => r matches Ok(a) && a.header_model() == v && a.base() == base && a.bytes() == d,
        },
    }
}

impl Archive {
    /// The bytes the archive was read from.
    pub closed spec fn bytes(&self) -> Seq<u8> {
        self.data@
    }

    /// The model of the decoded main header.
    pub closed spec fn header_model(&self) -> HeaderView {
        self.header@
    }

    /// The offset of the signature header in those bytes.
    pub closed spec fn base(&self) -> nat {
        self.base_offset as nat
    }

    /// Parse a 7z archive from in-memory bytes.
    pub fn from_bytes(data: Vec<u8>) -> (r: Result<Archive, R7zError>)
        ensures
            opened_as(r, spec_open(data@, None, DEFAULT_MAX_METADATA_BYTES), data@),
    {
        Self::from_bytes_with_password(data, None)
    }

    /// Parse a 7z archive from in-memory bytes, with an optional password
    /// for an encrypted header.
    pub fn from_bytes_with_password(data: Vec<u8>, password: Option<&str>) -> (r: Result<Archive, R7zError>)
        ensures
            opened_as(r, spec_open(data@, opt_password(password), DEFAULT_MAX_METADATA_BYTES), data@),
    {
        Self::from_source_with_password(data, password, ArchiveOpenOptions::default())
    }

    /// Locate the signature header, check it and the next header's digest,
    /// decode the header when it is stored compressed, and parse it.
    pub fn from_source_with_password(data: Vec<u8>, password: Option<&str>, options: ArchiveOpenOptions) -> (r: Result<
        Archive,
        R7zError,
    >)
        ensures
            opened_as(r, spec_open(data@, opt_password(password), options.max_metadata_bytes), data@),
    {
        let max = options.max_metadata_bytes;
        if data.len() < 32 {
            return Err(R7zError::Parse);
        }
        let base = find_signature_offset(data.as_slice(), DEFAULT_MAX_METADATA_BYTES)?;
        let (_, signature) = match SignatureHeader::parse(slice_subrange(data.as_slice(), base, base + 32)) {
            Ok(x) => x,
            Err(_) => {
                return Err(R7zError::Parse);
            },
        };
        if signature.next_header_size > max {
            return Err(R7zError::LimitExceeded("metadata"));
        }
        let b32 = base as u64 + 32;
        if signature.next_header_offset > u64::MAX - b32 {
            return Err(R7zError::Parse);
        }
        let start = b32 + signature.next_header_offset;
        if start > data.len() as u64 || signature.next_header_size > data.len() as u64 - start {
            return Err(R7zError::Parse);
        }
        let start = start as usize;
        let end = start + signature.next_header_size as usize;
        let next = slice_subrange(data.as_slice(), start, end);
        if crc32_of(next) != signature.next_header_crc {
            return Err(R7zError::Crc);
        }
        let (rest, prop) = match Property::parse(next) {
            Ok(x) => x,
            Err(_) => {
                return Err(R7zError::Parse);
            },
        };
        match prop {
            Property::Header => {
                let header = match Header::parse(next) {
                    Ok((_, h)) => h,
                    Err(_) => {
                        return Err(R7zError::Parse);
                    },
                };
                Ok(Archive { data, base_offset: base, signature, encoded_header: None, header })
            },
            Property::EncodedHeader => {
                let (_, encoded_header) = match EncodedHeader::parse(rest) {
                    Ok(x) => x,
                    Err(_) => {
                        return Err(R7zError::Parse);
                    },
                };
                let pi = &encoded_header.pack_info;
                if pi.pack_pos > u64::MAX - b32 || pi.pack_size.len() == 0 {
                    return Err(R7zError::Parse);
                }
                let pack_size = pi.pack_size[0];
                if pack_size > max {
                    return Err(R7zError::LimitExceeded("metadata"));
                }
                let ps = b32 + pi.pack_pos;
                if ps > data.len() as u64 || pack_size > data.len() as u64 - ps {
                    return Err(R7zError::Parse);
                }
                let ps = ps as usize;
                let packed = slice_subrange(data.as_slice(), ps, ps + pack_size as usize);
                let folder = encoded_header.unpack_info.parse_folder(0)?;
                proof {
                    lemma_folder_sums_fit(encoded_header.unpack_info@, 0);
                }
                let n = sum_out_u64(&folder);
                let idx: u64 = if n <= 1 {
                    0
                } else {
                    match first_unbound_out(&folder) {
                        Some(j) => j,
                        None => n - 1,
                    }
                };
                let nsizes = encoded_header.unpack_info.unpack_sizes_len();
                if idx >= nsizes as u64 {
                    return Err(R7zError::Parse);
                }
                let unpack_size = match encoded_header.unpack_info.unpack_size_at(idx as usize) {
                    Some(u) => u,
                    None => {
                        return Err(R7zError::Parse);
                    },
                };
                if unpack_size > max {
                    return Err(R7zError::LimitExceeded("metadata"));
                }
                let decoded = decompress_folder_with_password(&folder, packed, unpack_size, password)?;
                let header = match Header::parse(decoded.as_slice()) {
                    Ok((_, h)) => h,
                    Err(_) => {
                        return Err(R7zError::Parse);
                    },
                };
                Ok(Archive { data, base_offset: base, signature, encoded_header: Some(encoded_header), header })
            },
            _ => Err(R7zError::Parse),
        }
    }

    /// The number of entries that `num_files` reports.
    pub open spec fn file_count(&self) -> nat {
        if self.header_model().num_files <= usize::MAX {
            self.header_model().num_files as nat
        } else {
            0
        }
    }

    /// Number of entries (files, directories, anti-items) listed in the archive.
    pub fn num_files(&self) -> (r: usize)
        ensures
            r == (if self.header_model().num_files <= usize::MAX { self.header_model().num_files as usize } else { 0 }),
    {
        let n = self.header.num_files();
        if n <= usize::MAX as u64 { n as usize } else { 0 }
    }

    /// The file listing, when the header has one.
    pub fn files_info(&self) -> (r: Option<FilesInfo>)
        ensures
            match crate::headers::spec_header_files(self.header_model()) {
                None => r is None,
                Some(v) => r matches Some(fi) && fi@ == v,
            },
    {
        self.header.files_info()
    }

    /// The streams descriptor, when the header has one.
    pub fn streams_info(&self) -> (r: Option<StreamInfo>)
        ensures
            match crate::headers::spec_header_streams(self.header_model()) {
                None => r is None,
                Some(v) => r matches Some(si) && si@ == v,
            },
    {
        self.header.streams_info()
    }
}

// ---------------------------------------------------------------------------
// Locating an entry's data.
// ---------------------------------------------------------------------------

/// Where the data of an entry is: its folder, the byte ranges of the
/// folder's packed streams, and the stream's place in the decoded folder.
pub struct LocationView {
    pub folder_idx: nat,
    pub folder: FolderView,
    pub packed_ranges: Seq<(nat, nat)>,
    pub folder_unpack_size: u64,
    pub stream_start: nat,
    pub stream_size: nat,
    pub folder_digest: Option<nat>,
    pub substream_digest: Option<nat>,
}

/// The byte ranges of packed streams of sizes `sizes`, laid out one after the
/// other from `start + offset`, each within the first `len` bytes.
pub open spec fn spec_ranges(sizes: Seq<u64>, start: nat, offset: nat, len: nat) -> Option<Seq<(nat, nat)>>
    decreases sizes.len(),
{
    if sizes.len() == 0 {
        Some(Seq::empty())
    } else if start + offset > u64::MAX || start + offset + sizes[0] > len || offset + sizes[0] > u64::MAX {
        None
    } else {
        match spec_ranges(sizes.skip(1), start, (offset + sizes[0]) as nat, len) {
            None => None,
            Some(rest) => Some(seq![((start + offset) as nat, (start + offset + sizes[0]) as nat)] + rest),
        }
    }
}

/// The first steps of locating entry `idx`: the header's stream blocks, the
/// folder and stream within it, and the folder's packed streams (first
/// index and count).
pub struct PlaceView {
    pub pack: PackInfoView,
    pub unpack: UnpackInfoView,
    pub sub: Option<SubstreamInfoView>,
    pub k: nat,
    pub s: nat,
    pub folder: FolderView,
    pub pb: nat,
    pub np: nat,
}

/// Find the folder, the stream within it and the packed streams of entry `idx`.
pub open spec fn spec_place(hv: HeaderView, idx: nat) -> Result<PlaceView, R7zError> {
    let fi = crate::headers::spec_header_files(hv);
    match crate::headers::spec_header_streams(hv) {
        None => Err(R7zError::Parse),
        Some(streams) => match (streams.pack_info, streams.unpack_info) {
            (Some(pack), Some(unpack)) => {
                let sub = streams.substream_info;
                match spec_file_to_data_stream(fi, idx) {
                    None => Err(R7zError::Parse),
                    Some(d) => if unpack.num_folders > usize::MAX {
                        Err(R7zError::Parse)
                    } else {
                        match spec_locate(stream_counts(sub, unpack.num_folders as nat), d as int, 0) {
                            None => Err(R7zError::Parse),
                            Some((k, s)) => match spec_folder_at(unpack, k) {
                                None => Err(R7zError::Parse),
                                Some(folder) => match spec_pack_stream_base(unpack, k) {
                                    Err(e) => Err(e),
                                    Ok(pb) => match spec_num_pack_streams(folder) {
                                        Err(e) => Err(e),
                                        Ok(np) => Ok(PlaceView { pack, unpack, sub, k, s, folder, pb, np }),
                                    },
                                },
                            },
                        }
                    },
                }
            },
            _ => Err(R7zError::Parse),
        },
    }
}

/// The rest of locating: the byte ranges of the packed streams in `bytes`
/// (signature header at `base`), the folder's size, and the stream's place,
/// size and digests.
pub open spec fn spec_location_from(bytes: Seq<u8>, base: nat, pl: PlaceView) -> Result<LocationView, R7zError> {
    let pack = pl.pack;
    let unpack = pl.unpack;
    let sub = pl.sub;
    let k = pl.k;
    let s = pl.s;
    let pb = pl.pb;
    let np = pl.np;
    if pb > pack.pack_size.len() || seq_sum(pack.pack_size.take(pb as int)) > u64::MAX || base + 32 + pack.pack_pos > u64::MAX
        || pb + np > usize::MAX || pb + np > pack.pack_size.len() {
        Err(R7zError::Parse)
    } else {
        let sizes = pack.pack_size.subrange(pb as int, (pb + np) as int);
        match spec_ranges(sizes, (base + 32 + pack.pack_pos) as nat, seq_sum(pack.pack_size.take(pb as int)), bytes.len()) {
            None => Err(R7zError::Parse),
            Some(ranges) => match spec_folder_total_unpack_size(unpack, sub, k) {
                Err(e) => Err(e),
                Ok(total) => match spec_stream_offset(sub, k, s) {
                    Err(e) => Err(e),
                    Ok(start) => match spec_stream_size(unpack, sub, k, s) {
                        Err(e) => Err(e),
                        Ok(size) => {
                            let sd: Result<Option<nat>, R7zError> = match sub {
                                None => Ok(None),
                                Some(x) => match spec_substream_global_index(x, k, s) {
                                    Err(e) => Err(e),
                                    Ok(g) => Ok(if g < x.digests.len() { x.digests[g as int] } else { None }),
                                },
                            };
                            match sd {
                                Err(e) => Err(e),
                                Ok(sdig) => Ok(LocationView {
                                    folder_idx: k,
                                    folder: pl.folder,
                                    packed_ranges: ranges,
                                    folder_unpack_size: total,
                                    stream_start: start,
                                    stream_size: size,
                                    folder_digest: if k < unpack.digests.len() { unpack.digests[k as int] } else { None },
                                    substream_digest: sdig,
                                }),
                            }
                        },
                    },
                },
            },
        }
    }
}

/// Where the data of entry `idx` of the header `hv` lies in `bytes`, whose
/// signature header is at `base`.
pub open spec fn spec_location(bytes: Seq<u8>, base: nat, hv: HeaderView, idx: nat) -> Result<LocationView, R7zError> {
    match spec_place(hv, idx) {
        Err(e) => Err(e),
        Ok(pl) => spec_location_from(bytes, base, pl),
    }
}

/// The executable form of a location.
pub struct ExtractionLocation {
    pub folder_idx: usize,
    pub folder: Folder,
    pub packed_ranges: Vec<(usize, usize)>,
    pub folder_unpack_size: u64,
    pub stream_start: usize,
    pub stream_size: usize,
    pub folder_digest: Option<u32>,
    pub substream_digest: Option<u32>,
}

/// `o` as a plain digest model.
pub open spec fn opt_nat(o: Option<u32>) -> Option<nat> {
    match o {
        Some(x) => Some(x as nat),
        None => None,
    }
}

/// `l` is the executable form of `v`.
pub open spec fn location_is(l: ExtractionLocation, v: LocationView) -> bool {
    &&& l.folder_idx == v.folder_idx
    &&& l.folder@ == v.folder
    &&& l.packed_ranges@.len() == v.packed_ranges.len()
    &&& forall|k: int| 0 <= k < v.packed_ranges.len() ==> (#[trigger] l.packed_ranges@[k]).0 as nat == v.packed_ranges[k].0
        && l.packed_ranges@[k].1 as nat == v.packed_ranges[k].1
    &&& l.folder_unpack_size == v.folder_unpack_size
    &&& l.stream_start == v.stream_start
    &&& l.stream_size == v.stream_size
    &&& opt_nat(l.folder_digest) == v.folder_digest
    &&& opt_nat(l.substream_digest) == v.substream_digest
}

fn packed_ranges_of(sizes: &[u64], start: u64, offset: u64, len: usize) -> (r: Option<Vec<(usize, usize)>>)
    ensures
        match spec_ranges(sizes@, start as nat, offset as nat, len as nat) {
            None => r is None,
            Some(v) => r matches Some(w) && w@.len() == v.len() && forall|k: int| 0 <= k < v.len() ==> (#[trigger] w@[k]).0 as nat
                == v[k].0 && w@[k].1 as nat == v[k].1,
        },
{
    let mut out: Vec<(usize, usize)> = Vec::new();
    let mut off = offset;
    let mut i: usize = 0;
    let ghost mut acc: Seq<(nat, nat)> = Seq::empty();
    proof {
        assert(sizes@.skip(0) =~= sizes@);
        assert(forall|rest: Seq<(nat, nat)>| #[trigger] (Seq::<(nat, nat)>::empty() + rest) =~= rest);
    }
    while i < sizes.len()
        invariant
            i <= sizes@.len(),
            out@.len() == acc.len(),
            forall|k: int| 0 <= k < acc.len() ==> (#[trigger] out@[k]).0 as nat == acc[k].0 && out@[k].1 as nat == acc[k].1,
            spec_ranges(sizes@, start as nat, offset as nat, len as nat) == match spec_ranges(
                sizes@.skip(i as int),
                start as nat,
                off as nat,
                len as nat,
            ) {
                None => None,
                Some(rest) => Some(acc + rest),
            },
        decreases sizes@.len() - i,
    {
        proof {
            assert(sizes@.skip(i as int).skip(1) =~= sizes@.skip(i + 1));
            assert(sizes@.skip(i as int)[0] == sizes@[i as int]);
        }
        let z = sizes[i];
        if off > u64::MAX - start {
            return None;
        }
        let st = start + off;
        if st > len as u64 || z > len as u64 - st || z > u64::MAX - off {
            return None;
        }
        out.push((st as usize, (st + z) as usize));
        proof {
            let item = ((start + off) as nat, (start + off + z) as nat);
            assert(forall|rest: Seq<(nat, nat)>| #[trigger] (acc + (seq![item] + rest)) =~= (acc.push(item) + rest));
            acc = acc.push(item);
        }
        off = off + z;
        i = i + 1;
    }
    proof {
        assert(sizes@.skip(sizes@.len() as int) =~= Seq::<u64>::empty());
        assert(acc + Seq::<(nat, nat)>::empty() =~= acc);
    }
    Some(out)
}

proof fn lemma_locate_range(counts: Seq<u64>, d: int, f: nat)
    ensures
        spec_locate(counts, d, f) matches Some((k, s)) ==> f <= k < counts.len() && s <= d,
    decreases counts.len() - f,
{
    if !(f >= counts.len() || d < 0) && d >= counts[f as int] {
        lemma_locate_range(counts, d - counts[f as int], f + 1);
    }
}

impl Archive {
    /// The stream blocks of the header and the place of entry `file_index`.
    #[verifier::rlimit(60)]
    fn place_of(&self, file_index: usize) -> (r: Result<(StreamInfo, usize, usize, Folder, usize, usize), R7zError>)
        ensures
            match spec_place(self.header_model(), file_index as nat) {
                Err(e) => r == Err::<(StreamInfo, usize, usize, Folder, usize, usize), R7zError>(e),
                Ok(pl) => r matches Ok((st, k, s, f, pb, np)) && st@.pack_info == Some(pl.pack) && st@.unpack_info == Some(
                    pl.unpack,
                ) && st@.substream_info == pl.sub && st.pack_info is Some && st.unpack_info is Some && k == pl.k && s == pl.s
                    && f@ == pl.folder && pb == pl.pb && np == pl.np,
            },
    {
        let fi = self.files_info();
        let streams = match self.streams_info() {
            Some(s) => s,
            None => {
                return Err(R7zError::Parse);
            },
        };
        let (folder_idx, stream_in_folder, folder, pb, np) = {
            let unpack_info = match &streams.unpack_info {
                Some(u) => u,
                None => {
                    return Err(R7zError::Parse);
                },
            };
            if streams.pack_info.is_none() {
                return Err(R7zError::Parse);
            }
            let substream_info = match &streams.substream_info {
                Some(x) => Some(x),
                None => None,
            };
            let fir = fi.as_ref();
            proof {
                assert(fi_view(fir) == crate::headers::spec_header_files(self.header_model()));
            }
            let data_idx = match file_to_data_stream(file_index, fir) {
                Some(d) => d,
                None => {
                    return Err(R7zError::Parse);
                },
            };
            let nfolders = unpack_info.num_folders();
            if nfolders > usize::MAX as u64 {
                return Err(R7zError::Parse);
            }
            let nf = nfolders as usize;
            let (folder_idx, stream_in_folder) = match data_stream_to_folder(data_idx, substream_info, nf) {
                Some(x) => x,
                None => {
                    return Err(R7zError::Parse);
                },
            };
            proof {
                assert(si_view(substream_info) == streams@.substream_info);
                assert(unpack_info@ == streams@.unpack_info->Some_0);
            }
            let folder = match unpack_info.parse_folder(folder_idx) {
                Ok(f) => f,
                Err(e) => {
                    return Err(e);
                },
            };
            let pb = match folder_pack_stream_base(folder_idx, unpack_info) {
                Ok(b) => b,
                Err(e) => {
                    return Err(e);
                },
            };
            let np = folder_num_pack_streams(&folder)?;
            (folder_idx, stream_in_folder, folder, pb, np)
        };
        Ok((streams, folder_idx, stream_in_folder, folder, pb, np))
    }

    /// Where the data of entry `file_index` lies.
    #[verifier::rlimit(60)]
    pub fn extraction_location(&self, file_index: usize) -> (r: Result<ExtractionLocation, R7zError>)
        ensures
            match spec_location(self.bytes(), self.base(), self.header_model(), file_index as nat) {
                Err(e) => r == Err::<ExtractionLocation, R7zError>(e),
                Ok(v) => r matches Ok(l) && location_is(l, v),
            },
    {
        let (streams, folder_idx, stream_in_folder, folder, pb, np) = self.place_of(file_index)?;
        let ghost pl = spec_place(self.header_model(), file_index as nat)->Ok_0;
        let pack_info = match &streams.pack_info {
            Some(p) => p,
            None => {
                return Err(R7zError::Parse);
            },
        };
        let unpack_info = match &streams.unpack_info {
            Some(u) => u,
            None => {
                return Err(R7zError::Parse);
            },
        };
        let substream_info = match &streams.substream_info {
            Some(x) => Some(x),
            None => None,
        };
        proof {
            lemma_place_range(self.header_model(), file_index as nat);
        }
        let plen = pack_info.pack_size.len();
        if pb > plen {
            return Err(R7zError::Parse);
        }
        let prior = slice_subrange(pack_info.pack_size.as_slice(), 0, pb);
        proof {
            assert(prior@ =~= pack_info@.pack_size.take(pb as int));
        }
        let offset = match checked_sum(prior, u64::MAX) {
            Some(o) => o,
            None => {
                return Err(R7zError::Parse);
            },
        };
        let b32 = match (self.base_offset as u64).checked_add(32) {
            Some(b) => b,
            None => {
                return Err(R7zError::Parse);
            },
        };
        if pack_info.pack_pos > u64::MAX - b32 || np > usize::MAX - pb || pb + np > plen {
            return Err(R7zError::Parse);
        }
        let data_start = b32 + pack_info.pack_pos;
        let sizes = slice_subrange(pack_info.pack_size.as_slice(), pb, pb + np);
        let packed_ranges = match packed_ranges_of(sizes, data_start, offset, self.data.len()) {
            Some(r) => r,
            None => {
                return Err(R7zError::Parse);
            },
        };
        let folder_unpack_size = folder_total_unpack_size(folder_idx, unpack_info, substream_info)?;
        let stream_start = stream_offset_in_folder(folder_idx, stream_in_folder, substream_info)?;
        let stream_size = stream_size_at(folder_idx, stream_in_folder, substream_info, unpack_info)?;
        let folder_digest = unpack_info.folder_digest(folder_idx);
        let substream_digest = match substream_info {
            Some(si) => {
                let g = substream_global_index(folder_idx, stream_in_folder, si)?;
                if g < si.digests.len() { si.digests[g] } else { None }
            },
            None => None,
        };
        Ok(ExtractionLocation {
            folder_idx,
            folder,
            packed_ranges,
            folder_unpack_size,
            stream_start,
            stream_size,
            folder_digest,
            substream_digest,
        })
    }
}

/// Extract entry `idx` of the header `hv` from `bytes` (signature header at
/// `base`): the entry's bytes, or the failure.
pub open spec fn spec_extract(bytes: Seq<u8>, base: nat, hv: HeaderView, idx: nat, password: Option<Seq<char>>) -> DecodeResult {
    let fi = crate::headers::spec_header_files(hv);
    let num = if hv.num_files <= usize::MAX { hv.num_files as nat } else { 0 };
    if idx >= num {
        DecodeResult::Failure(R7zError::Parse)
    } else if fi matches Some(f) && (crate::files_info::spec_is_anti(f, idx) || crate::files_info::spec_is_directory(f, idx)) {
        DecodeResult::Failure(R7zError::Directory)
    } else if fi matches Some(f) && spec_is_empty_stream(f, idx) && crate::files_info::spec_is_empty_file(f, idx) {
        DecodeResult::Data(Seq::empty())
    } else {
        match spec_location(bytes, base, hv, idx) {
            Err(e) => DecodeResult::Failure(e),
            Ok(loc) => {
                match spec_decode_located(bytes, hv, loc, password) {
                    DecodeResult::Data(out) => {
                        let end = loc.stream_start + loc.stream_size;
                        if out.len() < end {
                            DecodeResult::Failure(R7zError::Decompression)
                        } else if loc.folder_digest matches Some(c) && crc32(out) != c {
                            DecodeResult::Failure(R7zError::Crc)
                        } else if loc.substream_digest matches Some(c) && crc32(
                            out.subrange(loc.stream_start as int, end as int),
                        ) != c {
                            DecodeResult::Failure(R7zError::Crc)
                        } else {
                            DecodeResult::Data(out.subrange(loc.stream_start as int, end as int))
                        }
                    },
                    other => other,
                }
            },
        }
    }
}

/// The unpack sizes of the coders of folder `k` of the header `hv`.
pub open spec fn spec_folder_coder_sizes(hv: HeaderView, k: nat) -> Result<Seq<u64>, R7zError> {
    match crate::headers::spec_header_streams(hv) {
        None => Err(R7zError::Parse),
        Some(st) => match st.unpack_info {
            None => Err(R7zError::Parse),
            Some(u) => spec_coder_unpack_sizes(u, k),
        },
    }
}

/// Decoding the folder at `loc`: one packed stream through the folder's
/// coder chain, or the four packed streams of a folder of the BCJ2 layout;
/// other folders of several packed streams are not supported.
pub open spec fn spec_decode_located(bytes: Seq<u8>, hv: HeaderView, loc: LocationView, password: Option<Seq<char>>) -> DecodeResult {
    if loc.packed_ranges.len() != 1 {
        match spec_bcj2_coder(loc.folder) {
            Some(b) => match spec_folder_coder_sizes(hv, loc.folder_idx) {
                Err(e) => DecodeResult::Failure(e),
                Ok(sizes) => spec_decompress_bcj2_folder(loc.folder, b, bytes, loc.packed_ranges, sizes, password),
            },
            None => if loc.folder.coders.len() == 0 {
                DecodeResult::Failure(R7zError::Parse)
            } else {
                DecodeResult::Unsupported(loc.folder.coders[0].codec_id)
            },
        }
    } else {
        let (ps, pe) = loc.packed_ranges[0];
        spec_decompress_folder(loc.folder, bytes.subrange(ps as int, pe as int), loc.folder_unpack_size, password)
    }
}

impl Archive {
    /// Extract entry `file_index` into memory. An empty file gives no
    /// bytes; a directory or anti-item is refused.
    pub fn extract_to_memory(&self, file_index: usize) -> (r: Result<Vec<u8>, R7zError>)
        ensures
            result_is(r, spec_extract(self.bytes(), self.base(), self.header_model(), file_index as nat, None)),
    {
        self.extract_to_memory_with_password(file_index, None)
    }

    /// Decode the folder at `loc` (see [`spec_decode_located`]).
    fn decode_located(&self, loc: &ExtractionLocation, password: Option<&str>) -> (r: Result<Vec<u8>, R7zError>)
        requires
            loc.packed_ranges@.len() == 1 ==> loc.packed_ranges@[0].0 <= loc.packed_ranges@[0].1 <= self.bytes().len(),
        ensures
            forall|v: LocationView| #[trigger] location_is(*loc, v) ==> result_is(
                r,
                spec_decode_located(self.bytes(), self.header_model(), v, opt_password(password)),
            ),
    {
        if loc.packed_ranges.len() != 1 {
            match bcj2_coder(&loc.folder) {
                Some(b) => {
                    let streams = match self.streams_info() {
                        Some(st) => st,
                        None => {
                            return Err(R7zError::Parse);
                        },
                    };
                    let unpack_info = match &streams.unpack_info {
                        Some(u) => u,
                        None => {
                            return Err(R7zError::Parse);
                        },
                    };
                    let sizes = folder_coder_unpack_sizes(loc.folder_idx, unpack_info)?;
                    proof {
                        assert forall|v: LocationView| #[trigger] location_is(*loc, v) implies ranges_view(
                            loc.packed_ranges@,
                        ) == v.packed_ranges by {
                            assert(ranges_view(loc.packed_ranges@) =~= v.packed_ranges);
                        }
                    }
                    return decompress_bcj2_folder(
                        &loc.folder,
                        b,
                        self.data.as_slice(),
                        loc.packed_ranges.as_slice(),
                        sizes.as_slice(),
                        password,
                    );
                },
                None => {
                    if loc.folder.coders.len() == 0 {
                        return Err(R7zError::Parse);
                    }
                    proof {
                        assert(loc.folder@.coders[0] == loc.folder.coders@[0]@);
                    }
                    return Err(R7zError::UnsupportedCodec(slice_to_vec(loc.folder.coders[0].codec_id.as_slice())));
                },
            }
        }
        let (ps, pe) = loc.packed_ranges[0];
        let packed = slice_subrange(self.data.as_slice(), ps, pe);
        decompress_folder_with_password(&loc.folder, packed, loc.folder_unpack_size, password)
    }

    /// Extract entry `file_index` into memory, decrypting with `password`
    /// when its folder is encrypted. The folder's digest is checked over
    /// the whole decoded folder and the entry's digest over its bytes.
    #[verifier::rlimit(60)]
    pub fn extract_to_memory_with_password(&self, file_index: usize, password: Option<&str>) -> (r: Result<Vec<u8>, R7zError>)
        ensures
            result_is(r, spec_extract(self.bytes(), self.base(), self.header_model(), file_index as nat, opt_password(password))),
    {
        if file_index >= self.num_files() {
            return Err(R7zError::Parse);
        }
        let fi = self.files_info();
        match &fi {
            Some(f) => {
                if f.is_anti(file_index) || f.is_directory(file_index) {
                    return Err(R7zError::Directory);
                }
                if f.is_empty_stream(file_index) && f.is_empty_file(file_index) {
                    return Ok(Vec::new());
                }
            },
            None => {},
        }
        let loc = self.extraction_location(file_index)?;
        let out = self.decode_located(&loc, password)?;
        let olen = out.len();
        if loc.stream_size > usize::MAX - loc.stream_start || olen < loc.stream_start + loc.stream_size {
            return Err(R7zError::Decompression);
        }
        let end = loc.stream_start + loc.stream_size;
        match loc.folder_digest {
            Some(c) => {
                if crc32_of(out.as_slice()) != c {
                    return Err(R7zError::Crc);
                }
            },
            None => {},
        }
        let stream = slice_subrange(out.as_slice(), loc.stream_start, end);
        match loc.substream_digest {
            Some(c) => {
                if crc32_of(stream) != c {
                    return Err(R7zError::Crc);
                }
            },
            None => {},
        }
        Ok(slice_to_vec(stream))
    }
}

// ---------------------------------------------------------------------------
// Listing.
// ---------------------------------------------------------------------------

/// What a listed entry is.
#[derive(Clone, Copy, Debug, PartialEq, Eq, Structural)]
pub enum ListingEntryKind {
    File,
    Directory,
    Symlink,
    Anti,
}

/// One entry of a listing. `modified` is a Windows FILETIME.
#[derive(Clone, Debug, PartialEq, Eq)]
pub struct ArchiveListingEntry {
    pub index: usize,
    pub path: String,
    pub kind: ListingEntryKind,
    pub size: Option<u64>,
    pub packed_size: Option<u64>,
    pub modified: Option<u64>,
    pub attributes: Option<u32>,
    pub crc: Option<u32>,
    pub encrypted: bool,
    pub methods: Vec<String>,
    pub block: Option<usize>,
}

/// Archive-level and per-entry metadata for a p7zip-style listing.
#[derive(Clone, Debug, PartialEq, Eq)]
pub struct ArchiveListing {
    pub archive_type: &'static str,
    pub physical_size: Option<u64>,
    pub headers_size: Option<u64>,
    pub methods: Vec<String>,
    pub solid: bool,
    pub blocks: usize,
    pub entries: Vec<ArchiveListingEntry>,
}

/// The decimal digits of `n`.
pub open spec fn decimal(n: nat) -> Seq<char>
    decreases n,
{
    if n < 10 {
        seq![(('0' as u8) + n as u8) as char]
    } else {
        decimal(n / 10).push((('0' as u8) + (n % 10) as u8) as char)
    }
}

/// `unknown-` and the decimal form of `i`.
fn unknown_name(i: usize) -> (r: String)
    ensures
        r@ == seq!['u', 'n', 'k', 'n', 'o', 'w', 'n', '-'] + decimal(i as nat),
{
    let mut v: Vec<char> = Vec::new();
    v.push('u');
    v.push('n');
    v.push('k');
    v.push('n');
    v.push('o');
    v.push('w');
    v.push('n');
    v.push('-');
    let ghost head = v@;
    crate::text::push_decimal(&mut v, i as u64);
    proof {
        assert(head =~= seq!['u', 'n', 'k', 'n', 'o', 'w', 'n', '-']);
    }
    crate::text::string_from_chars(&v)
}

/// The path shown for entry `i`: its name, or `unknown-` and its index.
pub fn entry_path(fi: Option<&FilesInfo>, i: usize) -> (r: String)
    ensures
        r@ == spec_entry_path(fi_view(fi), i as nat),
{
    match fi {
        Some(f) => match f.name(i) {
            Some(n) => n,
            None => unknown_name(i),
        },
        None => unknown_name(i),
    }
}

/// The path shown for entry `i`: its name, or `unknown-` and its index.
pub open spec fn spec_entry_path(fi: Option<FilesInfoView>, i: nat) -> Seq<char> {
    match fi {
        Some(f) => match spec_name(f, i) {
            Some(s) => s,
            None => seq!['u', 'n', 'k', 'n', 'o', 'w', 'n', '-'] + decimal(i),
        },
        None => seq!['u', 'n', 'k', 'n', 'o', 'w', 'n', '-'] + decimal(i),
    }
}

/// The kind shown for entry `i`.
pub open spec fn spec_listing_kind(f: FilesInfoView, i: nat) -> ListingEntryKind {
    if spec_is_anti(f, i) {
        ListingEntryKind::Anti
    } else if spec_is_directory(f, i) {
        ListingEntryKind::Directory
    } else if spec_is_symlink(f, i) {
        ListingEntryKind::Symlink
    } else {
        ListingEntryKind::File
    }
}

/// A value of a per-entry list, if recorded.
pub open spec fn entry_value(vs: Seq<Option<nat>>, i: nat) -> Option<nat> {
    if i < vs.len() { vs[i as int] } else { None }
}

/// The folder and stream within it of entry `i`, when it has data.
pub open spec fn spec_folder_stream(hv: HeaderView, i: nat) -> Option<(nat, nat)> {
    match spec_file_to_data_stream(crate::headers::spec_header_files(hv), i) {
        None => None,
        Some(d) => match crate::headers::spec_header_streams(hv) {
            None => None,
            Some(st) => match st.unpack_info {
                None => None,
                Some(u) => if u.num_folders > usize::MAX {
                    None
                } else {
                    spec_locate(stream_counts(st.substream_info, u.num_folders as nat), d as int, 0)
                },
            },
        },
    }
}

/// `e` lists entry `i` of `hv` whose data is stream `s` of folder `k`;
/// The listing entry of entry `i`, whose data is stream `s` of folder `k`,
/// can be read, with `first` telling which folders are not listed yet: the
/// folder and the pack and unpack information are there, the stream's size
/// reads, and so does the folder's packed size when it is listed first.
pub open spec fn data_entry_listable(hv: HeaderView, i: nat, first: Seq<bool>) -> bool {
    match spec_folder_stream(hv, i) {
        None => false,
        Some((k, s)) => {
            let st = crate::headers::spec_header_streams(hv)->Some_0;
            &&& crate::headers::spec_header_streams(hv) is Some
            &&& st.pack_info is Some
            &&& st.unpack_info is Some
            &&& st.unpack_info->Some_0.num_folders <= usize::MAX
            &&& spec_folder_at(st.unpack_info->Some_0, k) is Some
            &&& spec_stream_size(st.unpack_info->Some_0, st.substream_info, k, s) is Ok
            &&& k < first.len()
            &&& first[k as int] ==> spec_folder_packed_size(st.pack_info->Some_0, st.unpack_info->Some_0, k) is Ok
        },
    }
}

/// The listed modification time and attributes of `e` are those the file
/// listing `f` records for entry `i` (none when it records none).
pub open spec fn listed_meta(e: ArchiveListingEntry, f: FilesInfoView, i: nat) -> bool {
    &&& (match e.modified {
        Some(t) => Some(t as nat),
        None => None::<nat>,
    }) == entry_value(f.mtimes, i)
    &&& opt_nat(e.attributes) == entry_value(f.attributes, i)
}

/// `first` tells whether `e` is the first entry listed for folder `k`.
pub open spec fn listed_with_data(e: ArchiveListingEntry, hv: HeaderView, i: nat, k: nat, s: nat, first: bool) -> bool {
    let st = crate::headers::spec_header_streams(hv)->Some_0;
    let u = st.unpack_info->Some_0;
    let p = st.pack_info->Some_0;
    let f = spec_folder_at(u, k)->Some_0;
    &&& e.block == Some(k as usize)
    &&& spec_stream_size(u, st.substream_info, k, s) matches Ok(z) && e.size == Some(z as u64)
    &&& opt_nat(e.crc) == spec_stream_crc(u, st.substream_info, k, s)
    &&& e.packed_size == (if first { Some(spec_folder_packed_size(p, u, k)->Ok_0) } else { None::<u64> })
    &&& e.encrypted == exists|q: int| 0 <= q < f.coders.len() && f.coders[q].codec_id == crate::listing::aes_id()
    &&& e.methods@.len() == f.coders.len()
    &&& forall|q: int| 0 <= q < e.methods@.len() ==> (#[trigger] e.methods@[q])@ == spec_coder_name(f.coders[q].codec_id)
}

impl Archive {
    fn folder_stream_for_file(&self, file_index: usize) -> (r: Result<Option<(usize, usize)>, R7zError>)
        ensures
            match spec_file_to_data_stream(crate::headers::spec_header_files(self.header_model()), file_index as nat) {
                None => r == Ok::<Option<(usize, usize)>, R7zError>(None),
                Some(_) => match crate::headers::spec_header_streams(self.header_model()) {
                    None => r == Err::<Option<(usize, usize)>, R7zError>(R7zError::Parse),
                    Some(st) => match st.unpack_info {
                        None => r == Err::<Option<(usize, usize)>, R7zError>(R7zError::Parse),
                        Some(u) => if u.num_folders > usize::MAX {
                            r == Err::<Option<(usize, usize)>, R7zError>(R7zError::Parse)
                        } else {
                            match spec_folder_stream(self.header_model(), file_index as nat) {
                                None => r == Ok::<Option<(usize, usize)>, R7zError>(None),
                                Some((k, s)) => r matches Ok(Some((a, b))) && a as nat == k && b as nat == s,
                            }
                        },
                    },
                },
            },
    {
        let fi = self.files_info();
        let fir = fi.as_ref();
        let d = match file_to_data_stream(file_index, fir) {
            Some(d) => d,
            None => {
                return Ok(None);
            },
        };
        let streams = match self.streams_info() {
            Some(s) => s,
            None => {
                return Err(R7zError::Parse);
            },
        };
        let unpack_info = match &streams.unpack_info {
            Some(u) => u,
            None => {
                return Err(R7zError::Parse);
            },
        };
        let nfolders = unpack_info.num_folders();
        if nfolders > usize::MAX as u64 {
            return Err(R7zError::Parse);
        }
        let sub = match &streams.substream_info {
            Some(x) => Some(x),
            None => None,
        };
        Ok(data_stream_to_folder(d, sub, nfolders as usize))
    }

    /// The listing entry of entry `file_index`. `first_entry_for_folder`
    /// marks the folders whose packed size has not been shown yet; the
    /// packed size goes with the first entry of each folder.
    #[verifier::rlimit(80)]
    pub fn listing_entry(&self, file_index: usize, first_entry_for_folder: &mut Vec<bool>) -> (r: Result<
        ArchiveListingEntry,
        R7zError,
    >)
        ensures
            r matches Ok(e) ==> e.index == file_index && e.path@ == spec_entry_path(
                crate::headers::spec_header_files(self.header_model()),
                file_index as nat,
            ),
            crate::headers::spec_header_files(self.header_model()) is None ==> {
                &&& (r is Ok <==> spec_method_names(crate::headers::spec_header_streams(self.header_model())) is Ok)
                &&& r matches Ok(e) ==> e.kind == ListingEntryKind::File && e.size is None && e.packed_size is None
                    && e.crc is None && e.block is None && !e.encrypted && e.modified is None && e.attributes is None
                &&& final(first_entry_for_folder)@ == old(first_entry_for_folder)@
            },
            crate::headers::spec_header_files(self.header_model()) matches Some(f) ==> (r matches Ok(e) ==> listed_meta(
                e,
                f,
                file_index as nat,
            )),
            crate::headers::spec_header_files(self.header_model()) matches Some(f) ==> {
                let kind = spec_listing_kind(f, file_index as nat);
                if kind == ListingEntryKind::Directory || kind == ListingEntryKind::Anti || spec_is_empty_file(f, file_index as nat) {
                    &&& r matches Ok(e) && e.kind == kind && e.size == (if kind == ListingEntryKind::Anti { None::<u64> } else { Some(0u64) })
                        && e.crc == (if spec_is_empty_file(f, file_index as nat) { Some(0u32) } else { None::<u32> })
                        && e.packed_size is None && e.block is None && !e.encrypted && e.methods@.len() == 0
                        && opt_nat(e.attributes) == entry_value(f.attributes, file_index as nat)
                        && (match e.modified { Some(t) => Some(t as nat), None => None::<nat> }) == entry_value(f.mtimes, file_index as nat)
                    &&& final(first_entry_for_folder)@ == old(first_entry_for_folder)@
                } else {
                    &&& data_entry_listable(self.header_model(), file_index as nat, old(first_entry_for_folder)@) ==> r is Ok
                    &&& r matches Ok(e) ==> e.kind == kind && match spec_folder_stream(self.header_model(), file_index as nat) {
                        None => false,
                        Some((k, s)) => k < old(first_entry_for_folder)@.len() && listed_with_data(
                            e,
                            self.header_model(),
                            file_index as nat,
                            k,
                            s,
                            old(first_entry_for_folder)@[k as int],
                        ) && final(first_entry_for_folder)@ == old(first_entry_for_folder)@.update(k as int, false),
                    }
                }
            },
    {
        let fi = self.files_info();
        let path = match &fi {
            Some(f) => match f.name(file_index) {
                Some(n) => n,
                None => unknown_name(file_index),
            },
            None => unknown_name(file_index),
        };
        let files = match &fi {
            Some(f) => f,
            None => {
                let streams = self.streams_info();
                let methods = archive_method_names(streams.as_ref())?;
                return Ok(ArchiveListingEntry {
                    index: file_index,
                    path,
                    kind: ListingEntryKind::File,
                    size: None,
                    packed_size: None,
                    modified: None,
                    attributes: None,
                    crc: None,
                    encrypted: false,
                    methods,
                    block: None,
                });
            },
        };
        let kind = if files.is_anti(file_index) {
            ListingEntryKind::Anti
        } else if files.is_directory(file_index) {
            ListingEntryKind::Directory
        } else if files.is_symlink(file_index) {
            ListingEntryKind::Symlink
        } else {
            ListingEntryKind::File
        };
        let modified = if file_index < files.mtimes.len() { files.mtimes[file_index] } else { None };
        let attributes = if file_index < files.attributes.len() { files.attributes[file_index] } else { None };
        proof {
            assert(files@.mtimes == crate::parsers::opt_u64_view(files.mtimes@));
        }
        let is_dir_or_anti = match kind {
            ListingEntryKind::Directory | ListingEntryKind::Anti => true,
            _ => false,
        };
        let empty_file = files.is_empty_file(file_index);
        if is_dir_or_anti || empty_file {
            let size = match kind {
                ListingEntryKind::Anti => None,
                _ => Some(0u64),
            };
            return Ok(ArchiveListingEntry {
                index: file_index,
                path,
                kind,
                size,
                packed_size: None,
                modified,
                attributes,
                crc: if empty_file { Some(0u32) } else { None },
                encrypted: false,
                methods: Vec::new(),
                block: None,
            });
        }
        let (folder_idx, stream_in_folder) = match self.folder_stream_for_file(file_index)? {
            Some(x) => x,
            None => {
                return Err(R7zError::Parse);
            },
        };
        let streams = match self.streams_info() {
            Some(s) => s,
            None => {
                return Err(R7zError::Parse);
            },
        };
        let pack_info = match &streams.pack_info {
            Some(p) => p,
            None => {
                return Err(R7zError::Parse);
            },
        };
        let unpack_info = match &streams.unpack_info {
            Some(u) => u,
            None => {
                return Err(R7zError::Parse);
            },
        };
        let sub = match &streams.substream_info {
            Some(x) => Some(x),
            None => None,
        };
        let folder = unpack_info.parse_folder(folder_idx)?;
        let methods = folder_method_names(&folder);
        let encrypted = folder_is_encrypted(&folder);
        let z = stream_size_at(folder_idx, stream_in_folder, sub, unpack_info)?;
        let size = Some(z as u64);
        if folder_idx >= first_entry_for_folder.len() {
            return Err(R7zError::Parse);
        }
        let packed_size = if first_entry_for_folder[folder_idx] {
            let p = folder_packed_size(folder_idx, pack_info, unpack_info)?;
            first_entry_for_folder.set(folder_idx, false);
            Some(p)
        } else {
            first_entry_for_folder.set(folder_idx, false);
            None
        };
        let crc = stream_crc(folder_idx, stream_in_folder, unpack_info, sub);
        Ok(ArchiveListingEntry {
            index: file_index,
            path,
            kind,
            size,
            packed_size,
            modified,
            attributes,
            crc,
            encrypted,
            methods,
            block: Some(folder_idx),
        })
    }
}

/// The total size of all packed streams, when it fits in `u64`.
pub open spec fn spec_pack_total(st: Option<crate::stream_info::StreamInfoView>) -> Option<u64> {
    match st {
        Some(s) => match s.pack_info {
            Some(p) => if seq_sum(p.pack_size) > u64::MAX { None } else { Some(seq_sum(p.pack_size) as u64) },
            None => Some(0),
        },
        None => Some(0),
    }
}

/// The number of folders, as the listing shows it.
pub open spec fn spec_blocks(st: Option<crate::stream_info::StreamInfoView>) -> nat {
    match st {
        Some(s) => match s.unpack_info {
            Some(u) => crate::pack_info::spec_num_folders(u),
            None => 0,
        },
        None => 0,
    }
}

/// The folder whose data entry `i` lists: that of its data, for an entry of
/// a file listing that is neither a directory, an anti-item nor empty.
pub open spec fn spec_entry_block(hv: HeaderView, i: nat) -> Option<usize> {
    match crate::headers::spec_header_files(hv) {
        None => None,
        Some(f) => {
            let kind = spec_listing_kind(f, i);
            if kind == ListingEntryKind::Directory || kind == ListingEntryKind::Anti || spec_is_empty_file(f, i) {
                None
            } else {
                match spec_folder_stream(hv, i) {
                    Some((k, _)) => Some(k as usize),
                    None => None,
                }
            }
        },
    }
}

/// Entry `i` of a file listing is neither a directory, an anti-item nor an
/// empty file, so its listing reads its data stream.
pub open spec fn entry_has_data(hv: HeaderView, i: nat) -> bool {
    match crate::headers::spec_header_files(hv) {
        None => false,
        Some(f) => {
            let kind = spec_listing_kind(f, i);
            !(kind == ListingEntryKind::Directory || kind == ListingEntryKind::Anti || spec_is_empty_file(f, i))
        },
    }
}

/// Every entry with data among the first `n` can be listed, whichever of
/// the `nb` folders are listed already.
pub open spec fn entries_listable(hv: HeaderView, n: nat, nb: nat) -> bool {
    forall|i: nat|
        i < n && #[trigger] entry_has_data(hv, i) ==> data_entry_listable(hv, i, Seq::new(nb, |j: int| true))
}

/// An entry with data that lists with every folder still to list lists
/// with any other state of those folders.
proof fn lemma_listable_any_first(hv: HeaderView, i: nat, nb: nat, first: Seq<bool>)
    requires
        data_entry_listable(hv, i, Seq::new(nb, |j: int| true)),
        first.len() == nb,
    ensures
        data_entry_listable(hv, i, first),
{
}

/// The listing `l` is one [`Archive::listing`] gives: its folder count, one
/// entry per file with its own index, and for each entry the folder of its
/// data (with a size) or none.
pub open spec fn listing_matches(archive: &Archive, l: &ArchiveListing) -> bool {
    let st = crate::headers::spec_header_streams(archive.header_model());
    &&& l.blocks == spec_blocks(st)
    &&& l.entries@.len() == archive.file_count()
    &&& forall|i: int|
        0 <= i < l.entries@.len() ==> (#[trigger] l.entries@[i]).index == i && l.entries@[i].block == spec_entry_block(
            archive.header_model(),
            i as nat,
        ) && (l.entries@[i].block is Some ==> l.entries@[i].size is Some) && (l.entries@[i].block matches Some(
            b,
        ) ==> b < l.blocks)
}

/// The listing of `archive` can be made: the packed sizes add up, the
/// methods are known, and every entry with data lists.
pub open spec fn listing_ready(archive: &Archive) -> bool {
    let st = crate::headers::spec_header_streams(archive.header_model());
    &&& spec_pack_total(st) is Some
    &&& spec_method_names(st) is Ok
    &&& entries_listable(archive.header_model(), archive.file_count(), spec_blocks(st))
}

impl Archive {
    /// A p7zip-style listing of the archive. `physical_size` is the archive's
    /// size on disk when known; otherwise the size of the bytes it was read
    /// from. The headers' size is what is left of it after the packed streams.
    pub fn listing(&self, physical_size: Option<u64>) -> (r: Result<ArchiveListing, R7zError>)
        ensures
            ({
                let st = crate::headers::spec_header_streams(self.header_model());
                &&& spec_pack_total(st) is None ==> r == Err::<ArchiveListing, R7zError>(R7zError::Parse)
                &&& spec_pack_total(st) is Some ==> (spec_method_names(st) matches Err(e) ==> r == Err::<ArchiveListing, R7zError>(e))
                &&& r matches Ok(l) ==> {
                    let phys = match physical_size {
                        Some(p) => p,
                        None => self.bytes().len() as u64,
                    };
                    let total = spec_pack_total(st)->Some_0;
                    &&& l.archive_type == "7z"
                    &&& l.physical_size == Some(phys)
                    &&& l.headers_size == (if phys >= total { Some((phys - total) as u64) } else { None::<u64> })
                    &&& l.solid == spec_is_solid(st)
                    &&& l.blocks == spec_blocks(st)
                    &&& l.entries@.len() == (if self.header_model().num_files <= usize::MAX { self.header_model().num_files as nat } else { 0 })
                    &&& forall|i: int| 0 <= i < l.entries@.len() ==> (#[trigger] l.entries@[i]).index == i
                        && l.entries@[i].path@ == spec_entry_path(crate::headers::spec_header_files(self.header_model()), i as nat)
                }
            }),
            listing_ready(self) ==> r is Ok,
            r matches Ok(l) ==> listing_matches(self, &l),
            r matches Ok(l) ==> (crate::headers::spec_header_files(self.header_model()) matches Some(f) ==> forall|i: int|
                0 <= i < l.entries@.len() ==> #[trigger] listed_meta(l.entries@[i], f, i as nat)),
    {
        let physical = match physical_size {
            Some(p) => p,
            None => self.data.len() as u64,
        };
        let streams = self.streams_info();
        let pack_total: u64 = match &streams {
            Some(st) => match &st.pack_info {
                Some(p) => match checked_sum(p.pack_size.as_slice(), u64::MAX) {
                    Some(t) => t,
                    None => {
                        return Err(R7zError::Parse);
                    },
                },
                None => 0,
            },
            None => 0,
        };
        let headers_size = if physical >= pack_total { Some(physical - pack_total) } else { None };
        let methods = archive_method_names(streams.as_ref())?;
        let blocks: usize = match &streams {
            Some(st) => match &st.unpack_info {
                Some(u) => u.num_folders_usize(),
                None => 0,
            },
            None => 0,
        };
        let solid = archive_is_solid(streams.as_ref());
        let mut first: Vec<bool> = Vec::new();
        let mut b: usize = 0;
        while b < blocks
            invariant
                b <= blocks,
                first@.len() == b,
            decreases blocks - b,
        {
            first.push(true);
            b = b + 1;
        }
        let ghost st = crate::headers::spec_header_streams(self.header_model());
        proof {
            assert(blocks == spec_blocks(st));
        }
        let n = self.num_files();
        let mut entries: Vec<ArchiveListingEntry> = Vec::new();
        let mut index: usize = 0;
        while index < n
            invariant
                index <= n,
                n == (if self.header_model().num_files <= usize::MAX { self.header_model().num_files as nat } else { 0 }),
                entries@.len() == index,
                spec_pack_total(crate::headers::spec_header_streams(self.header_model())) is Some,
                spec_method_names(crate::headers::spec_header_streams(self.header_model())) is Ok,
                forall|i: int| 0 <= i < index ==> (#[trigger] entries@[i]).index == i
                    && entries@[i].path@ == spec_entry_path(crate::headers::spec_header_files(self.header_model()), i as nat),
                st == crate::headers::spec_header_streams(self.header_model()),
                first@.len() == spec_blocks(st),
                blocks == spec_blocks(st),
                forall|i: int|
                    0 <= i < index ==> (#[trigger] entries@[i]).block == spec_entry_block(self.header_model(), i as nat)
                        && (entries@[i].block is Some ==> entries@[i].size is Some) && (entries@[i].block matches Some(
                        b,
                    ) ==> b < blocks),
                crate::headers::spec_header_files(self.header_model()) matches Some(f) ==> forall|i: int|
                    0 <= i < index ==> #[trigger] listed_meta(entries@[i], f, i as nat),
            decreases n - index,
        {
            proof {
                if entries_listable(self.header_model(), self.file_count(), spec_blocks(st)) && entry_has_data(
                    self.header_model(),
                    index as nat,
                ) {
                    lemma_listable_any_first(self.header_model(), index as nat, spec_blocks(st), first@);
                }
            }
            let e = self.listing_entry(index, &mut first)?;
            entries.push(e);
            index = index + 1;
        }
        Ok(ArchiveListing { archive_type: "7z", physical_size: Some(physical), headers_size, methods, solid, blocks, entries })
    }
}

// ---------------------------------------------------------------------------
// Entry names that are safe to extract.
// ---------------------------------------------------------------------------

/// `c` separates path parts for the parent-directory check (`/` or `\`).
pub open spec fn is_sep(c: u8) -> bool {
    c == 0x2f || c == 0x5c
}

/// A `..` part of `b` (split at `/` and `\`) starts at `i`.
pub open spec fn parent_at(b: Seq<u8>, i: int) -> bool {
    &&& 0 <= i && i + 2 <= b.len()
    &&& b[i] == 0x2e && b[i + 1] == 0x2e
    &&& (i == 0 || is_sep(b[i - 1]))
    &&& (i + 2 == b.len() || is_sep(b[i + 2]))
}

/// Some part of `b` is `..`.
pub open spec fn has_parent_part(b: Seq<u8>) -> bool {
    exists|i: int| parent_at(b, i)
}

/// `b` starts with a drive letter and `:`, or with `\\`.
pub open spec fn has_windows_prefix(b: Seq<u8>) -> bool {
    b.len() >= 2 && ((0x41 <= b[0] <= 0x5a || 0x61 <= b[0] <= 0x7a) && b[1] == 0x3a || b[0] == 0x5c && b[1] == 0x5c)
}

/// Byte `k` of `b` is a `.` part on its own between `/`s.
pub open spec fn lone_dot(b: Seq<u8>, k: int) -> bool {
    b[k] == 0x2e && (k == 0 || b[k - 1] == 0x2f) && (k + 1 == b.len() || b[k + 1] == 0x2f)
}

/// Some `/`-separated part of `b` names something (is neither empty nor
/// `.`): some byte is neither `/` nor a lone `.`.
pub open spec fn has_normal_part(b: Seq<u8>) -> bool {
    exists|k: int| 0 <= k < b.len() && b[k] != 0x2f && !lone_dot(b, k)
}

/// An entry name that can be extracted under a destination directory: not
/// empty, not absolute, without a drive or UNC prefix, without a `..` part,
/// and naming at least one thing.
pub open spec fn spec_safe_name(b: Seq<u8>) -> bool {
    &&& b.len() > 0
    &&& !has_windows_prefix(b)
    &&& !has_parent_part(b)
    &&& b[0] != 0x2f
    &&& has_normal_part(b)
}

fn find_parent_part(b: &[u8]) -> (r: bool)
    ensures
        r == has_parent_part(b@),
{
    let n = b.len();
    let mut i: usize = 0;
    while i < n
        invariant
            i <= n == b@.len(),
            forall|q: int| 0 <= q < i ==> !parent_at(b@, q),
        decreases n - i,
    {
        if n - i >= 2 && b[i] == 0x2e && b[i + 1] == 0x2e && (i == 0 || b[i - 1] == 0x2f || b[i - 1] == 0x5c) && (n - i == 2
            || b[i + 2] == 0x2f || b[i + 2] == 0x5c) {
            proof {
                assert(parent_at(b@, i as int));
            }
            return true;
        }
        i = i + 1;
    }
    false
}

fn find_normal_part(b: &[u8]) -> (r: bool)
    ensures
        r == has_normal_part(b@),
{
    let n = b.len();
    let mut k: usize = 0;
    while k < n
        invariant
            k <= n == b@.len(),
            forall|q: int| 0 <= q < k ==> b@[q] == 0x2f || lone_dot(b@, q),
        decreases n - k,
    {
        let lone = b[k] == 0x2e && (k == 0 || b[k - 1] == 0x2f) && (k + 1 == n || b[k + 1] == 0x2f);
        if b[k] != 0x2f && !lone {
            return true;
        }
        k = k + 1;
    }
    false
}

/// Check that `name` is safe to extract (see [`spec_safe_name`]);
/// `UnsafePath` with the name otherwise.
pub fn check_archive_path(name: &str) -> (r: Result<(), R7zError>)
    ensures
        spec_safe_name(name.spec_bytes()) ==> r is Ok,
        !spec_safe_name(name.spec_bytes()) ==> (r matches Err(R7zError::UnsafePath(s)) && s@ == name@),
{
    let b = name.as_bytes();
    let n = b.len();
    let windows = n >= 2 && (((0x41 <= b[0] && b[0] <= 0x5a) || (0x61 <= b[0] && b[0] <= 0x7a)) && b[1] == 0x3a || b[0]
        == 0x5c && b[1] == 0x5c);
    if n == 0 || windows || find_parent_part(b) || b[0] == 0x2f || !find_normal_part(b) {
        return Err(R7zError::UnsafePath(name.to_string()));
    }
    Ok(())
}

// ---------------------------------------------------------------------------
// Keeping a folder as it is.
// ---------------------------------------------------------------------------

/// The position among all unpack sizes of the first output of folder `k`,
/// every folder before it parsing.
pub open spec fn spec_coder_out_base(u: UnpackInfoView, k: nat) -> Result<nat, R7zError>
    decreases k,
{
    if k == 0 {
        Ok(0)
    } else {
        match spec_coder_out_base(u, (k - 1) as nat) {
            Err(e) => Err(e),
            Ok(b) => match spec_folder_at(u, (k - 1) as nat) {
                None => Err(R7zError::Parse),
                Some(f) => if b + sum_out(f.coders) > usize::MAX { Err(R7zError::Parse) } else { Ok(b + sum_out(f.coders)) },
            },
        }
    }
}

proof fn lemma_coder_out_base_err(u: UnpackInfoView, k: nat, m: nat)
    requires
        k <= m,
        spec_coder_out_base(u, k) is Err,
    ensures
        spec_coder_out_base(u, m) == spec_coder_out_base(u, k),
    decreases m - k,
{
    if k < m {
        lemma_coder_out_base_err(u, k, (m - 1) as nat);
    }
}

/// The unpack sizes of the outputs of the coders of folder `k`.
pub open spec fn spec_coder_unpack_sizes(u: UnpackInfoView, k: nat) -> Result<Seq<u64>, R7zError> {
    match spec_coder_out_base(u, k) {
        Err(e) => Err(e),
        Ok(b) => match spec_folder_at(u, k) {
            None => Err(R7zError::Parse),
            Some(f) => if b + sum_out(f.coders) > u.unpack_sizes.len() {
                Err(R7zError::Parse)
            } else {
                Ok(u.unpack_sizes.subrange(b as int, (b + sum_out(f.coders)) as int))
            },
        },
    }
}

/// The unpack sizes of the outputs of the coders of folder `folder_idx`.
pub fn folder_coder_unpack_sizes(folder_idx: usize, unpack_info: &UnpackInfo) -> (r: Result<Vec<u64>, R7zError>)
    ensures
        match spec_coder_unpack_sizes(unpack_info@, folder_idx as nat) {
            Err(e) => r == Err::<Vec<u64>, R7zError>(e),
            Ok(v) => r matches Ok(w) && w@ == v,
        },
{
    let mut base: usize = 0;
    let mut i: usize = 0;
    while i < folder_idx
        invariant
            i <= folder_idx,
            spec_coder_out_base(unpack_info@, i as nat) == Ok::<nat, R7zError>(base as nat),
        decreases folder_idx - i,
    {
        let f = match unpack_info.parse_folder(i) {
            Ok(f) => f,
            Err(e) => {
                proof {
                    lemma_coder_out_base_err(unpack_info@, (i + 1) as nat, folder_idx as nat);
                }
                return Err(e);
            },
        };
        proof {
            lemma_folder_sums_fit(unpack_info@, i as nat);
        }
        let n = sum_out_u64(&f);
        if n > (usize::MAX - base) as u64 {
            proof {
                lemma_coder_out_base_err(unpack_info@, (i + 1) as nat, folder_idx as nat);
            }
            return Err(R7zError::Parse);
        }
        base = base + n as usize;
        i = i + 1;
    }
    let folder = unpack_info.parse_folder(folder_idx)?;
    proof {
        lemma_folder_sums_fit(unpack_info@, folder_idx as nat);
    }
    let n = sum_out_u64(&folder);
    let len = unpack_info.unpack_sizes_len();
    if n > len as u64 || base > len - n as usize {
        return Err(R7zError::Parse);
    }
    let mut out: Vec<u64> = Vec::new();
    let mut j: usize = 0;
    while j < n as usize
        invariant
            j <= n <= len,
            base + n <= len,
            len == unpack_info@.unpack_sizes.len(),
            out@ == unpack_info@.unpack_sizes.subrange(base as int, base + j),
        decreases n - j,
    {
        let v = match unpack_info.unpack_size_at(base + j) {
            Some(v) => v,
            None => 0,
        };
        out.push(v);
        proof {
            assert(out@ =~= unpack_info@.unpack_sizes.subrange(base as int, base + j + 1));
        }
        j = j + 1;
    }
    Ok(out)
}

proof fn lemma_ranges_bounds(sizes: Seq<u64>, start: nat, offset: nat, len: nat)
    ensures
        spec_ranges(sizes, start, offset, len) matches Some(v) ==> forall|k: int| 0 <= k < v.len() ==> (#[trigger] v[k]).0 <= v[k].1 <= len,
    decreases sizes.len(),
{
    if sizes.len() > 0 && !(start + offset > u64::MAX || start + offset + sizes[0] > len || offset + sizes[0] > u64::MAX) {
        lemma_ranges_bounds(sizes.skip(1), start, (offset + sizes[0]) as nat, len);
        match spec_ranges(sizes, start, offset, len) {
            Some(v) => {
                let rest = spec_ranges(sizes.skip(1), start, (offset + sizes[0]) as nat, len)->Some_0;
                assert forall|k: int| 0 <= k < v.len() implies (#[trigger] v[k]).0 <= v[k].1 <= len by {
                    if k > 0 {
                        assert(v[k] == rest[k - 1]);
                    }
                }
            },
            None => {},
        }
    }
}

/// The model of a kept folder's block.
pub open spec fn raw_block_is(
    rb: crate::write::preserve::RawFolderBlock,
    bytes: Seq<u8>,
    base: nat,
    pack: PackInfoView,
    unpack: UnpackInfoView,
    k: nat,
) -> bool {
    let pb = spec_pack_stream_base(unpack, k)->Ok_0;
    let np = spec_num_pack_streams(spec_folder_at(unpack, k)->Some_0)->Ok_0;
    let ranges = spec_ranges(
        pack.pack_size.subrange(pb as int, (pb + np) as int),
        (base + 32 + pack.pack_pos) as nat,
        seq_sum(pack.pack_size.take(pb as int)),
        bytes.len(),
    )->Some_0;
    &&& rb.folder_index == k
    &&& Some(rb.folder_info@) == crate::pack_info::spec_folder_bytes(unpack, k)
    &&& rb.pack_sizes@ == pack.pack_size.subrange(pb as int, (pb + np) as int)
    &&& spec_coder_unpack_sizes(unpack, k) == Ok::<Seq<u64>, R7zError>(rb.coder_unpack_sizes@)
    &&& opt_nat(rb.folder_crc) == (if k < unpack.digests.len() { unpack.digests[k as int] } else { None })
    &&& rb.packed_streams@.len() == ranges.len()
    &&& forall|q: int| 0 <= q < ranges.len() ==> (#[trigger] rb.packed_streams@[q])@ == bytes.subrange(
        ranges[q].0 as int,
        ranges[q].1 as int,
    )
}

/// Folder `k` of the archive can be kept as stored: its description, pack
/// streams, packed bytes and coder sizes all read.
pub open spec fn raw_block_readable(bytes: Seq<u8>, base: nat, hv: HeaderView, k: nat) -> bool {
    match crate::headers::spec_header_streams(hv) {
        None => false,
        Some(st) => match (st.pack_info, st.unpack_info) {
            (Some(pack), Some(unpack)) => match crate::pack_info::spec_folder_at(unpack, k) {
                None => false,
                Some(f) => {
                    &&& crate::pack_info::spec_folder_bytes(unpack, k) is Some
                    &&& spec_pack_stream_base(unpack, k) is Ok
                    &&& spec_num_pack_streams(f) is Ok
                    &&& {
                        let pb = spec_pack_stream_base(unpack, k)->Ok_0;
                        let np = spec_num_pack_streams(f)->Ok_0;
                        &&& pb + np <= pack.pack_size.len()
                        &&& seq_sum(pack.pack_size.take(pb as int)) <= u64::MAX
                        &&& base + 32 + pack.pack_pos <= u64::MAX
                        &&& spec_ranges(
                            pack.pack_size.subrange(pb as int, (pb + np) as int),
                            (base + 32 + pack.pack_pos) as nat,
                            seq_sum(pack.pack_size.take(pb as int)),
                            bytes.len(),
                        ) is Some
                        &&& spec_coder_unpack_sizes(unpack, k) is Ok
                    }
                },
            },
            _ => false,
        },
    }
}

impl Archive {
    /// Folder `folder_index` as it is stored: its description, sizes,
    /// digest and packed bytes, for a rewrite that keeps it.
    #[verifier::rlimit(60)]
    pub fn raw_folder_block(&self, folder_index: usize) -> (r: Result<crate::write::preserve::RawFolderBlock, R7zError>)
        ensures
            r is Ok <==> raw_block_readable(self.bytes(), self.base(), self.header_model(), folder_index as nat),
            r matches Ok(rb) ==> ({
                let st = crate::headers::spec_header_streams(self.header_model())->Some_0;
                raw_block_is(rb, self.bytes(), self.base(), st.pack_info->Some_0, st.unpack_info->Some_0, folder_index as nat)
                    && crate::headers::spec_header_streams(self.header_model()) is Some
                    && st.pack_info is Some && st.unpack_info is Some
            }),
    {
        let streams = match self.streams_info() {
            Some(s) => s,
            None => {
                return Err(R7zError::Parse);
            },
        };
        let pack_info = match &streams.pack_info {
            Some(p) => p,
            None => {
                return Err(R7zError::Parse);
            },
        };
        let unpack_info = match &streams.unpack_info {
            Some(u) => u,
            None => {
                return Err(R7zError::Parse);
            },
        };
        let folder = unpack_info.parse_folder(folder_index)?;
        let folder_info = match unpack_info.folder_bytes(folder_index) {
            Some(b) => b,
            None => {
                return Err(R7zError::Parse);
            },
        };
        let pb = folder_pack_stream_base(folder_index, unpack_info)?;
        let np = folder_num_pack_streams(&folder)?;
        let plen = pack_info.pack_size.len();
        if pb > plen || np > plen - pb {
            return Err(R7zError::Parse);
        }
        let prior = slice_subrange(pack_info.pack_size.as_slice(), 0, pb);
        proof {
            assert(prior@ =~= pack_info@.pack_size.take(pb as int));
        }
        let offset = match checked_sum(prior, u64::MAX) {
            Some(o) => o,
            None => {
                return Err(R7zError::Parse);
            },
        };
        let b32 = match (self.base_offset as u64).checked_add(32) {
            Some(b) => b,
            None => {
                return Err(R7zError::Parse);
            },
        };
        if pack_info.pack_pos > u64::MAX - b32 {
            return Err(R7zError::Parse);
        }
        let sizes = slice_subrange(pack_info.pack_size.as_slice(), pb, pb + np);
        let ranges = match packed_ranges_of(sizes, b32 + pack_info.pack_pos, offset, self.data.len()) {
            Some(r) => r,
            None => {
                return Err(R7zError::Parse);
            },
        };
        proof {
            lemma_ranges_bounds(sizes@, (b32 + pack_info.pack_pos) as nat, offset as nat, self.data@.len());
        }
        let mut packed_streams: Vec<Vec<u8>> = Vec::new();
        let mut q: usize = 0;
        while q < ranges.len()
            invariant
                q <= ranges@.len(),
                packed_streams@.len() == q,
                forall|j: int| 0 <= j < ranges@.len() ==> (#[trigger] ranges@[j]).0 <= ranges@[j].1 <= self.data@.len(),
                forall|j: int| 0 <= j < q ==> (#[trigger] packed_streams@[j])@ == self.data@.subrange(
                    ranges@[j].0 as int,
                    ranges@[j].1 as int,
                ),
            decreases ranges@.len() - q,
        {
            let (a, b) = ranges[q];
            packed_streams.push(slice_to_vec(slice_subrange(self.data.as_slice(), a, b)));
            q = q + 1;
        }
        let coder_unpack_sizes = folder_coder_unpack_sizes(folder_index, unpack_info)?;
        Ok(crate::write::preserve::RawFolderBlock {
            folder_index,
            pack_sizes: slice_to_vec(sizes),
            folder_info,
            coder_unpack_sizes,
            folder_crc: unpack_info.folder_digest(folder_index),
            packed_streams,
        })
    }

    /// The target of a symbolic link entry: `None` for an entry that is not
    /// a link; `Parse` when the target is not UTF-8.
    pub fn symlink_target(&self, file_index: usize) -> (r: Result<Option<String>, R7zError>)
        ensures
            match crate::headers::spec_header_files(self.header_model()) {
                None => r == Ok::<Option<String>, R7zError>(None),
                Some(f) => if !spec_is_symlink(f, file_index as nat) {
                    r == Ok::<Option<String>, R7zError>(None)
                } else {
                    match spec_extract(self.bytes(), self.base(), self.header_model(), file_index as nat, None) {
                        DecodeResult::Data(b) => if vstd::utf8::valid_utf8(b) {
                            r matches Ok(Some(s)) && s@ == vstd::utf8::decode_utf8(b)
                        } else {
                            r == Err::<Option<String>, R7zError>(R7zError::Parse)
                        },
                        DecodeResult::Failure(e) => r == Err::<Option<String>, R7zError>(e),
                        DecodeResult::Unsupported(id) => r matches Err(R7zError::UnsupportedCodec(v)) && v@ == id,
                    }
                },
            },
    {
        let fi = match self.files_info() {
            Some(f) => f,
            None => {
                return Ok(None);
            },
        };
        if !fi.is_symlink(file_index) {
            return Ok(None);
        }
        let target = self.extract_to_memory(file_index)?;
        match string_from_utf8(target) {
            Some(s) => Ok(Some(s)),
            None => Err(R7zError::Parse),
        }
    }
}

/// `bytes` as a string, when they are valid UTF-8 (`String::from_utf8`).
#[verifier::external_body]
fn string_from_utf8(bytes: Vec<u8>) -> (r: Option<String>)
    ensures
        match r {
            Some(s) => vstd::utf8::valid_utf8(bytes@) && s@ == vstd::utf8::decode_utf8(bytes@),
            None => !vstd::utf8::valid_utf8(bytes@),
        },
{
    String::from_utf8(bytes).ok()
}

/// The folder found for an entry is one of those its stream counts cover.
proof fn lemma_place_range(hv: HeaderView, idx: nat)
    ensures
        spec_place(hv, idx) matches Ok(pl) ==> (pl.sub matches Some(x) ==> pl.k < x.num_unpack_streams_per_folder.len()),
{
    match spec_place(hv, idx) {
        Ok(pl) => {
            let fi = crate::headers::spec_header_files(hv);
            let d = spec_file_to_data_stream(fi, idx)->Some_0;
            lemma_locate_range(stream_counts(pl.sub, pl.unpack.num_folders as nat), d as int, 0);
        },
        Err(_) => {},
    }
}

} // verus!
