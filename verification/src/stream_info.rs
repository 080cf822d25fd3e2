//! The streams descriptor of a header: pack info, unpack info and substreams.
use crate::error::ParseError;
use crate::pack_info::{
    parse_digest_block, skip_block, spec_digest_block, spec_parse_pack_info,
    spec_parse_unpack_info, spec_skip_block, PackInfo, PackInfoView, UnpackInfo, UnpackInfoView,
};
use crate::parsers::{lemma_skip_skip, opt_u32_view, parse_varints, spec_repeat, varint_parser};
use crate::property::{spec_parse_property, Property};
use vstd::prelude::*;

verus! {

/// What one folder's stream count contributes to a total: the count itself,
/// or, with `less_one`, the count minus one (none for an empty folder).
pub open spec fn stream_term(n: u64, less_one: bool) -> nat {
    if less_one {
        if n == 0 {
            0
        } else {
            (n - 1) as nat
        }
    } else {
        n as nat
    }
}

/// The sum of [`stream_term`] over all folders.
pub open spec fn spec_stream_total(nums: Seq<u64>, less_one: bool) -> nat
    decreases nums.len(),
{
    if nums.len() == 0 {
        0
    } else {
        spec_stream_total(nums.drop_last(), less_one) + stream_term(nums.last(), less_one)
    }
}

/// A prefix never sums to more than the whole.
pub proof fn lemma_stream_total_prefix(nums: Seq<u64>, i: int, less_one: bool)
    requires
        0 <= i <= nums.len(),
    ensures
        spec_stream_total(nums.take(i), less_one) <= spec_stream_total(nums, less_one),
    decreases nums.len() - i,
{
    if i == nums.len() {
        assert(nums.take(i) =~= nums);
    } else {
        assert(nums.take(i + 1).drop_last() =~= nums.take(i));
        lemma_stream_total_prefix(nums, i + 1, less_one);
    }
}

/// Sum the stream counts (or the counts less one) when the sum fits in `usize`.
fn stream_total(nums: &Vec<u64>, less_one: bool) -> (r: Option<usize>)
    ensures
        match r {
            None => spec_stream_total(nums@, less_one) > usize::MAX,
            Some(x) => x == spec_stream_total(nums@, less_one),
        },
{
    let mut acc: usize = 0;
    let mut i: usize = 0;
    proof {
        assert(nums@.take(0) =~= Seq::<u64>::empty());
    }
    while i < nums.len()
        invariant
            i <= nums.len(),
            acc == spec_stream_total(nums@.take(i as int), less_one),
        decreases nums.len() - i,
    {
        let n = nums[i];
        let t: u64 = if less_one {
            if n == 0 {
                0
            } else {
                n - 1
            }
        } else {
            n
        };
        proof {
            assert(nums@.take(i + 1).drop_last() =~= nums@.take(i as int));
            assert(nums@.take(i + 1).last() == n);
        }
        if t > (usize::MAX - acc) as u64 {
            proof {
                lemma_stream_total_prefix(nums@, i + 1, less_one);
            }
            return None;
        }
        acc = acc + t as usize;
        i = i + 1;
    }
    proof {
        assert(nums@.take(nums@.len() as int) =~= nums@);
    }
    Some(acc)
}

/// The mathematical model of a [`SubstreamInfo`].
pub struct SubstreamInfoView {
    pub num_unpack_streams_per_folder: Seq<u64>,
    pub unpack_sizes: Seq<u64>,
    pub digests: Seq<Option<nat>>,
}

/// One stream per folder, as assumed until a `NumUnPackStream` section says otherwise.
pub open spec fn one_stream_each(nf: nat) -> Seq<u64> {
    Seq::new(nf, |i: int| 1u64)
}

/// The property list of a `SubStreamsInfo` block with the state gathered so
/// far: `NumUnPackStream` replaces the per-folder counts with `nf` varints,
/// `Size` appends one varint per stream but the last of each folder, `CRC`
/// replaces the digests with a block (least-significant bit first) for every
/// stream, other tags carry a size-prefixed block, `END` stops. Totals that
/// exceed `usize` fail.
pub open spec fn spec_substream_tail(t: Seq<u8>, nf: nat, st: SubstreamInfoView) -> Option<
    (nat, SubstreamInfoView),
>
    decreases t.len(),
{
    match spec_parse_property(t) {
        None => None,
        Some(Property::END) => Some((1, st)),
        Some(Property::NumUnPackStream) => match spec_repeat(varint_parser(), t.skip(1), nf) {
            None => None,
            Some((c, nums)) => if 1 + c <= t.len() {
                match spec_substream_tail(
                    t.skip((1 + c) as int),
                    nf,
                    SubstreamInfoView { num_unpack_streams_per_folder: nums, ..st },
                ) {
                    None => None,
                    Some((c2, v)) => Some((1 + c + c2, v)),
                }
            } else {
                None
            },
        },
        Some(Property::Size) => {
            let k = spec_stream_total(st.num_unpack_streams_per_folder, true);
            if k > usize::MAX {
                None
            } else {
                match spec_repeat(varint_parser(), t.skip(1), k) {
                    None => None,
                    Some((c, sizes)) => if 1 + c <= t.len() {
                        match spec_substream_tail(
                            t.skip((1 + c) as int),
                            nf,
                            SubstreamInfoView { unpack_sizes: st.unpack_sizes + sizes, ..st },
                        ) {
                            None => None,
                            Some((c2, v)) => Some((1 + c + c2, v)),
                        }
                    } else {
                        None
                    },
                }
            }
        },
        Some(Property::CRC) => {
            let k = spec_stream_total(st.num_unpack_streams_per_folder, false);
            if k > usize::MAX {
                None
            } else {
                match spec_digest_block(t.skip(1), k, true) {
                    None => None,
                    Some((c, ds)) => if 1 + c <= t.len() {
                        match spec_substream_tail(
                            t.skip((1 + c) as int),
                            nf,
                            SubstreamInfoView { digests: ds, ..st },
                        ) {
                            None => None,
                            Some((c2, v)) => Some((1 + c + c2, v)),
                        }
                    } else {
                        None
                    },
                }
            }
        },
        Some(_) => match spec_skip_block(t.skip(1)) {
            None => None,
            Some(c) => if 1 + c <= t.len() {
                match spec_substream_tail(t.skip((1 + c) as int), nf, st) {
                    None => None,
                    Some((c2, v)) => Some((1 + c + c2, v)),
                }
            } else {
                None
            },
        },
    }
}

/// Parse of a `SubStreamsInfo` block for `nf` folders at the start of `s`.
pub open spec fn spec_parse_substreams(s: Seq<u8>, nf: nat) -> Option<(nat, SubstreamInfoView)> {
    if spec_parse_property(s) != Some(Property::SubStreamsInfo) {
        None
    } else {
        let init = SubstreamInfoView {
            num_unpack_streams_per_folder: one_stream_each(nf),
            unpack_sizes: Seq::empty(),
            digests: Seq::empty(),
        };
        match spec_substream_tail(s.skip(1), nf, init) {
            None => None,
            Some((c, v)) => Some((1 + c, v)),
        }
    }
}

/// Per-file stream metadata within a solid (multi-file) folder.
#[derive(Debug, PartialEq, Eq)]
pub struct SubstreamInfo {
    /// Number of files (data streams) stored in each folder.
    pub num_unpack_streams_per_folder: Vec<u64>,
    /// Explicit uncompressed sizes for each stream except the last per folder.
    /// The last stream's size is implicit: `folder_unpack_size - sum(explicit)`.
    pub unpack_sizes: Vec<u64>,
    /// CRC32 digest per stream (may be absent for some or all streams).
    pub digests: Vec<Option<u32>>,
}

impl View for SubstreamInfo {
    type V = SubstreamInfoView;

    open spec fn view(&self) -> SubstreamInfoView {
        SubstreamInfoView {
            num_unpack_streams_per_folder: self.num_unpack_streams_per_folder@,
            unpack_sizes: self.unpack_sizes@,
            digests: opt_u32_view(self.digests@),
        }
    }
}

/// `nf` counts of one.
fn ones(nf: usize) -> (r: Vec<u64>)
    ensures
        r@ == one_stream_each(nf as nat),
{
    let mut r: Vec<u64> = Vec::new();
    let mut i: usize = 0;
    while i < nf
        invariant
            i <= nf,
            r@ == one_stream_each(i as nat),
        decreases nf - i,
    {
        r.push(1);
        i = i + 1;
        proof {
            assert(r@ =~= one_stream_each(i as nat));
        }
    }
    r
}

impl SubstreamInfo {
    /// Parse a `SubstreamInfo` block from the header stream.
    #[verifier::rlimit(40)]
    pub fn parse(input: &[u8], num_folders: usize) -> (res: Result<(&[u8], SubstreamInfo), ParseError>)
        ensures
            match spec_parse_substreams(input@, num_folders as nat) {
                None => res is Err,
                Some((c, v)) => res matches Ok((rem, si)) && si@ == v && rem@ == input@.skip(
                    c as int,
                ) && c <= input@.len(),
            },
    {
        let (r0, tag) = Property::parse(input)?;
        if tag != Property::SubStreamsInfo {
            return Err(ParseError);
        }
        let mut info = SubstreamInfo {
            num_unpack_streams_per_folder: ones(num_folders),
            unpack_sizes: Vec::new(),
            digests: Vec::new(),
        };
        proof {
            assert(info@.unpack_sizes =~= Seq::<u64>::empty());
            assert(info@.digests =~= Seq::<Option<nat>>::empty());
        }
        let ghost init = info@;
        let ghost nf = num_folders as nat;
        let mut rem = r0;
        let ghost mut k: nat = 1;
        loop
            invariant
                1 <= k <= input@.len(),
                rem@ == input@.skip(k as int),
                spec_parse_substreams(input@, nf) == match spec_substream_tail(rem@, nf, info@) {
                    None => None,
                    Some((c, v)) => Some((k + c, v)),
                },
                nf == num_folders,
            decreases rem@.len(),
        {
            let (r, tag) = Property::parse(rem)?;
            match tag {
                Property::END => {
                    proof {
                        lemma_skip_skip(input@, k, 1);
                    }
                    return Ok((r, info));
                },
                Property::NumUnPackStream => {
                    let (r2, nums) = parse_varints(r, num_folders as u64)?;
                    proof {
                        let c = spec_repeat(varint_parser(), r@, nf).unwrap().0;
                        lemma_skip_skip(rem@, 1, c);
                        lemma_skip_skip(input@, k, 1 + c);
                        k = k + 1 + c;
                    }
                    info.num_unpack_streams_per_folder = nums;
                    rem = r2;
                },
                Property::Size => {
                    let count = match stream_total(&info.num_unpack_streams_per_folder, true) {
                        Some(x) => x,
                        None => {
                            return Err(ParseError);
                        },
                    };
                    let (r2, mut sizes) = parse_varints(r, count as u64)?;
                    proof {
                        let c = spec_repeat(varint_parser(), r@, count as nat).unwrap().0;
                        lemma_skip_skip(rem@, 1, c);
                        lemma_skip_skip(input@, k, 1 + c);
                        k = k + 1 + c;
                    }
                    info.unpack_sizes.append(&mut sizes);
                    rem = r2;
                },
                Property::CRC => {
                    let total = match stream_total(&info.num_unpack_streams_per_folder, false) {
                        Some(x) => x,
                        None => {
                            return Err(ParseError);
                        },
                    };
                    let (r2, crcs) = parse_digest_block(r, total, true)?;
                    proof {
                        let c = spec_digest_block(r@, total as nat, true).unwrap().0;
                        lemma_skip_skip(rem@, 1, c);
                        lemma_skip_skip(input@, k, 1 + c);
                        k = k + 1 + c;
                    }
                    info.digests = crcs;
                    rem = r2;
                },
                _ => {
                    let r2 = skip_block(r)?;
                    proof {
                        let c = spec_skip_block(r@).unwrap();
                        lemma_skip_skip(rem@, 1, c);
                        lemma_skip_skip(input@, k, 1 + c);
                        k = k + 1 + c;
                    }
                    rem = r2;
                },
            }
        }
    }
}

/// The mathematical model of a [`StreamInfo`].
pub struct StreamInfoView {
    pub pack_info: Option<PackInfoView>,
    pub unpack_info: Option<UnpackInfoView>,
    pub substream_info: Option<SubstreamInfoView>,
}

/// The folder count a `SubStreamsInfo` block is read against: that of the
/// unpack info seen so far, or zero.
pub open spec fn folders_for_substreams(st: StreamInfoView) -> nat {
    match st.unpack_info {
        Some(u) => (u.folder_offsets.len() - 1) as nat,
        None => 0,
    }
}

/// The sections of a `StreamsInfo` block with the state gathered so far:
/// `PackInfo`, `UnPackInfo` and `SubStreamsInfo` blocks (each starting with
/// its own tag) replace their part, other tags carry a size-prefixed block,
/// `END` stops.
pub open spec fn spec_stream_tail(t: Seq<u8>, st: StreamInfoView) -> Option<(nat, StreamInfoView)>
    decreases t.len(),
{
    match spec_parse_property(t) {
        None => None,
        Some(Property::END) => Some((1, st)),
        Some(Property::PackInfo) => match spec_parse_pack_info(t) {
            None => None,
            Some((c, p)) => if 1 <= c <= t.len() {
                match spec_stream_tail(t.skip(c as int), StreamInfoView { pack_info: Some(p), ..st }) {
                    None => None,
                    Some((c2, v)) => Some((c + c2, v)),
                }
            } else {
                None
            },
        },
        Some(Property::UnPackInfo) => match spec_parse_unpack_info(t) {
            None => None,
            Some((c, u)) => if 1 <= c <= t.len() {
                match spec_stream_tail(t.skip(c as int), StreamInfoView { unpack_info: Some(u), ..st }) {
                    None => None,
                    Some((c2, v)) => Some((c + c2, v)),
                }
            } else {
                None
            },
        },
        Some(Property::SubStreamsInfo) => match spec_parse_substreams(t, folders_for_substreams(st)) {
            None => None,
            Some((c, si)) => if 1 <= c <= t.len() {
                match spec_stream_tail(
                    t.skip(c as int),
                    StreamInfoView { substream_info: Some(si), ..st },
                ) {
                    None => None,
                    Some((c2, v)) => Some((c + c2, v)),
                }
            } else {
                None
            },
        },
        Some(_) => match spec_skip_block(t.skip(1)) {
            None => None,
            Some(c) => if 1 + c <= t.len() {
                match spec_stream_tail(t.skip((1 + c) as int), st) {
                    None => None,
                    Some((c2, v)) => Some((1 + c + c2, v)),
                }
            } else {
                None
            },
        },
    }
}

/// Parse of a `StreamsInfo` block body (after its own tag) at the start of `s`.
pub open spec fn spec_parse_stream_info(s: Seq<u8>) -> Option<(nat, StreamInfoView)> {
    spec_stream_tail(
        s,
        StreamInfoView { pack_info: None, unpack_info: None, substream_info: None },
    )
}

/// Ties together [`PackInfo`], [`UnpackInfo`], and optional [`SubstreamInfo`].
///
/// This is the top-level streams descriptor embedded in the 7z `Header`.
#[derive(Debug, PartialEq, Eq)]
pub struct StreamInfo {
    /// Location and sizes of packed (compressed) data in the archive file.
    pub pack_info: Option<PackInfo>,
    /// Folder/coder layout and uncompressed sizes.
    pub unpack_info: Option<UnpackInfo>,
    /// Per-file stream breakdown within solid folders (absent for single-file folders).
    pub substream_info: Option<SubstreamInfo>,
}

impl View for StreamInfo {
    type V = StreamInfoView;

    open spec fn view(&self) -> StreamInfoView {
        StreamInfoView {
            pack_info: match self.pack_info {
                Some(p) => Some(p@),
                None => None,
            },
            unpack_info: match self.unpack_info {
                Some(u) => Some(u@),
                None => None,
            },
            substream_info: match self.substream_info {
                Some(si) => Some(si@),
                None => None,
            },
        }
    }
}

impl StreamInfo {
    /// Parse a `StreamInfo` block body from the header stream.
    #[verifier::rlimit(100)]
    #[verifier::spinoff_prover]
    pub fn parse(input: &[u8]) -> (res: Result<(&[u8], StreamInfo), ParseError>)
        ensures
            match spec_parse_stream_info(input@) {
                None => res is Err,
                Some((c, v)) => res matches Ok((rem, si)) && si@ == v && rem@ == input@.skip(
                    c as int,
                ) && c <= input@.len(),
            },
    {
        let mut info = StreamInfo { pack_info: None, unpack_info: None, substream_info: None };
        let mut rem = input;
        let ghost mut k: nat = 0;
        proof {
            assert(input@ =~= input@.skip(0));
        }
        loop
            invariant
                k <= input@.len(),
                rem@ == input@.skip(k as int),
                spec_parse_stream_info(input@) == match spec_stream_tail(rem@, info@) {
                    None => None,
                    Some((c, v)) => Some((k + c, v)),
                },
                info@.unpack_info matches Some(u) ==> u.folder_offsets.len() >= 1,
            decreases rem@.len(),
        {
            let (r, tag) = Property::parse(rem)?;
            match tag {
                Property::END => {
                    proof {
                        lemma_skip_skip(input@, k, 1);
                    }
                    return Ok((r, info));
                },
                Property::PackInfo => {
                    proof {
                        crate::pack_info::lemma_parse_pack_info_shape(rem@);
                    }
                    let (r2, pi) = PackInfo::parse(rem)?;
                    proof {
                        let c = spec_parse_pack_info(rem@).unwrap().0;
                        lemma_skip_skip(input@, k, c);
                        k = k + c;
                    }
                    info.pack_info = Some(pi);
                    rem = r2;
                },
                Property::UnPackInfo => {
                    proof {
                        crate::pack_info::lemma_parse_unpack_info_shape(rem@);
                    }
                    let (r2, ui) = UnpackInfo::parse(rem)?;
                    proof {
                        let c = spec_parse_unpack_info(rem@).unwrap().0;
                        lemma_skip_skip(input@, k, c);
                        k = k + c;
                    }
                    info.unpack_info = Some(ui);
                    rem = r2;
                },
                Property::SubStreamsInfo => {
                    let num_folders = match &info.unpack_info {
                        Some(u) => u.num_folders_usize(),
                        None => 0,
                    };
                    let (r2, si) = SubstreamInfo::parse(rem, num_folders)?;
                    proof {
                        let c = spec_parse_substreams(rem@, num_folders as nat).unwrap().0;
                        lemma_skip_skip(input@, k, c);
                        k = k + c;
                    }
                    info.substream_info = Some(si);
                    rem = r2;
                },
                _ => {
                    let r2 = skip_block(r)?;
                    proof {
                        let c = spec_skip_block(r@).unwrap();
                        lemma_skip_skip(rem@, 1, c);
                        lemma_skip_skip(input@, k, 1 + c);
                        k = k + 1 + c;
                    }
                    rem = r2;
                },
            }
        }
    }
}

/// Walk a `StreamInfo` block body, checking that it parses.
pub fn scan_stream_info(input: &[u8]) -> (res: Result<(&[u8], ()), ParseError>)
    ensures
        match spec_parse_stream_info(input@) {
            None => res is Err,
            Some((c, _)) => res matches Ok((rem, _)) && rem@ == input@.skip(c as int)
                && c <= input@.len(),
        },
{
    let (rem, _) = StreamInfo::parse(input)?;
    Ok((rem, ()))
}

} // verus!
