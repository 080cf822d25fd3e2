//! A compression folder: chained coders, bind pairs and packed-stream indices.
use crate::coder_info::{
    lemma_parse_coder_bounded, spec_coder_counts, spec_coder_properties, spec_parse_coder,
    CoderInfo, CoderInfoView,
};
use crate::error::ParseError;
use crate::parsers::{
    bounded_parser, lemma_repeat_bounded, lemma_repeat_none_propagates, lemma_skip_skip,
    lemma_varint_decode_fits, lemma_varint_parser_bounded, parse_varints,
    sevenzip_varuint64_decode, spec_repeat, spec_varint_decode, varint_parser,
};
use vstd::prelude::*;
use vstd::slice::slice_subrange;

verus! {

/// The coder parser as a specification value.
pub open spec fn coder_parser() -> spec_fn(Seq<u8>) -> Option<(nat, CoderInfoView)> {
    |t: Seq<u8>| spec_parse_coder(t)
}

/// A bind pair: two varints `(in_index, out_index)`.
pub open spec fn pair_parser() -> spec_fn(Seq<u8>) -> Option<(nat, (u64, u64))> {
    |t: Seq<u8>|
        match varint_parser()(t) {
            None => None,
            Some((c1, a)) => match varint_parser()(t.skip(c1 as int)) {
                None => None,
                Some((c2, b)) => Some((c1 + c2, (a, b))),
            },
        }
}

/// Sum of the input-stream counts of `coders`.
pub open spec fn sum_in(coders: Seq<CoderInfoView>) -> nat
    decreases coders.len(),
{
    if coders.len() == 0 {
        0
    } else {
        sum_in(coders.drop_last()) + coders.last().num_in_streams as nat
    }
}

/// Sum of the output-stream counts of `coders`.
pub open spec fn sum_out(coders: Seq<CoderInfoView>) -> nat
    decreases coders.len(),
{
    if coders.len() == 0 {
        0
    } else {
        sum_out(coders.drop_last()) + coders.last().num_out_streams as nat
    }
}

/// The mathematical model of a [`Folder`].
pub struct FolderView {
    pub coders: Seq<CoderInfoView>,
    pub bind_pairs: Seq<(u64, u64)>,
    pub packed_indices: Seq<u64>,
}

/// Number of bind pairs a folder declares: total output streams minus one
/// (saturating at zero).
pub open spec fn num_bind_pairs_of(total_out: nat) -> nat {
    if total_out == 0 {
        0
    } else {
        (total_out - 1) as nat
    }
}

/// Parse of a folder at the start of `s`: a varint coder count, the coders,
/// `total_out - 1` bind pairs, and, when the number of packed streams
/// (`total_in - bind pairs`) is not one, that many packed-stream indices.
/// Stream totals beyond `u64` and more bind pairs than input streams are
/// rejected.
pub open spec fn spec_parse_folder(s: Seq<u8>) -> Option<(nat, FolderView)> {
    match varint_parser()(s) {
        None => None,
        Some((c0, nc)) => match spec_repeat(coder_parser(), s.skip(c0 as int), nc as nat) {
            None => None,
            Some((c1, coders)) => {
                let tin = sum_in(coders);
                let tout = sum_out(coders);
                if tin > u64::MAX || tout > u64::MAX {
                    None
                } else {
                    let nb = num_bind_pairs_of(tout);
                    match spec_repeat(pair_parser(), s.skip((c0 + c1) as int), nb) {
                        None => None,
                        Some((c2, pairs)) => if tin < nb {
                            None
                        } else {
                            let np = (tin - nb) as nat;
                            if np == 1 {
                                Some(
                                    (
                                        c0 + c1 + c2,
                                        FolderView {
                                            coders,
                                            bind_pairs: pairs,
                                            packed_indices: Seq::empty(),
                                        },
                                    ),
                                )
                            } else {
                                match spec_repeat(
                                    varint_parser(),
                                    s.skip((c0 + c1 + c2) as int),
                                    np,
                                ) {
                                    None => None,
                                    Some((c3, idx)) => Some(
                                        (
                                            c0 + c1 + c2 + c3,
                                            FolderView {
                                                coders,
                                                bind_pairs: pairs,
                                                packed_indices: idx,
                                            },
                                        ),
                                    ),
                                }
                            }
                        },
                    }
                }
            },
        },
    }
}

pub proof fn lemma_coder_parser_bounded()
    ensures
        bounded_parser(coder_parser()),
{
    assert forall|t: Seq<u8>| (#[trigger] coder_parser()(t)) is Some implies coder_parser()(
        t,
    ).unwrap().0 <= t.len() by {
        lemma_parse_coder_bounded(t);
    }
}

pub proof fn lemma_pair_parser_bounded()
    ensures
        bounded_parser(pair_parser()),
{
    assert forall|t: Seq<u8>| (#[trigger] pair_parser()(t)) is Some implies pair_parser()(
        t,
    ).unwrap().0 <= t.len() by {
        lemma_varint_decode_fits(t);
        if let Some((c1, _)) = spec_varint_decode(t) {
            lemma_varint_decode_fits(t.skip(c1 as int));
        }
    }
}

pub proof fn lemma_sum_in_prefix(cs: Seq<CoderInfoView>, j: nat)
    requires
        j < cs.len(),
    ensures
        sum_in(cs.take(j + 1 as int)) == sum_in(cs.take(j as int)) + cs[j as int].num_in_streams,
        sum_out(cs.take(j + 1 as int)) == sum_out(cs.take(j as int)) + cs[j as int].num_out_streams,
{
    assert(cs.take(j + 1 as int).drop_last() =~= cs.take(j as int));
}

pub proof fn lemma_sums_monotone(cs: Seq<CoderInfoView>, j: nat)
    requires
        j <= cs.len(),
    ensures
        sum_in(cs.take(j as int)) <= sum_in(cs),
        sum_out(cs.take(j as int)) <= sum_out(cs),
    decreases cs.len() - j,
{
    if j < cs.len() {
        lemma_sums_monotone(cs, j + 1);
        lemma_sum_in_prefix(cs, j);
    } else {
        assert(cs.take(j as int) =~= cs);
    }
}

/// A compression folder: one or more chained coders applied to a set of streams.
#[derive(Debug, PartialEq, Eq)]
pub struct Folder {
    /// Ordered list of coders in this folder.
    pub coders: Vec<CoderInfo>,
    /// Bind pairs connecting coder output streams to coder input streams.
    pub bind_pairs: Vec<(u64, u64)>,
    /// Indices of packed input streams (empty when there is exactly one).
    pub packed_indices: Vec<u64>,
}

/// The models of a sequence of coders.
pub open spec fn coders_view(coders: Seq<CoderInfo>) -> Seq<CoderInfoView> {
    coders.map_values(|c: CoderInfo| c@)
}

impl View for Folder {
    type V = FolderView;

    open spec fn view(&self) -> FolderView {
        FolderView {
            coders: coders_view(self.coders@),
            bind_pairs: self.bind_pairs@,
            packed_indices: self.packed_indices@,
        }
    }
}

/// Parse `k` coders from the start of `input`.
fn parse_coders(input: &[u8], k: u64) -> (res: Result<(&[u8], Vec<CoderInfo>), ParseError>)
    ensures
        match spec_repeat(coder_parser(), input@, k as nat) {
            None => res is Err,
            Some((c, vs)) => res matches Ok((rem, xs)) && rem@ == input@.skip(c as int)
                && coders_view(xs@) == vs && c <= input@.len(),
        },
{
    let mut rem = input;
    let mut xs: Vec<CoderInfo> = Vec::new();
    let mut i: u64 = 0;
    let ghost mut c: nat = 0;
    proof {
        lemma_coder_parser_bounded();
        assert(coders_view(xs@) =~= Seq::<CoderInfoView>::empty());
    }
    while i < k
        invariant
            i <= k,
            bounded_parser(coder_parser()),
            spec_repeat(coder_parser(), input@, i as nat) == Some((c, coders_view(xs@))),
            c <= input@.len(),
            rem@ == input@.skip(c as int),
        decreases k - i,
    {
        match CoderInfo::parse(rem) {
            Ok((r, coder)) => {
                proof {
                    lemma_parse_coder_bounded(rem@);
                    let c2 = spec_parse_coder(rem@).unwrap().0;
                    lemma_skip_skip(input@, c, c2);
                    c = c + c2;
                }
                let ghost old = xs@;
                xs.push(coder);
                proof {
                    assert(coders_view(xs@) =~= coders_view(old).push(xs@.last()@));
                }
                rem = r;
                i = i + 1;
            },
            Err(e) => {
                proof {
                    lemma_repeat_none_propagates(coder_parser(), input@, (i + 1) as nat, k as nat);
                }
                return Err(e);
            },
        }
    }
    Ok((rem, xs))
}

/// Parse `k` bind pairs from the start of `input`.
fn parse_bind_pairs(input: &[u8], k: u64) -> (res: Result<(&[u8], Vec<(u64, u64)>), ParseError>)
    ensures
        match spec_repeat(pair_parser(), input@, k as nat) {
            None => res is Err,
            Some((c, vs)) => res matches Ok((rem, xs)) && rem@ == input@.skip(c as int) && xs@
                == vs && c <= input@.len(),
        },
{
    let mut rem = input;
    let mut xs: Vec<(u64, u64)> = Vec::new();
    let mut i: u64 = 0;
    let ghost mut c: nat = 0;
    proof {
        lemma_pair_parser_bounded();
    }
    while i < k
        invariant
            i <= k,
            bounded_parser(pair_parser()),
            spec_repeat(pair_parser(), input@, i as nat) == Some((c, xs@)),
            c <= input@.len(),
            rem@ == input@.skip(c as int),
        decreases k - i,
    {
        let r1 = sevenzip_varuint64_decode(rem);
        let r2 = match r1 {
            Ok((r, a)) => match sevenzip_varuint64_decode(r) {
                Ok((r2, b)) => Some((r2, a, b)),
                Err(_) => None,
            },
            Err(_) => None,
        };
        proof {
            lemma_varint_decode_fits(rem@);
            if let Some((c1, _)) = spec_varint_decode(rem@) {
                lemma_varint_decode_fits(rem@.skip(c1 as int));
            }
        }
        match r2 {
            Some((r, a, b)) => {
                proof {
                    let c1 = spec_varint_decode(rem@).unwrap().0;
                    let c2 = spec_varint_decode(rem@.skip(c1 as int)).unwrap().0;
                    lemma_skip_skip(rem@, c1, c2);
                    lemma_skip_skip(input@, c, c1 + c2);
                    c = c + c1 + c2;
                }
                xs.push((a, b));
                rem = r;
                i = i + 1;
            },
            None => {
                proof {
                    lemma_repeat_none_propagates(pair_parser(), input@, (i + 1) as nat, k as nat);
                }
                return Err(ParseError);
            },
        }
    }
    Ok((rem, xs))
}

/// Sum the stream counts of `coders`, failing when a total exceeds `u64`.
fn coder_stream_totals(coders: &Vec<CoderInfo>) -> (r: Option<(u64, u64)>)
    ensures
        match r {
            Some((a, b)) => a == sum_in(coders_view(coders@)) && b == sum_out(coders_view(coders@)),
            None => sum_in(coders_view(coders@)) > u64::MAX || sum_out(coders_view(coders@))
                > u64::MAX,
        },
{
    let ghost cs = coders_view(coders@);
    let mut tin: u64 = 0;
    let mut tout: u64 = 0;
    let mut j: usize = 0;
    proof {
        assert(cs.take(0) =~= Seq::<CoderInfoView>::empty());
    }
    while j < coders.len()
        invariant
            j <= coders.len(),
            cs == coders_view(coders@),
            tin == sum_in(cs.take(j as int)),
            tout == sum_out(cs.take(j as int)),
        decreases coders.len() - j,
    {
        proof {
            lemma_sum_in_prefix(cs, j as nat);
            lemma_sums_monotone(cs, (j + 1) as nat);
        }
        let a = coders[j].num_in_streams;
        let b = coders[j].num_out_streams;
        if tin > u64::MAX - a || tout > u64::MAX - b {
            return None;
        }
        tin = tin + a;
        tout = tout + b;
        j = j + 1;
    }
    proof {
        assert(cs.take(coders.len() as int) =~= cs);
    }
    Some((tin, tout))
}

impl Folder {
    /// Total number of output streams across all coders in this folder.
    #[must_use]
    pub fn total_out_streams(&self) -> (r: usize)
        requires
            sum_out(self@.coders) <= usize::MAX,
        ensures
            r == sum_out(self@.coders),
    {
        let ghost cs = self@.coders;
        let mut total: usize = 0;
        let mut j: usize = 0;
        proof {
            assert(cs.take(0) =~= Seq::<CoderInfoView>::empty());
        }
        while j < self.coders.len()
            invariant
                j <= self.coders.len(),
                cs == self@.coders,
                cs.len() == self.coders.len(),
                sum_out(cs) <= usize::MAX,
                total == sum_out(cs.take(j as int)),
            decreases self.coders.len() - j,
        {
            proof {
                lemma_sum_in_prefix(cs, j as nat);
                lemma_sums_monotone(cs, (j + 1) as nat);
            }
            total = total + self.coders[j].num_out_streams as usize;
            j = j + 1;
        }
        proof {
            assert(cs.take(self.coders.len() as int) =~= cs);
        }
        total
    }

    /// Parse a single `Folder` block (`num_coders`, coders, bind pairs, packed indices).
    pub fn parse(input: &[u8]) -> (res: Result<(&[u8], Folder), ParseError>)
        ensures
            match spec_parse_folder(input@) {
                None => res is Err,
                Some((c, v)) => res matches Ok((rem, f)) && f@ == v && rem@ == input@.skip(
                    c as int,
                ) && c <= input@.len(),
            },
    {
        proof {
            lemma_varint_decode_fits(input@);
        }
        let (r0, num_coders) = sevenzip_varuint64_decode(input)?;
        let ghost c0 = spec_varint_decode(input@).unwrap().0;
        let (r1, coders) = parse_coders(r0, num_coders)?;
        let ghost c1 = spec_repeat(coder_parser(), r0@, num_coders as nat).unwrap().0;
        proof {
            lemma_skip_skip(input@, c0, c1);
        }
        let (num_in_total, num_out_total) = match coder_stream_totals(&coders) {
            Some(t) => t,
            None => return Err(ParseError),
        };
        let num_bind_pairs = if num_out_total == 0 {
            0
        } else {
            num_out_total - 1
        };
        let (r2, bind_pairs) = parse_bind_pairs(r1, num_bind_pairs)?;
        let ghost c2 = spec_repeat(pair_parser(), r1@, num_bind_pairs as nat).unwrap().0;
        proof {
            lemma_skip_skip(input@, c0 + c1, c2);
        }
        if num_in_total < num_bind_pairs {
            return Err(ParseError);
        }
        let num_packed = num_in_total - num_bind_pairs;
        if num_packed != 1 {
            let (r3, packed_indices) = parse_varints(r2, num_packed)?;
            proof {
                let c3 = spec_repeat(varint_parser(), r2@, num_packed as nat).unwrap().0;
                lemma_skip_skip(input@, c0 + c1 + c2, c3);
            }
            Ok((r3, Folder { coders, bind_pairs, packed_indices }))
        } else {
            Ok((r2, Folder { coders, bind_pairs, packed_indices: Vec::new() }))
        }
    }
}

/// The coder header at the start of `input`, skipped without allocating:
/// the bytes after it and its stream counts.
#[verifier::rlimit(60)]
fn skip_coder(input: &[u8]) -> (res: Result<(&[u8], u64, u64), ParseError>)
    ensures
        match spec_parse_coder(input@) {
            None => res is Err,
            Some((c, v)) => res matches Ok((rem, a, b)) && rem@ == input@.skip(c as int) && a
                == v.num_in_streams && b == v.num_out_streams,
        },
{
    if input.len() == 0 {
        return Err(ParseError);
    }
    let flags = input[0];
    let codec_id_size = (flags & 0x0f) as usize;
    let is_complex = (flags & 0x10) != 0;
    let has_attributes = (flags & 0x20) != 0;
    if input.len() - 1 < codec_id_size {
        return Err(ParseError);
    }
    let rest = slice_subrange(input, 1 + codec_id_size, input.len());
    let ghost p1 = 1 + codec_id_size;
    proof {
        assert(rest@ =~= input@.skip(p1 as int));
        lemma_varint_decode_fits(rest@);
    }
    let (rest2, n_in, n_out) = if is_complex {
        let (r1, a) = sevenzip_varuint64_decode(rest)?;
        proof {
            lemma_varint_decode_fits(r1@);
        }
        let (r2, b) = sevenzip_varuint64_decode(r1)?;
        proof {
            let c1 = spec_varint_decode(rest@).unwrap().0;
            let c2 = spec_varint_decode(r1@).unwrap().0;
            lemma_skip_skip(rest@, c1, c2);
        }
        (r2, a, b)
    } else {
        proof {
            assert(rest@ =~= rest@.skip(0));
        }
        (rest, 1u64, 1u64)
    };
    let ghost c2 = spec_coder_counts(rest@, is_complex).unwrap().0;
    proof {
        lemma_skip_skip(input@, p1 as nat, c2);
        lemma_varint_decode_fits(rest2@);
    }
    if has_attributes {
        let (r1, prop_size) = sevenzip_varuint64_decode(rest2)?;
        if prop_size > r1.len() as u64 {
            return Err(ParseError);
        }
        let r2 = slice_subrange(r1, prop_size as usize, r1.len());
        proof {
            let c = spec_varint_decode(rest2@).unwrap().0;
            assert(r2@ =~= input@.skip((p1 + c2 + c + prop_size) as int));
        }
        Ok((r2, n_in, n_out))
    } else {
        proof {
            assert(rest2@ =~= input@.skip((p1 + c2) as int));
        }
        Ok((rest2, n_in, n_out))
    }
}

/// Validate a single folder's bytes without allocating, returning the bytes
/// after it and its total number of output streams.
///
/// This walks the same layout as [`Folder::parse`] and accepts exactly the
/// same inputs.
pub fn scan_folder(input: &[u8]) -> (res: Result<(&[u8], usize), ParseError>)
    ensures
        match spec_parse_folder(input@) {
            None => res is Err,
            Some((c, v)) => if sum_out(v.coders) > usize::MAX {
                res is Err
            } else {
                res matches Ok((rem, n)) && rem@ == input@.skip(c as int) && n == sum_out(v.coders)
            },
        },
{
    proof {
        lemma_varint_decode_fits(input@);
        lemma_coder_parser_bounded();
    }
    let (r0, num_coders) = sevenzip_varuint64_decode(input)?;
    let ghost c0 = spec_varint_decode(input@).unwrap().0;
    assert(varint_parser()(input@) == Some((c0, num_coders)));
    let mut rem = r0;
    let mut i: u64 = 0;
    let mut num_in_total: u64 = 0;
    let mut num_out_total: u64 = 0;
    let mut overflow = false;
    let ghost mut c: nat = 0;
    let ghost mut cs: Seq<CoderInfoView> = Seq::empty();
    while i < num_coders
        invariant
            i <= num_coders,
            bounded_parser(coder_parser()),
            r0@ == input@.skip(c0 as int),
            varint_parser()(input@) == Some((c0, num_coders)),
            spec_repeat(coder_parser(), r0@, i as nat) == Some((c, cs)),
            c <= r0@.len(),
            rem@ == r0@.skip(c as int),
            !overflow ==> num_in_total == sum_in(cs) && num_out_total == sum_out(cs),
            overflow ==> sum_in(cs) > u64::MAX || sum_out(cs) > u64::MAX,
        decreases num_coders - i,
    {
        match skip_coder(rem) {
            Ok((r, a, b)) => {
                proof {
                    lemma_parse_coder_bounded(rem@);
                    let (c2, v) = spec_parse_coder(rem@).unwrap();
                    lemma_skip_skip(r0@, c, c2);
                    c = c + c2;
                    let old_cs = cs;
                    cs = cs.push(v);
                    assert(cs.drop_last() =~= old_cs);
                }
                if !overflow {
                    if num_in_total > u64::MAX - a || num_out_total > u64::MAX - b {
                        overflow = true;
                    } else {
                        num_in_total = num_in_total + a;
                        num_out_total = num_out_total + b;
                    }
                }
                rem = r;
                i = i + 1;
            },
            Err(e) => {
                proof {
                    lemma_repeat_none_propagates(coder_parser(), r0@, (i + 1) as nat, num_coders as nat);
                    assert(r0@ == input@.skip(c0 as int));
                    assert(varint_parser()(input@) == Some((c0, num_coders)));
                }
                return Err(e);
            },
        }
    }
    proof {
        lemma_skip_skip(input@, c0, c);
    }
    if overflow {
        return Err(ParseError);
    }
    let num_bind_pairs = if num_out_total == 0 {
        0
    } else {
        num_out_total - 1
    };
    let (r2, _pairs) = parse_bind_pairs(rem, num_bind_pairs)?;
    let ghost c2 = spec_repeat(pair_parser(), rem@, num_bind_pairs as nat).unwrap().0;
    proof {
        lemma_skip_skip(input@, c0 + c, c2);
    }
    if num_in_total < num_bind_pairs {
        return Err(ParseError);
    }
    let num_packed = num_in_total - num_bind_pairs;
    let mut rem = r2;
    if num_packed != 1 {
        let (r3, _idx) = parse_varints(r2, num_packed)?;
        proof {
            let c3 = spec_repeat(varint_parser(), r2@, num_packed as nat).unwrap().0;
            lemma_skip_skip(input@, c0 + c + c2, c3);
        }
        rem = r3;
    }
    if num_out_total > usize::MAX as u64 {
        return Err(ParseError);
    }
    Ok((rem, num_out_total as usize))
}

/// The folder parser consumes no more than its input.
pub proof fn lemma_parse_folder_bounded(s: Seq<u8>)
    ensures
        spec_parse_folder(s) matches Some((c, _)) ==> c <= s.len(),
{
    lemma_varint_decode_fits(s);
    lemma_varint_parser_bounded();
    lemma_coder_parser_bounded();
    lemma_pair_parser_bounded();
    if let Some((c0, nc)) = varint_parser()(s) {
        let s1 = s.skip(c0 as int);
        lemma_repeat_bounded(coder_parser(), s1, nc as nat);
        if let Some((c1, coders)) = spec_repeat(coder_parser(), s1, nc as nat) {
            let nb = num_bind_pairs_of(sum_out(coders));
            let s2 = s.skip((c0 + c1) as int);
            lemma_repeat_bounded(pair_parser(), s2, nb);
            if let Some((c2, _)) = spec_repeat(pair_parser(), s2, nb) {
                if sum_in(coders) >= nb {
                    let np = (sum_in(coders) - nb) as nat;
                    lemma_repeat_bounded(varint_parser(), s.skip((c0 + c1 + c2) as int), np);
                }
            }
        }
    }
}

} // verus!
