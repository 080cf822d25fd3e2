//! One coder of a folder: codec id, stream counts and codec properties.
use crate::error::ParseError;
use crate::parsers::{lemma_varint_decode_fits, sevenzip_varuint64_decode, spec_varint_decode};
use vstd::prelude::*;
use vstd::slice::{slice_subrange, slice_to_vec};

verus! {

/// A single coder of a folder.
#[derive(Debug, PartialEq, Eq)]
pub struct CoderInfo {
    pub codec_id: Vec<u8>,
    pub num_in_streams: u64,
    pub num_out_streams: u64,
    pub properties: Option<Vec<u8>>,
}

/// The mathematical model of a [`CoderInfo`].
pub struct CoderInfoView {
    pub codec_id: Seq<u8>,
    pub num_in_streams: u64,
    pub num_out_streams: u64,
    pub properties: Option<Seq<u8>>,
}

impl View for CoderInfo {
    type V = CoderInfoView;

    open spec fn view(&self) -> CoderInfoView {
        CoderInfoView {
            codec_id: self.codec_id@,
            num_in_streams: self.num_in_streams,
            num_out_streams: self.num_out_streams,
            properties: match self.properties {
                Some(p) => Some(p@),
                None => None,
            },
        }
    }
}

/// The coder counts of a coder header: `(1, 1)` for a simple coder, two
/// varints for a complex one. Gives the bytes used and the counts.
pub open spec fn spec_coder_counts(s: Seq<u8>, complex: bool) -> Option<(nat, u64, u64)> {
    if !complex {
        Some((0, 1, 1))
    } else {
        match spec_varint_decode(s) {
            None => None,
            Some((c1, n_in)) => match spec_varint_decode(s.skip(c1 as int)) {
                None => None,
                Some((c2, n_out)) => Some((c1 + c2, n_in as u64, n_out as u64)),
            },
        }
    }
}

/// The properties block of a coder header: a varint size, then that many bytes.
pub open spec fn spec_coder_properties(s: Seq<u8>, has_attributes: bool) -> Option<
    (nat, Option<Seq<u8>>),
> {
    if !has_attributes {
        Some((0, None))
    } else {
        match spec_varint_decode(s) {
            None => None,
            Some((c, size)) => if c + size <= s.len() {
                Some((c + size, Some(s.subrange(c as int, (c + size) as int))))
            } else {
                None
            },
        }
    }
}

/// Parse of a coder at the start of `s`: flags byte (low nibble: id length;
/// `0x10`: complex; `0x20`: has properties), codec id, optional stream
/// counts, optional properties.
pub open spec fn spec_parse_coder(s: Seq<u8>) -> Option<(nat, CoderInfoView)> {
    if s.len() == 0 {
        None
    } else {
        let flags = s[0];
        let id_size = (flags & 0x0f) as nat;
        let complex = (flags & 0x10) != 0;
        let has_attributes = (flags & 0x20) != 0;
        if s.len() < 1 + id_size {
            None
        } else {
            let p1 = 1 + id_size;
            match spec_coder_counts(s.skip(p1 as int), complex) {
                None => None,
                Some((c2, n_in, n_out)) => match spec_coder_properties(
                    s.skip((p1 + c2) as int),
                    has_attributes,
                ) {
                    None => None,
                    Some((c3, props)) => Some(
                        (
                            p1 + c2 + c3,
                            CoderInfoView {
                                codec_id: s.subrange(1, p1 as int),
                                num_in_streams: n_in,
                                num_out_streams: n_out,
                                properties: props,
                            },
                        ),
                    ),
                },
            }
        }
    }
}

/// The coder parser consumes no more than its input.
pub proof fn lemma_parse_coder_bounded(s: Seq<u8>)
    ensures
        spec_parse_coder(s) matches Some((c, _)) ==> 1 <= c <= s.len(),
{
    if s.len() > 0 {
        let flags = s[0];
        let id_size = (flags & 0x0f) as nat;
        let p1 = 1 + id_size;
        if s.len() >= p1 {
            let t = s.skip(p1 as int);
            lemma_varint_decode_fits(t);
            if let Some((c1, _)) = spec_varint_decode(t) {
                lemma_varint_decode_fits(t.skip(c1 as int));
            }
            if let Some((c2, _, _)) = spec_coder_counts(t, (flags & 0x10) != 0) {
                let u = s.skip((p1 + c2) as int);
                lemma_varint_decode_fits(u);
            }
        }
    }
}

impl CoderInfo {
    /// A copy of this coder.
    pub fn duplicate(&self) -> (r: CoderInfo)
        ensures
            r@ == self@,
    {
        let properties = match &self.properties {
            Some(p) => Some(slice_to_vec(p.as_slice())),
            None => None,
        };
        CoderInfo {
            codec_id: slice_to_vec(self.codec_id.as_slice()),
            num_in_streams: self.num_in_streams,
            num_out_streams: self.num_out_streams,
            properties,
        }
    }

    /// Parse a coder from the start of `input`.
    #[verifier::rlimit(40)]
    pub fn parse(input: &[u8]) -> (res: Result<(&[u8], CoderInfo), ParseError>)
        ensures
            match spec_parse_coder(input@) {
                None => res is Err,
                Some((c, v)) => res matches Ok((rem, coder)) && coder@ == v && rem@ == input@.skip(
                    c as int,
                ),
            },
    {
        if input.len() == 0 {
            return Err(ParseError);
        }
        let flags = input[0];
        let codec_id_size = (flags & 0x0f) as usize;
        let is_complex = (flags & 0x10) != 0;
        let has_attributes = (flags & 0x20) != 0;
        if input.len() - 1 < codec_id_size {
            return Err(ParseError);
        }
        let codec_id = slice_to_vec(slice_subrange(input, 1, 1 + codec_id_size));
        let rest = slice_subrange(input, 1 + codec_id_size, input.len());
        let ghost p1 = 1 + codec_id_size;
        proof {
            assert(rest@ =~= input@.skip(p1 as int));
        }
        let (rest2, num_in_streams, num_out_streams) = parse_coder_counts(rest, is_complex)?;
        let ghost c2 = spec_coder_counts(rest@, is_complex).unwrap().0;
        proof {
            assert(rest2@ =~= input@.skip((p1 + c2) as int));
        }
        let (rest3, properties) = parse_coder_properties(rest2, has_attributes)?;
        let coder = CoderInfo { codec_id, num_in_streams, num_out_streams, properties };
        proof {
            let c3 = spec_coder_properties(rest2@, has_attributes).unwrap().0;
            assert(rest3@ =~= input@.skip((p1 + c2 + c3) as int));
            assert(coder@.codec_id =~= input@.subrange(1, p1 as int));
        }
        Ok((rest3, coder))
    }
}

fn parse_coder_counts(input: &[u8], complex: bool) -> (res: Result<(&[u8], u64, u64), ParseError>)
    ensures
        match spec_coder_counts(input@, complex) {
            None => res is Err,
            Some((c, a, b)) => res matches Ok((rem, x, y)) && x == a && y == b && rem@
                == input@.skip(c as int) && c <= input@.len(),
        },
{
    if !complex {
        proof {
            assert(input@ =~= input@.skip(0));
        }
        return Ok((input, 1, 1));
    }
    let (r1, n_in) = sevenzip_varuint64_decode(input)?;
    let (r2, n_out) = sevenzip_varuint64_decode(r1)?;
    proof {
        lemma_varint_decode_fits(input@);
        lemma_varint_decode_fits(r1@);
        let c1 = spec_varint_decode(input@).unwrap().0;
        let c2 = spec_varint_decode(r1@).unwrap().0;
        assert(r2@ =~= input@.skip((c1 + c2) as int));
    }
    Ok((r2, n_in, n_out))
}

fn parse_coder_properties(input: &[u8], has_attributes: bool) -> (res: Result<
    (&[u8], Option<Vec<u8>>),
    ParseError,
>)
    ensures
        match spec_coder_properties(input@, has_attributes) {
            None => res is Err,
            Some((c, p)) => res matches Ok((rem, q)) && rem@ == input@.skip(c as int) && c
                <= input@.len() && match q {
                Some(v) => p == Some(v@),
                None => p is None,
            },
        },
{
    if !has_attributes {
        proof {
            assert(input@ =~= input@.skip(0));
        }
        return Ok((input, None));
    }
    let (r1, prop_size) = sevenzip_varuint64_decode(input)?;
    proof {
        lemma_varint_decode_fits(input@);
    }
    if prop_size > r1.len() as u64 {
        return Err(ParseError);
    }
    let size = prop_size as usize;
    let props = slice_to_vec(slice_subrange(r1, 0, size));
    let r2 = slice_subrange(r1, size, r1.len());
    proof {
        let c = spec_varint_decode(input@).unwrap().0;
        assert(r2@ =~= input@.skip((c + size) as int));
        assert(props@ =~= input@.subrange(c as int, (c + size) as int));
    }
    Ok((r2, Some(props)))
}

} // verus!
