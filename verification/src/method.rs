//! 7z method identifiers used by p7zip / 7-Zip.
//!
//! The method ID bytes are the stable on-disk identifiers of the 7z format.
//! Some command-line method names map to the same ID: for example `FLZMA2`
//! is p7zip's fast LZMA2 encoder and still writes the LZMA2 method ID.
use vstd::prelude::*;
use vstd::string::StringSliceAdditionalSpecFns;

verus! {

/// What a method does to the data.
#[derive(Clone, Copy, Debug, PartialEq, Eq, Structural)]
pub enum MethodKind {
    Compression,
    Filter,
    Crypto,
}

/// A coder method known to the 7z format.
#[derive(Clone, Copy, Debug, PartialEq, Eq, Structural)]
pub enum SevenZMethod {
    Copy,
    Lzma,
    Lzma2,
    BZip2,
    Ppmd,
    Deflate,
    Deflate64,
    Bcj,
    Bcj2,
    Arm,
    ArmThumb,
    Ia64,
    Ppc,
    Sparc,
    Delta,
    Swap2,
    Swap4,
    Zstd,
    Brotli,
    Lz4,
    Lz5,
    Lizard,
    FastLzma2,
    Lzham,
    SevenZAes,
    Aes256Cbc,
}

/// The on-disk identifier of a method.
pub open spec fn spec_method_id(m: SevenZMethod) -> Seq<u8> {
    match m {
        SevenZMethod::Copy => seq![0x00u8],
        SevenZMethod::Lzma => seq![0x03u8, 0x01u8, 0x01u8],
        SevenZMethod::Lzma2 => seq![0x21u8],
        SevenZMethod::BZip2 => seq![0x04u8, 0x02u8, 0x02u8],
        SevenZMethod::Ppmd => seq![0x03u8, 0x04u8, 0x01u8],
        SevenZMethod::Deflate => seq![0x04u8, 0x01u8, 0x08u8],
        SevenZMethod::Deflate64 => seq![0x04u8, 0x01u8, 0x09u8],
        SevenZMethod::Bcj => seq![0x03u8, 0x03u8, 0x01u8, 0x03u8],
        SevenZMethod::Bcj2 => seq![0x03u8, 0x03u8, 0x01u8, 0x1Bu8],
        SevenZMethod::Arm => seq![0x03u8, 0x03u8, 0x05u8, 0x01u8],
        SevenZMethod::ArmThumb => seq![0x03u8, 0x03u8, 0x07u8, 0x01u8],
        SevenZMethod::Ia64 => seq![0x03u8, 0x03u8, 0x04u8, 0x01u8],
        SevenZMethod::Ppc => seq![0x03u8, 0x03u8, 0x02u8, 0x05u8],
        SevenZMethod::Sparc => seq![0x03u8, 0x03u8, 0x08u8, 0x05u8],
        SevenZMethod::Delta => seq![0x03u8],
        SevenZMethod::Swap2 => seq![0x02u8, 0x03u8, 0x02u8],
        SevenZMethod::Swap4 => seq![0x02u8, 0x03u8, 0x04u8],
        SevenZMethod::Zstd => seq![0x04u8, 0xF7u8, 0x11u8, 0x01u8],
        SevenZMethod::Brotli => seq![0x04u8, 0xF7u8, 0x11u8, 0x02u8],
        SevenZMethod::Lz4 => seq![0x04u8, 0xF7u8, 0x11u8, 0x04u8],
        SevenZMethod::Lz5 => seq![0x04u8, 0xF7u8, 0x11u8, 0x05u8],
        SevenZMethod::Lizard => seq![0x04u8, 0xF7u8, 0x11u8, 0x06u8],
        SevenZMethod::FastLzma2 => seq![0x21u8],
        SevenZMethod::Lzham => seq![0x04u8, 0xF7u8, 0x10u8, 0x01u8],
        SevenZMethod::SevenZAes => seq![0x06u8, 0xF1u8, 0x07u8, 0x01u8],
        SevenZMethod::Aes256Cbc => seq![0x06u8, 0xF0u8, 0x01u8, 0x81u8],
    }
}

/// The display name of a method.
pub open spec fn spec_method_name(m: SevenZMethod) -> &'static str {
    match m {
        SevenZMethod::Copy => "Copy",
        SevenZMethod::Lzma => "LZMA",
        SevenZMethod::Lzma2 => "LZMA2",
        SevenZMethod::BZip2 => "BZip2",
        SevenZMethod::Ppmd => "PPMd",
        SevenZMethod::Deflate => "Deflate",
        SevenZMethod::Deflate64 => "Deflate64",
        SevenZMethod::Bcj => "BCJ",
        SevenZMethod::Bcj2 => "BCJ2",
        SevenZMethod::Arm => "ARM",
        SevenZMethod::ArmThumb => "ARMT",
        SevenZMethod::Ia64 => "IA64",
        SevenZMethod::Ppc => "PPC",
        SevenZMethod::Sparc => "SPARC",
        SevenZMethod::Delta => "Delta",
        SevenZMethod::Swap2 => "Swap2",
        SevenZMethod::Swap4 => "Swap4",
        SevenZMethod::Zstd => "ZSTD",
        SevenZMethod::Brotli => "BROTLI",
        SevenZMethod::Lz4 => "LZ4",
        SevenZMethod::Lz5 => "LZ5",
        SevenZMethod::Lizard => "LIZARD",
        SevenZMethod::FastLzma2 => "FLZMA2",
        SevenZMethod::Lzham => "LZHAM",
        SevenZMethod::SevenZAes => "7zAES",
        SevenZMethod::Aes256Cbc => "AES256CBC",
    }
}

/// All methods, in the order in which lookups search them.
pub open spec fn spec_all_methods() -> Seq<SevenZMethod> {
    seq![
        SevenZMethod::Copy,
        SevenZMethod::Lzma,
        SevenZMethod::Lzma2,
        SevenZMethod::BZip2,
        SevenZMethod::Ppmd,
        SevenZMethod::Deflate,
        SevenZMethod::Deflate64,
        SevenZMethod::Bcj,
        SevenZMethod::Bcj2,
        SevenZMethod::Arm,
        SevenZMethod::ArmThumb,
        SevenZMethod::Ia64,
        SevenZMethod::Ppc,
        SevenZMethod::Sparc,
        SevenZMethod::Delta,
        SevenZMethod::Swap2,
        SevenZMethod::Swap4,
        SevenZMethod::Zstd,
        SevenZMethod::Brotli,
        SevenZMethod::Lz4,
        SevenZMethod::Lz5,
        SevenZMethod::Lizard,
        SevenZMethod::FastLzma2,
        SevenZMethod::Lzham,
        SevenZMethod::SevenZAes,
        SevenZMethod::Aes256Cbc,
    ]
}

/// All methods, in the order in which lookups search them.
pub fn all_methods() -> (r: Vec<SevenZMethod>)
    ensures
        r@ == spec_all_methods(),
{
    let r = vec![
        SevenZMethod::Copy,
        SevenZMethod::Lzma,
        SevenZMethod::Lzma2,
        SevenZMethod::BZip2,
        SevenZMethod::Ppmd,
        SevenZMethod::Deflate,
        SevenZMethod::Deflate64,
        SevenZMethod::Bcj,
        SevenZMethod::Bcj2,
        SevenZMethod::Arm,
        SevenZMethod::ArmThumb,
        SevenZMethod::Ia64,
        SevenZMethod::Ppc,
        SevenZMethod::Sparc,
        SevenZMethod::Delta,
        SevenZMethod::Swap2,
        SevenZMethod::Swap4,
        SevenZMethod::Zstd,
        SevenZMethod::Brotli,
        SevenZMethod::Lz4,
        SevenZMethod::Lz5,
        SevenZMethod::Lizard,
        SevenZMethod::FastLzma2,
        SevenZMethod::Lzham,
        SevenZMethod::SevenZAes,
        SevenZMethod::Aes256Cbc,
    ];
    proof {
        assert(r@ =~= spec_all_methods());
    }
    r
}

impl SevenZMethod {
    /// The on-disk identifier bytes of this method.
    #[must_use]
    pub fn id(self) -> (r: Vec<u8>)
        ensures
            r@ == spec_method_id(self),
    {
        let r = match self {
            Self::Copy => vec![0x00u8],
            Self::Lzma => vec![0x03u8, 0x01u8, 0x01u8],
            Self::Lzma2 => vec![0x21u8],
            Self::BZip2 => vec![0x04u8, 0x02u8, 0x02u8],
            Self::Ppmd => vec![0x03u8, 0x04u8, 0x01u8],
            Self::Deflate => vec![0x04u8, 0x01u8, 0x08u8],
            Self::Deflate64 => vec![0x04u8, 0x01u8, 0x09u8],
            Self::Bcj => vec![0x03u8, 0x03u8, 0x01u8, 0x03u8],
            Self::Bcj2 => vec![0x03u8, 0x03u8, 0x01u8, 0x1Bu8],
            Self::Arm => vec![0x03u8, 0x03u8, 0x05u8, 0x01u8],
            Self::ArmThumb => vec![0x03u8, 0x03u8, 0x07u8, 0x01u8],
            Self::Ia64 => vec![0x03u8, 0x03u8, 0x04u8, 0x01u8],
            Self::Ppc => vec![0x03u8, 0x03u8, 0x02u8, 0x05u8],
            Self::Sparc => vec![0x03u8, 0x03u8, 0x08u8, 0x05u8],
            Self::Delta => vec![0x03u8],
            Self::Swap2 => vec![0x02u8, 0x03u8, 0x02u8],
            Self::Swap4 => vec![0x02u8, 0x03u8, 0x04u8],
            Self::Zstd => vec![0x04u8, 0xF7u8, 0x11u8, 0x01u8],
            Self::Brotli => vec![0x04u8, 0xF7u8, 0x11u8, 0x02u8],
            Self::Lz4 => vec![0x04u8, 0xF7u8, 0x11u8, 0x04u8],
            Self::Lz5 => vec![0x04u8, 0xF7u8, 0x11u8, 0x05u8],
            Self::Lizard => vec![0x04u8, 0xF7u8, 0x11u8, 0x06u8],
            Self::FastLzma2 => vec![0x21u8],
            Self::Lzham => vec![0x04u8, 0xF7u8, 0x10u8, 0x01u8],
            Self::SevenZAes => vec![0x06u8, 0xF1u8, 0x07u8, 0x01u8],
            Self::Aes256Cbc => vec![0x06u8, 0xF0u8, 0x01u8, 0x81u8],
        };
        proof {
            assert(r@ =~= spec_method_id(self));
        }
        r
    }

    /// The display name of this method.
    #[must_use]
    pub fn name(self) -> (r: &'static str)
        ensures
            r == spec_method_name(self),
    {
        match self {
            Self::Copy => "Copy",
            Self::Lzma => "LZMA",
            Self::Lzma2 => "LZMA2",
            Self::BZip2 => "BZip2",
            Self::Ppmd => "PPMd",
            Self::Deflate => "Deflate",
            Self::Deflate64 => "Deflate64",
            Self::Bcj => "BCJ",
            Self::Bcj2 => "BCJ2",
            Self::Arm => "ARM",
            Self::ArmThumb => "ARMT",
            Self::Ia64 => "IA64",
            Self::Ppc => "PPC",
            Self::Sparc => "SPARC",
            Self::Delta => "Delta",
            Self::Swap2 => "Swap2",
            Self::Swap4 => "Swap4",
            Self::Zstd => "ZSTD",
            Self::Brotli => "BROTLI",
            Self::Lz4 => "LZ4",
            Self::Lz5 => "LZ5",
            Self::Lizard => "LIZARD",
            Self::FastLzma2 => "FLZMA2",
            Self::Lzham => "LZHAM",
            Self::SevenZAes => "7zAES",
            Self::Aes256Cbc => "AES256CBC",
        }
    }

    /// Whether this method transforms, compresses or encrypts.
    #[must_use]
    pub fn kind(self) -> (r: MethodKind)
        ensures
            r == spec_method_kind(self),
    {
        match self {
            Self::Bcj | Self::Bcj2 | Self::Arm | Self::ArmThumb | Self::Ia64 | Self::Ppc
            | Self::Sparc | Self::Delta | Self::Swap2 | Self::Swap4 => MethodKind::Filter,
            Self::SevenZAes | Self::Aes256Cbc => MethodKind::Crypto,
            _ => MethodKind::Compression,
        }
    }

    /// Whether this library can decode the method.
    #[must_use]
    pub fn supported_by_r7z(self) -> (r: bool)
        ensures
            r == spec_supported_by_r7z(self),
    {
        match self {
            Self::Copy | Self::Lzma | Self::Lzma2 | Self::Bcj | Self::SevenZAes => true,
            _ => false,
        }
    }
}

/// Branch filters, byte swaps and delta are filters; the two AES methods are
/// crypto; everything else compresses.
pub open spec fn spec_method_kind(m: SevenZMethod) -> MethodKind {
    match m {
        SevenZMethod::Bcj | SevenZMethod::Bcj2 | SevenZMethod::Arm | SevenZMethod::ArmThumb
        | SevenZMethod::Ia64 | SevenZMethod::Ppc | SevenZMethod::Sparc | SevenZMethod::Delta
        | SevenZMethod::Swap2 | SevenZMethod::Swap4 => MethodKind::Filter,
        SevenZMethod::SevenZAes | SevenZMethod::Aes256Cbc => MethodKind::Crypto,
        _ => MethodKind::Compression,
    }
}

/// The methods this library decodes: Copy, LZMA, LZMA2, BCJ and 7zAES.
pub open spec fn spec_supported_by_r7z(m: SevenZMethod) -> bool {
    m == SevenZMethod::Copy || m == SevenZMethod::Lzma || m == SevenZMethod::Lzma2 || m
        == SevenZMethod::Bcj || m == SevenZMethod::SevenZAes
}

/// The first method of `ms` whose identifier is `id`.
pub open spec fn first_with_id(ms: Seq<SevenZMethod>, id: Seq<u8>) -> Option<SevenZMethod>
    decreases ms.len(),
{
    if ms.len() == 0 {
        None
    } else if spec_method_id(ms[0]) == id {
        Some(ms[0])
    } else {
        first_with_id(ms.skip(1), id)
    }
}

/// A method name compared loosely: `-`, `_` and spaces dropped, ASCII
/// letters lower-cased.
pub open spec fn normalize_name(s: Seq<u8>) -> Seq<u8>
    decreases s.len(),
{
    if s.len() == 0 {
        Seq::empty()
    } else {
        let b = s.last();
        let rest = normalize_name(s.drop_last());
        if b == 0x2Du8 || b == 0x5Fu8 || b == 0x20u8 {
            rest
        } else if 0x41u8 <= b <= 0x5Au8 {
            rest.push((b + 32) as u8)
        } else {
            rest.push(b)
        }
    }
}

/// The first method of `ms` whose loosely compared name is `key`.
pub open spec fn first_with_name(ms: Seq<SevenZMethod>, key: Seq<u8>) -> Option<SevenZMethod>
    decreases ms.len(),
{
    if ms.len() == 0 {
        None
    } else if normalize_name(spec_method_name(ms[0]).spec_bytes()) == key {
        Some(ms[0])
    } else {
        first_with_name(ms.skip(1), key)
    }
}

/// Byte-wise equality of two slices.
pub(crate) fn bytes_equal(a: &[u8], b: &[u8]) -> (r: bool)
    ensures
        r == (a@ == b@),
{
    if a.len() != b.len() {
        return false;
    }
    let mut i: usize = 0;
    while i < a.len()
        invariant
            i <= a@.len(),
            a@.len() == b@.len(),
            forall|j: int| 0 <= j < i ==> a@[j] == b@[j],
        decreases a@.len() - i,
    {
        if a[i] != b[i] {
            return false;
        }
        i = i + 1;
    }
    proof {
        assert(a@ =~= b@);
    }
    true
}

/// Normalize a name for loose comparison (see [`normalize_name`]).
fn normalized(s: &[u8]) -> (r: Vec<u8>)
    ensures
        r@ == normalize_name(s@),
{
    let mut r: Vec<u8> = Vec::new();
    let mut i: usize = 0;
    proof {
        assert(s@.take(0) =~= Seq::<u8>::empty());
    }
    while i < s.len()
        invariant
            i <= s@.len(),
            r@ == normalize_name(s@.take(i as int)),
        decreases s@.len() - i,
    {
        let b = s[i];
        proof {
            assert(s@.take(i + 1).drop_last() =~= s@.take(i as int));
        }
        if b == 0x2D || b == 0x5F || b == 0x20 {
        } else if 0x41 <= b && b <= 0x5A {
            r.push(b + 32);
        } else {
            r.push(b);
        }
        i = i + 1;
    }
    proof {
        assert(s@.take(s@.len() as int) =~= s@);
    }
    r
}

/// The method with identifier `id`; the first in [`all_methods`] order when
/// two share one.
#[must_use]
pub fn method_from_id(id: &[u8]) -> (r: Option<SevenZMethod>)
    ensures
        r == first_with_id(spec_all_methods(), id@),
{
    let all = all_methods();
    let mut i: usize = 0;
    proof {
        assert(all@.skip(0) =~= all@);
    }
    while i < all.len()
        invariant
            i <= all@.len(),
            all@ == spec_all_methods(),
            first_with_id(spec_all_methods(), id@) == first_with_id(all@.skip(i as int), id@),
        decreases all@.len() - i,
    {
        let m = all[i];
        let mid = m.id();
        proof {
            assert(all@.skip(i as int)[0] == m);
            assert(all@.skip(i as int).skip(1) =~= all@.skip(i + 1));
        }
        if bytes_equal(mid.as_slice(), id) {
            return Some(m);
        }
        i = i + 1;
    }
    None
}

/// The method named `name`, compared loosely (see [`normalize_name`]).
#[must_use]
pub fn method_from_name(name: &str) -> (r: Option<SevenZMethod>)
    ensures
        r == first_with_name(spec_all_methods(), normalize_name(name.spec_bytes())),
{
    let key = normalized(name.as_bytes());
    let all = all_methods();
    let mut i: usize = 0;
    proof {
        assert(all@.skip(0) =~= all@);
    }
    while i < all.len()
        invariant
            i <= all@.len(),
            all@ == spec_all_methods(),
            key@ == normalize_name(name.spec_bytes()),
            first_with_name(spec_all_methods(), key@) == first_with_name(all@.skip(i as int), key@),
        decreases all@.len() - i,
    {
        let m = all[i];
        let candidate = normalized(m.name().as_bytes());
        proof {
            assert(all@.skip(i as int)[0] == m);
            assert(all@.skip(i as int).skip(1) =~= all@.skip(i + 1));
        }
        if bytes_equal(candidate.as_slice(), key.as_slice()) {
            return Some(m);
        }
        i = i + 1;
    }
    None
}

/// The place of `m` in [`all_methods`].
pub open spec fn spec_method_position(m: SevenZMethod) -> int {
    match m {
        SevenZMethod::Copy => 0,
        SevenZMethod::Lzma => 1,
        SevenZMethod::Lzma2 => 2,
        SevenZMethod::BZip2 => 3,
        SevenZMethod::Ppmd => 4,
        SevenZMethod::Deflate => 5,
        SevenZMethod::Deflate64 => 6,
        SevenZMethod::Bcj => 7,
        SevenZMethod::Bcj2 => 8,
        SevenZMethod::Arm => 9,
        SevenZMethod::ArmThumb => 10,
        SevenZMethod::Ia64 => 11,
        SevenZMethod::Ppc => 12,
        SevenZMethod::Sparc => 13,
        SevenZMethod::Delta => 14,
        SevenZMethod::Swap2 => 15,
        SevenZMethod::Swap4 => 16,
        SevenZMethod::Zstd => 17,
        SevenZMethod::Brotli => 18,
        SevenZMethod::Lz4 => 19,
        SevenZMethod::Lz5 => 20,
        SevenZMethod::Lizard => 21,
        SevenZMethod::FastLzma2 => 22,
        SevenZMethod::Lzham => 23,
        SevenZMethod::SevenZAes => 24,
        SevenZMethod::Aes256Cbc => 25,
    }
}

/// `m` is one of the two LZMA2 methods, which share an identifier.
pub open spec fn is_lzma2_method(m: SevenZMethod) -> bool {
    m == SevenZMethod::Lzma2 || m == SevenZMethod::FastLzma2
}

/// Two methods share an identifier exactly when they are the same method or
/// both write LZMA2.
pub proof fn lemma_method_ids_distinct(m1: SevenZMethod, m2: SevenZMethod)
    ensures
        (spec_method_id(m1) == spec_method_id(m2)) <==> (m1 == m2 || (is_lzma2_method(m1) && is_lzma2_method(m2))),
{
    let a = spec_method_id(m1);
    let b = spec_method_id(m2);
    if a == b {
        assert(a.len() == b.len());
        assert(a[0] == b[0]);
        if a.len() > 1 {
            assert(a[1] == b[1]);
        }
        if a.len() > 2 {
            assert(a[2] == b[2]);
        }
        if a.len() > 3 {
            assert(a[3] == b[3]);
        }
    }
    if m1 == m2 || (is_lzma2_method(m1) && is_lzma2_method(m2)) {
        assert(a =~= b);
    }
}

/// Every method is listed in [`all_methods`], at its place.
pub proof fn lemma_all_methods_position(m: SevenZMethod)
    ensures
        0 <= spec_method_position(m) < spec_all_methods().len(),
        spec_all_methods()[spec_method_position(m)] == m,
{
}

proof fn lemma_first_with_id_at(ms: Seq<SevenZMethod>, k: int, id: Seq<u8>)
    requires
        0 <= k < ms.len(),
        spec_method_id(ms[k]) == id,
        forall|j: int| 0 <= j < k ==> spec_method_id(#[trigger] ms[j]) != id,
    ensures
        first_with_id(ms, id) == Some(ms[k]),
    decreases k,
{
    if k > 0 {
        assert(spec_method_id(ms[0]) != id);
        assert forall|j: int| 0 <= j < k - 1 implies spec_method_id(#[trigger] ms.skip(1)[j]) != id by {
            assert(ms.skip(1)[j] == ms[j + 1]);
        }
        lemma_first_with_id_at(ms.skip(1), k - 1, id);
    }
}

/// Looking up a method's identifier gives the method back, except that the
/// identifier FLZMA2 writes reads back as LZMA2.
pub proof fn lemma_method_from_id_of_id(m: SevenZMethod)
    ensures
        first_with_id(spec_all_methods(), spec_method_id(m)) == Some(
            if m == SevenZMethod::FastLzma2 { SevenZMethod::Lzma2 } else { m },
        ),
{
    let ms = spec_all_methods();
    let t = if m == SevenZMethod::FastLzma2 { SevenZMethod::Lzma2 } else { m };
    lemma_all_methods_position(t);
    lemma_method_ids_distinct(m, t);
    let k = spec_method_position(t);
    assert forall|j: int| 0 <= j < k implies spec_method_id(#[trigger] ms[j]) != spec_method_id(m) by {
        lemma_all_methods_position(ms[j]);
        lemma_method_ids_distinct(ms[j], m);
        lemma_method_ids_distinct(ms[j], t);
    }
    lemma_first_with_id_at(ms, k, spec_method_id(m));
}

/// The loosely compared name of `m` (see [`normalize_name`]).
pub open spec fn spec_method_key(m: SevenZMethod) -> Seq<u8> {
    match m {
        SevenZMethod::Copy => seq![0x63u8, 0x6Fu8, 0x70u8, 0x79u8],
        SevenZMethod::Lzma => seq![0x6Cu8, 0x7Au8, 0x6Du8, 0x61u8],
        SevenZMethod::Lzma2 => seq![0x6Cu8, 0x7Au8, 0x6Du8, 0x61u8, 0x32u8],
        SevenZMethod::BZip2 => seq![0x62u8, 0x7Au8, 0x69u8, 0x70u8, 0x32u8],
        SevenZMethod::Ppmd => seq![0x70u8, 0x70u8, 0x6Du8, 0x64u8],
        SevenZMethod::Deflate => seq![0x64u8, 0x65u8, 0x66u8, 0x6Cu8, 0x61u8, 0x74u8, 0x65u8],
        SevenZMethod::Deflate64 => seq![0x64u8, 0x65u8, 0x66u8, 0x6Cu8, 0x61u8, 0x74u8, 0x65u8, 0x36u8, 0x34u8],
        SevenZMethod::Bcj => seq![0x62u8, 0x63u8, 0x6Au8],
        SevenZMethod::Bcj2 => seq![0x62u8, 0x63u8, 0x6Au8, 0x32u8],
        SevenZMethod::Arm => seq![0x61u8, 0x72u8, 0x6Du8],
        SevenZMethod::ArmThumb => seq![0x61u8, 0x72u8, 0x6Du8, 0x74u8],
        SevenZMethod::Ia64 => seq![0x69u8, 0x61u8, 0x36u8, 0x34u8],
        SevenZMethod::Ppc => seq![0x70u8, 0x70u8, 0x63u8],
        SevenZMethod::Sparc => seq![0x73u8, 0x70u8, 0x61u8, 0x72u8, 0x63u8],
        SevenZMethod::Delta => seq![0x64u8, 0x65u8, 0x6Cu8, 0x74u8, 0x61u8],
        SevenZMethod::Swap2 => seq![0x73u8, 0x77u8, 0x61u8, 0x70u8, 0x32u8],
        SevenZMethod::Swap4 => seq![0x73u8, 0x77u8, 0x61u8, 0x70u8, 0x34u8],
        SevenZMethod::Zstd => seq![0x7Au8, 0x73u8, 0x74u8, 0x64u8],
        SevenZMethod::Brotli => seq![0x62u8, 0x72u8, 0x6Fu8, 0x74u8, 0x6Cu8, 0x69u8],
        SevenZMethod::Lz4 => seq![0x6Cu8, 0x7Au8, 0x34u8],
        SevenZMethod::Lz5 => seq![0x6Cu8, 0x7Au8, 0x35u8],
        SevenZMethod::Lizard => seq![0x6Cu8, 0x69u8, 0x7Au8, 0x61u8, 0x72u8, 0x64u8],
        SevenZMethod::FastLzma2 => seq![0x66u8, 0x6Cu8, 0x7Au8, 0x6Du8, 0x61u8, 0x32u8],
        SevenZMethod::Lzham => seq![0x6Cu8, 0x7Au8, 0x68u8, 0x61u8, 0x6Du8],
        SevenZMethod::SevenZAes => seq![0x37u8, 0x7Au8, 0x61u8, 0x65u8, 0x73u8],
        SevenZMethod::Aes256Cbc => seq![0x61u8, 0x65u8, 0x73u8, 0x32u8, 0x35u8, 0x36u8, 0x63u8, 0x62u8, 0x63u8],
    }
}

/// The lower-case form of an ASCII letter; other bytes unchanged.
pub open spec fn lower_byte(b: u8) -> u8 {
    if 0x41u8 <= b <= 0x5Au8 {
        (b + 32) as u8
    } else {
        b
    }
}

/// A name without `-`, `_` or spaces compares loosely as its lower-case form.
proof fn lemma_normalize_plain(s: Seq<u8>)
    requires
        forall|i: int| 0 <= i < s.len() ==> #[trigger] s[i] != 0x2Du8 && s[i] != 0x5Fu8 && s[i] != 0x20u8,
    ensures
        normalize_name(s) == s.map_values(|b: u8| lower_byte(b)),
    decreases s.len(),
{
    if s.len() > 0 {
        let t = s.drop_last();
        assert forall|i: int| 0 <= i < t.len() implies #[trigger] t[i] != 0x2Du8 && t[i] != 0x5Fu8 && t[i] != 0x20u8 by {
            assert(t[i] == s[i]);
        }
        lemma_normalize_plain(t);
        assert(s[s.len() - 1] != 0x2Du8);
        assert(s.map_values(|b: u8| lower_byte(b)) =~= t.map_values(|b: u8| lower_byte(b)).push(lower_byte(s.last())));
    }
}

proof fn lemma_method_key(m: SevenZMethod)
    ensures
        normalize_name(spec_method_name(m).spec_bytes()) == spec_method_key(m),
{
    broadcast use vstd::string::is_ascii_spec_bytes;
    match m {
        SevenZMethod::Copy => {
            reveal_strlit("Copy");
            assert(vstd::string::is_ascii(spec_method_name(m)));
            assert(spec_method_name(m).spec_bytes() =~= seq![0x43u8, 0x6Fu8, 0x70u8, 0x79u8]);
            lemma_normalize_plain(seq![0x43u8, 0x6Fu8, 0x70u8, 0x79u8]);
            assert(seq![0x43u8, 0x6Fu8, 0x70u8, 0x79u8].map_values(|b: u8| lower_byte(b)) =~= spec_method_key(m));
        },
        SevenZMethod::Lzma => {
            reveal_strlit("LZMA");
            assert(vstd::string::is_ascii(spec_method_name(m)));
            assert(spec_method_name(m).spec_bytes() =~= seq![0x4Cu8, 0x5Au8, 0x4Du8, 0x41u8]);
            lemma_normalize_plain(seq![0x4Cu8, 0x5Au8, 0x4Du8, 0x41u8]);
            assert(seq![0x4Cu8, 0x5Au8, 0x4Du8, 0x41u8].map_values(|b: u8| lower_byte(b)) =~= spec_method_key(m));
        },
        SevenZMethod::Lzma2 => {
            reveal_strlit("LZMA2");
            assert(vstd::string::is_ascii(spec_method_name(m)));
            assert(spec_method_name(m).spec_bytes() =~= seq![0x4Cu8, 0x5Au8, 0x4Du8, 0x41u8, 0x32u8]);
            lemma_normalize_plain(seq![0x4Cu8, 0x5Au8, 0x4Du8, 0x41u8, 0x32u8]);
            assert(seq![0x4Cu8, 0x5Au8, 0x4Du8, 0x41u8, 0x32u8].map_values(|b: u8| lower_byte(b)) =~= spec_method_key(m));
        },
        SevenZMethod::BZip2 => {
            reveal_strlit("BZip2");
            assert(vstd::string::is_ascii(spec_method_name(m)));
            assert(spec_method_name(m).spec_bytes() =~= seq![0x42u8, 0x5Au8, 0x69u8, 0x70u8, 0x32u8]);
            lemma_normalize_plain(seq![0x42u8, 0x5Au8, 0x69u8, 0x70u8, 0x32u8]);
            assert(seq![0x42u8, 0x5Au8, 0x69u8, 0x70u8, 0x32u8].map_values(|b: u8| lower_byte(b)) =~= spec_method_key(m));
        },
        SevenZMethod::Ppmd => {
            reveal_strlit("PPMd");
            assert(vstd::string::is_ascii(spec_method_name(m)));
            assert(spec_method_name(m).spec_bytes() =~= seq![0x50u8, 0x50u8, 0x4Du8, 0x64u8]);
            lemma_normalize_plain(seq![0x50u8, 0x50u8, 0x4Du8, 0x64u8]);
            assert(seq![0x50u8, 0x50u8, 0x4Du8, 0x64u8].map_values(|b: u8| lower_byte(b)) =~= spec_method_key(m));
        },
        SevenZMethod::Deflate => {
            reveal_strlit("Deflate");
            assert(vstd::string::is_ascii(spec_method_name(m)));
            assert(spec_method_name(m).spec_bytes() =~= seq![0x44u8, 0x65u8, 0x66u8, 0x6Cu8, 0x61u8, 0x74u8, 0x65u8]);
            lemma_normalize_plain(seq![0x44u8, 0x65u8, 0x66u8, 0x6Cu8, 0x61u8, 0x74u8, 0x65u8]);
            assert(seq![0x44u8, 0x65u8, 0x66u8, 0x6Cu8, 0x61u8, 0x74u8, 0x65u8].map_values(|b: u8| lower_byte(b)) =~= spec_method_key(m));
        },
        SevenZMethod::Deflate64 => {
            reveal_strlit("Deflate64");
            assert(vstd::string::is_ascii(spec_method_name(m)));
            assert(spec_method_name(m).spec_bytes() =~= seq![0x44u8, 0x65u8, 0x66u8, 0x6Cu8, 0x61u8, 0x74u8, 0x65u8, 0x36u8, 0x34u8]);
            lemma_normalize_plain(seq![0x44u8, 0x65u8, 0x66u8, 0x6Cu8, 0x61u8, 0x74u8, 0x65u8, 0x36u8, 0x34u8]);
            assert(seq![0x44u8, 0x65u8, 0x66u8, 0x6Cu8, 0x61u8, 0x74u8, 0x65u8, 0x36u8, 0x34u8].map_values(|b: u8| lower_byte(b)) =~= spec_method_key(m));
        },
        SevenZMethod::Bcj => {
            reveal_strlit("BCJ");
            assert(vstd::string::is_ascii(spec_method_name(m)));
            assert(spec_method_name(m).spec_bytes() =~= seq![0x42u8, 0x43u8, 0x4Au8]);
            lemma_normalize_plain(seq![0x42u8, 0x43u8, 0x4Au8]);
            assert(seq![0x42u8, 0x43u8, 0x4Au8].map_values(|b: u8| lower_byte(b)) =~= spec_method_key(m));
        },
        SevenZMethod::Bcj2 => {
            reveal_strlit("BCJ2");
            assert(vstd::string::is_ascii(spec_method_name(m)));
            assert(spec_method_name(m).spec_bytes() =~= seq![0x42u8, 0x43u8, 0x4Au8, 0x32u8]);
            lemma_normalize_plain(seq![0x42u8, 0x43u8, 0x4Au8, 0x32u8]);
            assert(seq![0x42u8, 0x43u8, 0x4Au8, 0x32u8].map_values(|b: u8| lower_byte(b)) =~= spec_method_key(m));
        },
        SevenZMethod::Arm => {
            reveal_strlit("ARM");
            assert(vstd::string::is_ascii(spec_method_name(m)));
            assert(spec_method_name(m).spec_bytes() =~= seq![0x41u8, 0x52u8, 0x4Du8]);
            lemma_normalize_plain(seq![0x41u8, 0x52u8, 0x4Du8]);
            assert(seq![0x41u8, 0x52u8, 0x4Du8].map_values(|b: u8| lower_byte(b)) =~= spec_method_key(m));
        },
        SevenZMethod::ArmThumb => {
            reveal_strlit("ARMT");
            assert(vstd::string::is_ascii(spec_method_name(m)));
            assert(spec_method_name(m).spec_bytes() =~= seq![0x41u8, 0x52u8, 0x4Du8, 0x54u8]);
            lemma_normalize_plain(seq![0x41u8, 0x52u8, 0x4Du8, 0x54u8]);
            assert(seq![0x41u8, 0x52u8, 0x4Du8, 0x54u8].map_values(|b: u8| lower_byte(b)) =~= spec_method_key(m));
        },
        SevenZMethod::Ia64 => {
            reveal_strlit("IA64");
            assert(vstd::string::is_ascii(spec_method_name(m)));
            assert(spec_method_name(m).spec_bytes() =~= seq![0x49u8, 0x41u8, 0x36u8, 0x34u8]);
            lemma_normalize_plain(seq![0x49u8, 0x41u8, 0x36u8, 0x34u8]);
            assert(seq![0x49u8, 0x41u8, 0x36u8, 0x34u8].map_values(|b: u8| lower_byte(b)) =~= spec_method_key(m));
        },
        SevenZMethod::Ppc => {
            reveal_strlit("PPC");
            assert(vstd::string::is_ascii(spec_method_name(m)));
            assert(spec_method_name(m).spec_bytes() =~= seq![0x50u8, 0x50u8, 0x43u8]);
            lemma_normalize_plain(seq![0x50u8, 0x50u8, 0x43u8]);
            assert(seq![0x50u8, 0x50u8, 0x43u8].map_values(|b: u8| lower_byte(b)) =~= spec_method_key(m));
        },
        SevenZMethod::Sparc => {
            reveal_strlit("SPARC");
            assert(vstd::string::is_ascii(spec_method_name(m)));
            assert(spec_method_name(m).spec_bytes() =~= seq![0x53u8, 0x50u8, 0x41u8, 0x52u8, 0x43u8]);
            lemma_normalize_plain(seq![0x53u8, 0x50u8, 0x41u8, 0x52u8, 0x43u8]);
            assert(seq![0x53u8, 0x50u8, 0x41u8, 0x52u8, 0x43u8].map_values(|b: u8| lower_byte(b)) =~= spec_method_key(m));
        },
        SevenZMethod::Delta => {
            reveal_strlit("Delta");
            assert(vstd::string::is_ascii(spec_method_name(m)));
            assert(spec_method_name(m).spec_bytes() =~= seq![0x44u8, 0x65u8, 0x6Cu8, 0x74u8, 0x61u8]);
            lemma_normalize_plain(seq![0x44u8, 0x65u8, 0x6Cu8, 0x74u8, 0x61u8]);
            assert(seq![0x44u8, 0x65u8, 0x6Cu8, 0x74u8, 0x61u8].map_values(|b: u8| lower_byte(b)) =~= spec_method_key(m));
        },
        SevenZMethod::Swap2 => {
            reveal_strlit("Swap2");
            assert(vstd::string::is_ascii(spec_method_name(m)));
            assert(spec_method_name(m).spec_bytes() =~= seq![0x53u8, 0x77u8, 0x61u8, 0x70u8, 0x32u8]);
            lemma_normalize_plain(seq![0x53u8, 0x77u8, 0x61u8, 0x70u8, 0x32u8]);
            assert(seq![0x53u8, 0x77u8, 0x61u8, 0x70u8, 0x32u8].map_values(|b: u8| lower_byte(b)) =~= spec_method_key(m));
        },
        SevenZMethod::Swap4 => {
            reveal_strlit("Swap4");
            assert(vstd::string::is_ascii(spec_method_name(m)));
            assert(spec_method_name(m).spec_bytes() =~= seq![0x53u8, 0x77u8, 0x61u8, 0x70u8, 0x34u8]);
            lemma_normalize_plain(seq![0x53u8, 0x77u8, 0x61u8, 0x70u8, 0x34u8]);
            assert(seq![0x53u8, 0x77u8, 0x61u8, 0x70u8, 0x34u8].map_values(|b: u8| lower_byte(b)) =~= spec_method_key(m));
        },
        SevenZMethod::Zstd => {
            reveal_strlit("ZSTD");
            assert(vstd::string::is_ascii(spec_method_name(m)));
            assert(spec_method_name(m).spec_bytes() =~= seq![0x5Au8, 0x53u8, 0x54u8, 0x44u8]);
            lemma_normalize_plain(seq![0x5Au8, 0x53u8, 0x54u8, 0x44u8]);
            assert(seq![0x5Au8, 0x53u8, 0x54u8, 0x44u8].map_values(|b: u8| lower_byte(b)) =~= spec_method_key(m));
        },
        SevenZMethod::Brotli => {
            reveal_strlit("BROTLI");
            assert(vstd::string::is_ascii(spec_method_name(m)));
            assert(spec_method_name(m).spec_bytes() =~= seq![0x42u8, 0x52u8, 0x4Fu8, 0x54u8, 0x4Cu8, 0x49u8]);
            lemma_normalize_plain(seq![0x42u8, 0x52u8, 0x4Fu8, 0x54u8, 0x4Cu8, 0x49u8]);
            assert(seq![0x42u8, 0x52u8, 0x4Fu8, 0x54u8, 0x4Cu8, 0x49u8].map_values(|b: u8| lower_byte(b)) =~= spec_method_key(m));
        },
        SevenZMethod::Lz4 => {
            reveal_strlit("LZ4");
            assert(vstd::string::is_ascii(spec_method_name(m)));
            assert(spec_method_name(m).spec_bytes() =~= seq![0x4Cu8, 0x5Au8, 0x34u8]);
            lemma_normalize_plain(seq![0x4Cu8, 0x5Au8, 0x34u8]);
            assert(seq![0x4Cu8, 0x5Au8, 0x34u8].map_values(|b: u8| lower_byte(b)) =~= spec_method_key(m));
        },
        SevenZMethod::Lz5 => {
            reveal_strlit("LZ5");
            assert(vstd::string::is_ascii(spec_method_name(m)));
            assert(spec_method_name(m).spec_bytes() =~= seq![0x4Cu8, 0x5Au8, 0x35u8]);
            lemma_normalize_plain(seq![0x4Cu8, 0x5Au8, 0x35u8]);
            assert(seq![0x4Cu8, 0x5Au8, 0x35u8].map_values(|b: u8| lower_byte(b)) =~= spec_method_key(m));
        },
        SevenZMethod::Lizard => {
            reveal_strlit("LIZARD");
            assert(vstd::string::is_ascii(spec_method_name(m)));
            assert(spec_method_name(m).spec_bytes() =~= seq![0x4Cu8, 0x49u8, 0x5Au8, 0x41u8, 0x52u8, 0x44u8]);
            lemma_normalize_plain(seq![0x4Cu8, 0x49u8, 0x5Au8, 0x41u8, 0x52u8, 0x44u8]);
            assert(seq![0x4Cu8, 0x49u8, 0x5Au8, 0x41u8, 0x52u8, 0x44u8].map_values(|b: u8| lower_byte(b)) =~= spec_method_key(m));
        },
        SevenZMethod::FastLzma2 => {
            reveal_strlit("FLZMA2");
            assert(vstd::string::is_ascii(spec_method_name(m)));
            assert(spec_method_name(m).spec_bytes() =~= seq![0x46u8, 0x4Cu8, 0x5Au8, 0x4Du8, 0x41u8, 0x32u8]);
            lemma_normalize_plain(seq![0x46u8, 0x4Cu8, 0x5Au8, 0x4Du8, 0x41u8, 0x32u8]);
            assert(seq![0x46u8, 0x4Cu8, 0x5Au8, 0x4Du8, 0x41u8, 0x32u8].map_values(|b: u8| lower_byte(b)) =~= spec_method_key(m));
        },
        SevenZMethod::Lzham => {
            reveal_strlit("LZHAM");
            assert(vstd::string::is_ascii(spec_method_name(m)));
            assert(spec_method_name(m).spec_bytes() =~= seq![0x4Cu8, 0x5Au8, 0x48u8, 0x41u8, 0x4Du8]);
            lemma_normalize_plain(seq![0x4Cu8, 0x5Au8, 0x48u8, 0x41u8, 0x4Du8]);
            assert(seq![0x4Cu8, 0x5Au8, 0x48u8, 0x41u8, 0x4Du8].map_values(|b: u8| lower_byte(b)) =~= spec_method_key(m));
        },
        SevenZMethod::SevenZAes => {
            reveal_strlit("7zAES");
            assert(vstd::string::is_ascii(spec_method_name(m)));
            assert(spec_method_name(m).spec_bytes() =~= seq![0x37u8, 0x7Au8, 0x41u8, 0x45u8, 0x53u8]);
            lemma_normalize_plain(seq![0x37u8, 0x7Au8, 0x41u8, 0x45u8, 0x53u8]);
            assert(seq![0x37u8, 0x7Au8, 0x41u8, 0x45u8, 0x53u8].map_values(|b: u8| lower_byte(b)) =~= spec_method_key(m));
        },
        SevenZMethod::Aes256Cbc => {
            reveal_strlit("AES256CBC");
            assert(vstd::string::is_ascii(spec_method_name(m)));
            assert(spec_method_name(m).spec_bytes() =~= seq![0x41u8, 0x45u8, 0x53u8, 0x32u8, 0x35u8, 0x36u8, 0x43u8, 0x42u8, 0x43u8]);
            lemma_normalize_plain(seq![0x41u8, 0x45u8, 0x53u8, 0x32u8, 0x35u8, 0x36u8, 0x43u8, 0x42u8, 0x43u8]);
            assert(seq![0x41u8, 0x45u8, 0x53u8, 0x32u8, 0x35u8, 0x36u8, 0x43u8, 0x42u8, 0x43u8].map_values(|b: u8| lower_byte(b)) =~= spec_method_key(m));
        },
    }
}

/// Two methods have the same loosely compared name only when they are the
/// same method.
proof fn lemma_method_keys_distinct(m1: SevenZMethod, m2: SevenZMethod)
    ensures
        spec_method_key(m1) == spec_method_key(m2) ==> m1 == m2,
{
    let a = spec_method_key(m1);
    let b = spec_method_key(m2);
    if a == b {
        assert(a.len() == b.len());
        assert forall|i: int| 0 <= i < a.len() implies a[i] == b[i] by {}
        assert(a[0] == b[0]);
        if a.len() > 1 { assert(a[1] == b[1]); }
        if a.len() > 2 { assert(a[2] == b[2]); }
        if a.len() > 3 { assert(a[3] == b[3]); }
        if a.len() > 4 { assert(a[4] == b[4]); }
        if a.len() > 5 { assert(a[5] == b[5]); }
    }
}

proof fn lemma_first_with_name_at(ms: Seq<SevenZMethod>, k: int, key: Seq<u8>)
    requires
        0 <= k < ms.len(),
        normalize_name(spec_method_name(ms[k]).spec_bytes()) == key,
        forall|j: int| 0 <= j < k ==> normalize_name(spec_method_name(#[trigger] ms[j]).spec_bytes()) != key,
    ensures
        first_with_name(ms, key) == Some(ms[k]),
    decreases k,
{
    if k > 0 {
        assert(normalize_name(spec_method_name(ms[0]).spec_bytes()) != key);
        assert forall|j: int| 0 <= j < k - 1 implies normalize_name(spec_method_name(#[trigger] ms.skip(1)[j]).spec_bytes()) != key by {
            assert(ms.skip(1)[j] == ms[j + 1]);
        }
        lemma_first_with_name_at(ms.skip(1), k - 1, key);
    }
}

/// Looking up a method's own name gives the method back.
pub proof fn lemma_method_from_name_of_name(m: SevenZMethod)
    ensures
        first_with_name(spec_all_methods(), normalize_name(spec_method_name(m).spec_bytes())) == Some(m),
{
    let ms = spec_all_methods();
    lemma_all_methods_position(m);
    lemma_method_key(m);
    let k = spec_method_position(m);
    assert forall|j: int| 0 <= j < k implies normalize_name(spec_method_name(#[trigger] ms[j]).spec_bytes()) != normalize_name(spec_method_name(m).spec_bytes()) by {
        lemma_all_methods_position(ms[j]);
        lemma_method_key(ms[j]);
        lemma_method_keys_distinct(ms[j], m);
    }
    lemma_first_with_name_at(ms, k, normalize_name(spec_method_name(m).spec_bytes()));
}

proof fn lemma_first_with_name_found(ms: Seq<SevenZMethod>, key: Seq<u8>)
    ensures
        first_with_name(ms, key) matches Some(m) ==> normalize_name(spec_method_name(m).spec_bytes()) == key,
    decreases ms.len(),
{
    if ms.len() > 0 && normalize_name(spec_method_name(ms[0]).spec_bytes()) != key {
        lemma_first_with_name_found(ms.skip(1), key);
    }
}

/// A name looks up method `m` exactly when it compares loosely equal to
/// `m`'s own name: the loosely compared names of the methods all differ.
pub proof fn lemma_method_from_name_exact(key: Seq<u8>, m: SevenZMethod)
    ensures
        (first_with_name(spec_all_methods(), key) == Some(m)) <==> (key == normalize_name(
            spec_method_name(m).spec_bytes(),
        )),
{
    lemma_first_with_name_found(spec_all_methods(), key);
    if key == normalize_name(spec_method_name(m).spec_bytes()) {
        lemma_method_from_name_of_name(m);
    }
}

/// The p7zip revision whose method table this one follows.
pub const P7ZIP_ORACLE_SHA: &'static str = "6819e2dc1917e1267babddc6391cea56ead7123d";

} // verus!
