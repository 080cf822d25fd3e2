//! Values of command-line switches: sizes, levels, solid-block limits,
//! on/off flags and encoder settings.
use vstd::prelude::*;
use crate::cli::{ascii_lower, chars_of, lower_char, CliError, OverwriteMode};
use crate::write::model::{EncryptionOptions, HeaderMode};
use crate::write::model::{ArchiveOptions, Codec, CompressionLevel, CompressionOptions, LzmaAlgorithm, MatchFinder, SolidMode};
use crate::method::{first_with_name, method_from_name, normalize_name, spec_all_methods, SevenZMethod};
use vstd::string::StringSliceAdditionalSpecFns;

verus! {

/// `c` is an ASCII digit.
pub open spec fn is_digit(c: char) -> bool {
    '0' <= c <= '9'
}

/// The value of the decimal digits `s`.
pub open spec fn digits_value(s: Seq<char>) -> nat
    decreases s.len(),
{
    if s.len() == 0 { 0 } else { digits_value(s.drop_last()) * 10 + ((s.last() as u32) - ('0' as u32)) as nat }
}

/// An unsigned integer as `str::parse` reads it: an optional `+`, then one
/// or more digits, with a value of at most `max`.
pub open spec fn spec_parse_uint(s: Seq<char>, max: nat) -> Option<nat> {
    spec_parse_digits(if s.len() > 0 && s[0] == '+' { s.skip(1) } else { s }, max)
}

/// One or more digits `d` with a value of at most `max`.
pub open spec fn spec_parse_digits(d: Seq<char>, max: nat) -> Option<nat> {
    if d.len() == 0 || !(forall|k: int| 0 <= k < d.len() ==> is_digit(#[trigger] d[k])) {
        None
    } else if digits_value(d) > max {
        None
    } else {
        Some(digits_value(d))
    }
}

proof fn lemma_digits_mono(s: Seq<char>, k: int)
    requires
        0 <= k <= s.len(),
        forall|j: int| 0 <= j < s.len() ==> is_digit(#[trigger] s[j]),
    ensures
        digits_value(s.take(k)) <= digits_value(s),
    decreases s.len() - k,
{
    if k < s.len() {
        assert(s.take(k + 1).drop_last() =~= s.take(k));
        lemma_digits_mono(s, k + 1);
        assert(digits_value(s.take(k + 1)) >= digits_value(s.take(k))) by (nonlinear_arith)
            requires
                digits_value(s.take(k + 1)) == digits_value(s.take(k)) * 10 + ((s[k] as u32) - ('0' as u32)) as nat,
        ;
    } else {
        assert(s.take(k) =~= s);
    }
}

/// Read `v[from..to]` as an unsigned integer of at most `max`.
pub fn parse_uint(v: &Vec<char>, from: usize, to: usize, max: u64) -> (r: Option<u64>)
    requires
        from <= to <= v@.len(),
    ensures
        match spec_parse_uint(v@.subrange(from as int, to as int), max as nat) {
            None => r is None,
            Some(x) => r == Some(x as u64),
        },
{
    let ghost s = v@.subrange(from as int, to as int);
    let mut i = from;
    if i < to && v[i] == '+' {
        i = i + 1;
    }
    let ghost d = v@.subrange(i as int, to as int);
    proof {
        if s.len() > 0 && s[0] == '+' {
            assert(d =~= s.skip(1));
        } else {
            assert(d =~= s);
        }
    }
    if i == to {
        return None;
    }
    let start = i;
    let mut acc: u64 = 0;
    while i < to
        invariant
            start <= i <= to <= v@.len(),
            d == v@.subrange(start as int, to as int),
            spec_parse_uint(v@.subrange(from as int, to as int), max as nat) == spec_parse_digits(d, max as nat),
            forall|k: int| start <= k < i ==> is_digit(#[trigger] v@[k]),
            acc == digits_value(v@.subrange(start as int, i as int)),
            acc <= max,
        decreases to - i,
    {
        let c = v[i];
        if !('0' <= c && c <= '9') {
            proof {
                assert(d[i - start] == v@[i as int]);
                assert(!is_digit(d[i - start]));
            }
            return None;
        }
        let digit = ((c as u32) - ('0' as u32)) as u64;
        proof {
            assert(v@.subrange(start as int, i + 1).drop_last() =~= v@.subrange(start as int, i as int));
        }
        if digit > max {
            proof {
                if forall|j: int| 0 <= j < d.len() ==> is_digit(#[trigger] d[j]) {
                    assert(d.take(i + 1 - start) =~= v@.subrange(start as int, i + 1));
                    lemma_digits_mono(d, i + 1 - start);
                }
            }
            return None;
        }
        if acc > (max - digit) / 10 {
            proof {
                assert(digits_value(v@.subrange(start as int, i + 1)) > max) by (nonlinear_arith)
                    requires
                        digits_value(v@.subrange(start as int, i + 1)) == acc * 10 + digit,
                        acc > (max - digit) / 10,
                        digit <= max,
                ;
                assert forall|k: int| 0 <= k < d.len() implies is_digit(#[trigger] d[k]) || !(forall|j: int|
                    0 <= j < d.len() ==> is_digit(#[trigger] d[j])) by {}
                if forall|j: int| 0 <= j < d.len() ==> is_digit(#[trigger] d[j]) {
                    assert(d.take(i + 1 - start) =~= v@.subrange(start as int, i + 1));
                    lemma_digits_mono(d, i + 1 - start);
                }
            }
            return None;
        }
        acc = acc * 10 + digit;
        i = i + 1;
    }
    proof {
        assert(v@.subrange(start as int, to as int) =~= d);
    }
    Some(acc)
}

/// A usage error whose message is `a` followed by `b`.
#[verifier::external_body]
fn usage_error(a: &str, b: &str) -> (r: CliError)
    ensures
        match r {
            CliError::Usage(m) => m@ == a@ + b@,
            _ => false,
        },
{
    CliError::Usage(format!("{a}{b}"))
}

/// A usage error whose message is `a`, `b`, `c` and `d` in a row.
#[verifier::external_body]
fn usage_error4(a: &str, b: &str, c: &str, d: &str) -> (r: CliError)
    ensures
        match r {
            CliError::Usage(m) => m@ == a@ + b@ + c@ + d@,
            _ => false,
        },
{
    CliError::Usage(format!("{a}{b}{c}{d}"))
}

/// `v[from..to]` with ASCII letters in lower case.
pub fn lower_range(v: &Vec<char>, from: usize, to: usize) -> (r: Vec<char>)
    requires
        from <= to <= v@.len(),
    ensures
        r@ == ascii_lower(v@.subrange(from as int, to as int)),
{
    let mut out: Vec<char> = Vec::new();
    let mut i = from;
    while i < to
        invariant
            from <= i <= to <= v@.len(),
            out@ == ascii_lower(v@.subrange(from as int, i as int)),
        decreases to - i,
    {
        let c = v[i];
        let l = if 'A' <= c && c <= 'Z' { ((c as u32) + 32) as u8 as char } else { c };
        out.push(l);
        proof {
            assert(out@ =~= ascii_lower(v@.subrange(from as int, i + 1)));
        }
        i = i + 1;
    }
    out
}

/// `v` is exactly `lit`.
fn same(v: &Vec<char>, lit: &[char]) -> (r: bool)
    ensures
        r == (v@ == lit@),
{
    if v.len() != lit.len() {
        return false;
    }
    let mut k: usize = 0;
    while k < lit.len()
        invariant
            v@.len() == lit@.len(),
            k <= lit@.len(),
            forall|j: int| 0 <= j < k ==> v@[j] == lit@[j],
        decreases lit@.len() - k,
    {
        if v[k] != lit[k] {
            return false;
        }
        k = k + 1;
    }
    proof {
        assert(v@ =~= lit@);
    }
    true
}

/// The multiplier of a size suffix (`k`, `m`, `g`, either case), or 1.
pub open spec fn size_multiplier(c: char) -> u64 {
    if lower_char(c) == 'k' {
        1024
    } else if lower_char(c) == 'm' {
        0x10_0000
    } else if lower_char(c) == 'g' {
        0x4000_0000
    } else {
        1
    }
}

/// A size: digits with an optional `k`/`m`/`g` suffix (powers of 1024); it
/// must be greater than zero and fit in `u64`.
pub open spec fn spec_parse_size(t: Seq<char>) -> Option<u64> {
    if t.len() == 0 {
        None
    } else {
        let m = size_multiplier(t.last());
        let digits = if m == 1 { t } else { t.drop_last() };
        match spec_parse_uint(digits, u64::MAX as nat) {
            None => None,
            Some(v) => if v * m > u64::MAX || v * m == 0 { None } else { Some((v * m) as u64) },
        }
    }
}

/// The size written in `v` (see [`spec_parse_size`]).
fn size_of_chars(v: &Vec<char>) -> (r: Option<u64>)
    ensures
        r == spec_parse_size(v@),
{
    let n = v.len();
    if n == 0 {
        return None;
    }
    let last = v[n - 1];
    let l = if 'A' <= last && last <= 'Z' { ((last as u32) + 32) as u8 as char } else { last };
    let mult: u64 = if l == 'k' {
        1024
    } else if l == 'm' {
        0x10_0000
    } else if l == 'g' {
        0x4000_0000
    } else {
        1
    };
    let end = if mult == 1 { n } else { n - 1 };
    proof {
        if mult == 1 {
            assert(v@.subrange(0, end as int) =~= v@);
        } else {
            assert(v@.subrange(0, end as int) =~= v@.drop_last());
        }
    }
    let value = match parse_uint(v, 0, end, u64::MAX) {
        Some(x) => x,
        None => {
            return None;
        },
    };
    if value > u64::MAX / mult || value == 0 {
        proof {
            assert(value * mult > u64::MAX || value * mult == 0) by (nonlinear_arith)
                requires
                    value > u64::MAX / mult || value == 0,
                    mult >= 1,
            ;
        }
        return None;
    }
    proof {
        assert(value * mult <= u64::MAX) by (nonlinear_arith)
            requires
                value <= u64::MAX / mult,
                mult >= 1,
        ;
    }
    Some(value * mult)
}

/// Read a size (see [`spec_parse_size`]); `label` names it in the error.
pub fn parse_size_with_label(text: &str, label: &str) -> (r: Result<u64, CliError>)
    ensures
        match spec_parse_size(text@) {
            Some(v) => r matches Ok(x) && x == v,
            None => r matches Err(CliError::Usage(_)),
        },
{
    let v = chars_of(text);
    if v.len() == 0 {
        return Err(CliError::Usage(String::from_str("-v requires an attached size")));
    }
    match size_of_chars(&v) {
        Some(x) => Ok(x),
        None => Err(usage_error4("invalid ", label, ": ", text)),
    }
}

/// Read a volume size.
pub fn parse_size(text: &str) -> (r: Result<u64, CliError>)
    ensures
        match spec_parse_size(text@) {
            Some(v) => r matches Ok(x) && x == v,
            None => r matches Err(CliError::Usage(_)),
        },
{
    parse_size_with_label(text, "volume size")
}

/// The position of the first `=` in `s`, if any.
pub open spec fn first_eq(s: Seq<char>) -> Option<int> {
    if exists|k: int| 0 <= k < s.len() && s[k] == '=' {
        Some(choose|k: int| 0 <= k < s.len() && s[k] == '=' && forall|j: int| 0 <= j < k ==> s[j] != '=')
    } else {
        None
    }
}

/// The part of a switch after its first `=`, if it has one.
pub open spec fn after_eq(s: Seq<char>) -> Option<Seq<char>> {
    match first_eq(s) {
        Some(k) => Some(s.skip(k + 1)),
        None => None,
    }
}

fn find_eq(v: &Vec<char>) -> (r: Option<usize>)
    ensures
        match first_eq(v@) {
            Some(k) => r == Some(k as usize) && 0 <= k < v@.len(),
            None => r is None,
        },
        r matches Some(k) ==> k < v@.len(),
{
    let mut k: usize = 0;
    while k < v.len()
        invariant
            k <= v@.len(),
            forall|j: int| 0 <= j < k ==> v@[j] != '=',
        decreases v@.len() - k,
    {
        if v[k] == '=' {
            proof {
                let c = choose|q: int| 0 <= q < v@.len() && v@[q] == '=' && forall|j: int| 0 <= j < q ==> v@[j] != '=';
                assert(c == k) by {
                    if c < k {
                        assert(v@[c] != '=');
                    } else if c > k {
                        assert(v@[k as int] != '=');
                    }
                }
            }
            return Some(k);
        }
        k = k + 1;
    }
    None
}

/// `s` without leading repetitions of `mx`.
pub open spec fn strip_mx(s: Seq<char>) -> Seq<char>
    decreases s.len(),
{
    if s.len() >= 2 && s[0] == 'm' && s[1] == 'x' { strip_mx(s.skip(2)) } else { s }
}

/// The compression level a `-mx` switch asks for.
pub open spec fn spec_level(s: Seq<char>) -> Option<CompressionLevel> {
    let v = match after_eq(s) {
        Some(x) => x,
        None => strip_mx(s),
    };
    if v.len() == 0 || v == seq!['5'] {
        Some(CompressionLevel::Normal)
    } else if v == seq!['0'] {
        Some(CompressionLevel::Store)
    } else if v == seq!['1'] {
        Some(CompressionLevel::Fastest)
    } else if v == seq!['3'] {
        Some(CompressionLevel::Fast)
    } else if v == seq!['7'] {
        Some(CompressionLevel::Maximum)
    } else if v == seq!['9'] {
        Some(CompressionLevel::Ultra)
    } else {
        None
    }
}

/// Read the level of a `-mx` switch (`-mx`, `-mxN`, `-mx=N`).
#[verifier::rlimit(40)]
pub fn parse_level(switch: &str) -> (r: Result<CompressionLevel, CliError>)
    ensures
        match spec_level(switch@) {
            Some(l) => r matches Ok(x) && x == l,
            None => r matches Err(CliError::Usage(_)),
        },
{
    let v = chars_of(switch);
    let n = v.len();
    let eq = find_eq(&v);
    let mut start: usize = match eq {
        Some(k) => {
            assert(k < n);
            k + 1
        },
        None => {
            let mut i: usize = 0;
            proof {
                assert(v@.skip(0) =~= v@);
            }
            while v.len() - i >= 2 && v[i] == 'm' && v[i + 1] == 'x'
                invariant
                    i <= v@.len(),
                    strip_mx(v@) == strip_mx(v@.skip(i as int)),
                decreases v@.len() - i,
            {
                proof {
                    assert(v@.skip(i as int).skip(2) =~= v@.skip(i + 2));
                }
                i = i + 2;
            }
            proof {
                assert(strip_mx(v@.skip(i as int)) == v@.skip(i as int));
            }
            i
        },
    };
    let ghost spec_value = match after_eq(v@) {
        Some(x) => x,
        None => strip_mx(v@),
    };
    assert(spec_value == v@.skip(start as int));
    let value = vstd::slice::slice_subrange(v.as_slice(), start, v.len());
    let mut w: Vec<char> = Vec::new();
    let mut q: usize = 0;
    while q < value.len()
        invariant
            q <= value@.len(),
            w@ == value@.take(q as int),
        decreases value@.len() - q,
    {
        w.push(value[q]);
        proof {
            assert(w@ =~= value@.take(q + 1));
        }
        q = q + 1;
    }
    proof {
        assert(value@.take(value@.len() as int) =~= value@);
        assert(v@.skip(start as int) =~= value@);
    }
    let (w0, w5, w1, w3, w7, w9): (&[char], &[char], &[char], &[char], &[char], &[char]) = (&['0'], &['5'], &['1'], &['3'], &['7'], &['9']);
    proof {
        assert(w0@ =~= seq!['0']);
        assert(w5@ =~= seq!['5']);
        assert(w1@ =~= seq!['1']);
        assert(w3@ =~= seq!['3']);
        assert(w7@ =~= seq!['7']);
        assert(w9@ =~= seq!['9']);
    }
    if w.len() == 0 || same(&w, w5) {
        Ok(CompressionLevel::Normal)
    } else if same(&w, w0) {
        Ok(CompressionLevel::Store)
    } else if same(&w, w1) {
        Ok(CompressionLevel::Fastest)
    } else if same(&w, w3) {
        Ok(CompressionLevel::Fast)
    } else if same(&w, w7) {
        Ok(CompressionLevel::Maximum)
    } else if same(&w, w9) {
        Ok(CompressionLevel::Ultra)
    } else {
        Err(usage_error("unsupported compression level: ", switch))
    }
}

/// The characters of `v` after position `from`, as a new vector.
fn tail(v: &Vec<char>, from: usize) -> (r: Vec<char>)
    requires
        from <= v@.len(),
    ensures
        r@ == v@.skip(from as int),
{
    let mut w: Vec<char> = Vec::new();
    let mut q: usize = from;
    while q < v.len()
        invariant
            from <= q <= v@.len(),
            w@ == v@.subrange(from as int, q as int),
        decreases v@.len() - q,
    {
        w.push(v[q]);
        proof {
            assert(w@ =~= v@.subrange(from as int, q + 1));
        }
        q = q + 1;
    }
    proof {
        assert(v@.subrange(from as int, v@.len() as int) =~= v@.skip(from as int));
    }
    w
}

/// The lower-cased value after the first `=` of `v`, if any.
fn lower_value(v: &Vec<char>) -> (r: Option<Vec<char>>)
    ensures
        match after_eq(v@) {
            None => r is None,
            Some(x) => r matches Some(w) && w@ == ascii_lower(x),
        },
{
    let n = v.len();
    match find_eq(v) {
        None => None,
        Some(k) => {
            assert(k < n);
            let w = lower_range(v, k + 1, n);
            proof {
                assert(v@.subrange(k + 1, n as int) =~= v@.skip(k + 1));
            }
            Some(w)
        },
    }
}

/// `on`, `1`, `yes` or `off`, `0`, `no`.
pub open spec fn spec_on_off(v: Seq<char>) -> Option<bool> {
    if v == seq!['o', 'n'] || v == seq!['1'] || v == seq!['y', 'e', 's'] {
        Some(true)
    } else if v == seq!['o', 'f', 'f'] || v == seq!['0'] || v == seq!['n', 'o'] {
        Some(false)
    } else {
        None
    }
}

fn on_off(w: &Vec<char>) -> (r: Option<bool>)
    ensures
        r == spec_on_off(w@),
{
    let (on, one, yes, off, zero, no): (&[char], &[char], &[char], &[char], &[char], &[char]) = (
        &['o', 'n'],
        &['1'],
        &['y', 'e', 's'],
        &['o', 'f', 'f'],
        &['0'],
        &['n', 'o'],
    );
    proof {
        assert(on@ =~= seq!['o', 'n']);
        assert(one@ =~= seq!['1']);
        assert(yes@ =~= seq!['y', 'e', 's']);
        assert(off@ =~= seq!['o', 'f', 'f']);
        assert(zero@ =~= seq!['0']);
        assert(no@ =~= seq!['n', 'o']);
    }
    if same(w, on) || same(w, one) || same(w, yes) {
        Some(true)
    } else if same(w, off) || same(w, zero) || same(w, no) {
        Some(false)
    } else {
        None
    }
}

/// The value of an on/off switch (`-mhe`, `-mhe=on`, ...): on without `=`.
pub open spec fn spec_on_off_switch(s: Seq<char>) -> Option<bool> {
    match after_eq(s) {
        None => Some(true),
        Some(v) => spec_on_off(ascii_lower(v)),
    }
}

/// Read an on/off switch; `name` names it in the error.
pub fn parse_on_off_value(switch: &str, name: &str) -> (r: Result<bool, CliError>)
    ensures
        match spec_on_off_switch(switch@) {
            Some(b) => r matches Ok(x) && x == b,
            None => r matches Err(CliError::Usage(_)),
        },
{
    let v = chars_of(switch);
    match lower_value(&v) {
        None => Ok(true),
        Some(w) => match on_off(&w) {
            Some(b) => Ok(b),
            None => Err(usage_error(name, " expects on or off")),
        },
    }
}

/// The solid mode a `-ms` switch asks for: solid without `=`, `on`/`off`
/// (and synonyms), `Nf` for at most N files per block, or a size for at
/// most that many bytes per block.
pub open spec fn spec_solid(s: Seq<char>) -> Option<SolidMode> {
    match after_eq(s) {
        None => Some(SolidMode::Solid),
        Some(raw) => {
            let v = ascii_lower(raw);
            match spec_on_off(v) {
                Some(true) => Some(SolidMode::Solid),
                Some(false) => Some(SolidMode::NonSolid),
                None => if v.len() > 0 && v.last() == 'f' {
                    match spec_parse_uint(v.drop_last(), u64::MAX as nat) {
                        Some(n) => if n == 0 {
                            None
                        } else {
                            Some(SolidMode::Limit { max_files: Some(n as u64), max_bytes: None })
                        },
                        None => None,
                    }
                } else {
                    match spec_parse_size(v) {
                        Some(b) => Some(SolidMode::Limit { max_files: None, max_bytes: Some(b) }),
                        None => None,
                    }
                },
            }
        },
    }
}

/// Read the solid mode of a `-ms` switch.
pub fn parse_solid(switch: &str) -> (r: Result<SolidMode, CliError>)
    ensures
        match spec_solid(switch@) {
            Some(m) => r matches Ok(x) && x == m,
            None => r matches Err(CliError::Usage(_)),
        },
{
    let v = chars_of(switch);
    let w = match lower_value(&v) {
        None => {
            return Ok(SolidMode::Solid);
        },
        Some(w) => w,
    };
    match on_off(&w) {
        Some(true) => {
            return Ok(SolidMode::Solid);
        },
        Some(false) => {
            return Ok(SolidMode::NonSolid);
        },
        None => {},
    }
    let n = w.len();
    if n > 0 && w[n - 1] == 'f' {
        proof {
            assert(w@.subrange(0, n - 1) =~= w@.drop_last());
        }
        return match parse_uint(&w, 0, n - 1, u64::MAX) {
            Some(files) => if files == 0 {
                Err(usage_error("invalid solid file limit: ", switch))
            } else {
                Ok(SolidMode::Limit { max_files: Some(files), max_bytes: None })
            },
            None => Err(usage_error("invalid solid file limit: ", switch)),
        };
    }
    match size_of_chars(&w) {
        Some(bytes) => Ok(SolidMode::Limit { max_files: None, max_bytes: Some(bytes) }),
        None => Err(usage_error("invalid solid byte limit: ", switch)),
    }
}

/// `v` starts with `lit`.
fn starts(v: &Vec<char>, lit: &[char]) -> (r: bool)
    ensures
        r == (lit@.len() <= v@.len() && v@.take(lit@.len() as int) == lit@),
{
    if lit.len() > v.len() {
        return false;
    }
    let mut k: usize = 0;
    while k < lit.len()
        invariant
            lit@.len() <= v@.len(),
            k <= lit@.len(),
            forall|j: int| 0 <= j < k ==> v@[j] == lit@[j],
        decreases lit@.len() - k,
    {
        if v[k] != lit[k] {
            proof {
                assert(v@.take(lit@.len() as int)[k as int] != lit@[k as int]);
            }
            return false;
        }
        k = k + 1;
    }
    proof {
        assert(v@.take(lit@.len() as int) =~= lit@);
    }
    true
}

/// The value attached to a switch after its first `skip` characters: an
/// optional `=` is dropped; it must not be empty.
pub open spec fn spec_attached(s: Seq<char>, skip: nat) -> Option<Seq<char>> {
    if skip > s.len() {
        None
    } else {
        let v = s.skip(skip as int);
        let w = if v.len() > 0 && v[0] == '=' { v.skip(1) } else { v };
        if w.len() == 0 { None } else { Some(w) }
    }
}

fn attached(v: &Vec<char>, skip: usize) -> (r: Option<Vec<char>>)
    ensures
        match spec_attached(v@, skip as nat) {
            None => r is None,
            Some(w) => r matches Some(x) && x@ == w,
        },
{
    if skip > v.len() {
        return None;
    }
    let mut from = skip;
    if from < v.len() && v[from] == '=' {
        from = from + 1;
    }
    proof {
        if skip < v@.len() {
            assert(v@.skip(skip as int).skip(1) =~= v@.skip(skip + 1));
        }
    }
    if from == v.len() {
        return None;
    }
    Some(tail(v, from))
}

/// The largest value of an LZMA property (`lc`: 8, `lp` and `pb`: 4).
pub open spec fn bits_max(name: Seq<char>) -> Option<nat> {
    if name == seq!['l', 'c'] {
        Some(8)
    } else if name == seq!['l', 'p'] || name == seq!['p', 'b'] {
        Some(4)
    } else {
        None
    }
}

/// The value of an LZMA property switch: a number up to the property's maximum.
pub open spec fn spec_property_bits(value: Seq<char>, max: nat) -> Option<u32> {
    match spec_parse_uint(value, u32::MAX as nat) {
        Some(b) => if b > max { None } else { Some(b as u32) },
        None => None,
    }
}

fn property_bits(value: &Vec<char>, max: u32) -> (r: Option<u32>)
    ensures
        r == spec_property_bits(value@, max as nat),
{
    proof {
        assert(value@.subrange(0, value@.len() as int) =~= value@);
    }
    match parse_uint(value, 0, value.len(), u32::MAX as u64) {
        Some(b) => if b > max as u64 { None } else { Some(b as u32) },
        None => None,
    }
}

/// `lc + lp` (3 and 0 when not given) is at most 4.
pub open spec fn bits_combination_ok(c: CompressionOptions) -> bool {
    (match c.literal_context_bits { Some(x) => x as int, None => 3 }) + (match c.literal_position_bits {
        Some(x) => x as int,
        None => 0,
    }) <= 4
}

/// Check that `lc + lp` is at most 4.
pub fn validate_lzma_property_bit_combination(c: &CompressionOptions) -> (r: Result<(), CliError>)
    ensures
        bits_combination_ok(*c) ==> r is Ok,
        !bits_combination_ok(*c) ==> r matches Err(CliError::Usage(_)),
{
    let lc: u64 = match c.literal_context_bits {
        Some(x) => x as u64,
        None => 3,
    };
    let lp: u64 = match c.literal_position_bits {
        Some(x) => x as u64,
        None => 0,
    };
    if lc + lp > 4 {
        return Err(CliError::Usage(String::from_str("invalid LZMA lc/lp combination: lc + lp must be <= 4")));
    }
    Ok(())
}

/// `0` (fast) or `1` (normal).
pub open spec fn spec_algorithm(v: Seq<char>) -> Option<LzmaAlgorithm> {
    if v == seq!['0'] {
        Some(LzmaAlgorithm::Fast)
    } else if v == seq!['1'] {
        Some(LzmaAlgorithm::Normal)
    } else {
        None
    }
}

/// `hc4` or `bt4`, in any case.
pub open spec fn spec_match_finder(v: Seq<char>) -> Option<MatchFinder> {
    if ascii_lower(v) == seq!['h', 'c', '4'] {
        Some(MatchFinder::Hc4)
    } else if ascii_lower(v) == seq!['b', 't', '4'] {
        Some(MatchFinder::Bt4)
    } else {
        None
    }
}

/// The codec a method name selects, when r7z can write it.
pub open spec fn spec_codec_for(m: Option<SevenZMethod>) -> Option<Codec> {
    match m {
        Some(SevenZMethod::Copy) => Some(Codec::Copy),
        Some(SevenZMethod::Lzma) => Some(Codec::Lzma),
        Some(SevenZMethod::Lzma2) | Some(SevenZMethod::FastLzma2) => Some(Codec::Lzma2),
        Some(SevenZMethod::Ppmd) => Some(Codec::Ppmd),
        _ => None,
    }
}

/// The codec for the method named `name`.
pub fn codec_from_method_name(name: &str) -> (r: Result<Codec, CliError>)
    ensures
        match spec_codec_for(first_with_name(spec_all_methods(), normalize_name(name.spec_bytes()))) {
            Some(c) => r matches Ok(x) && x == c,
            None => r matches Err(CliError::Usage(_)),
        },
{
    match method_from_name(name) {
        Some(SevenZMethod::Copy) => Ok(Codec::Copy),
        Some(SevenZMethod::Lzma) => Ok(Codec::Lzma),
        Some(SevenZMethod::Lzma2) | Some(SevenZMethod::FastLzma2) => Ok(Codec::Lzma2),
        Some(SevenZMethod::Ppmd) => Ok(Codec::Ppmd),
        Some(_) => Err(usage_error("method is tracked for parity but not yet supported by r7z: ", name)),
        None => Err(usage_error("unknown method: ", name)),
    }
}

/// The state gathered while reading switches.
pub struct CliParseState {
    pub output_dir: String,
    pub password: Option<String>,
    pub options: ArchiveOptions,
    pub technical: bool,
    pub method_was_explicit: bool,
    pub volume_sizes: Vec<u64>,
    pub overwrite_mode: OverwriteMode,
    pub assume_yes: bool,
}

impl Default for CliParseState {
    fn default() -> (r: Self)
        ensures
            r.output_dir@ == seq!['.'],
            r.password is None,
            r.options.codec == Codec::Lzma2,
            r.options.encryption is None,
            !r.technical,
            !r.method_was_explicit,
            r.volume_sizes@.len() == 0,
            r.overwrite_mode == OverwriteMode::Ask,
            !r.assume_yes,
    {
        let dot: &str = ".";
        proof {
            reveal_strlit(".");
        }
        CliParseState {
            output_dir: dot.to_string(),
            password: None,
            options: ArchiveOptions::default(),
            technical: false,
            method_was_explicit: false,
            volume_sizes: Vec::new(),
            overwrite_mode: OverwriteMode::Ask,
            assume_yes: false,
        }
    }
}

/// `l` starts with `w`.
pub open spec fn has_prefix(l: Seq<char>, w: Seq<char>) -> bool {
    w.len() <= l.len() && l.take(w.len() as int) == w
}

/// What a switch (without its leading `-`) asks for. A switch falls under
/// the first of these, in this order, whose test it meets; the tests look at
/// the lower-cased switch, except those of `-o`, `-p` and `-v`, which look at
/// its first character as written.
#[derive(Clone, Copy, Debug, PartialEq, Eq, Structural)]
pub enum SwitchKind {
    /// `-slt`
    Technical,
    /// `-y`
    AssumeYes,
    /// `-bd`, and `-mmt...`: accepted, without effect.
    Ignored,
    /// `-bb...`
    LogLevel,
    /// `-aoa`
    OverwriteAll,
    /// `-aos`
    SkipExisting,
    /// `-oDIR`
    OutputDir,
    /// `-pPASSWORD`
    Password,
    /// `-m0=...`
    Method,
    /// `-mc...`
    ChunkSize,
    /// `-ma...`
    Algorithm,
    /// `-mlc...`
    ContextBits,
    /// `-mlp...`
    LiteralPositionBits,
    /// `-mmf...`
    MatchFinder,
    /// `-mmc...`
    MatchCycles,
    /// `-mpb...`
    PositionBits,
    /// `-mx...`
    Level,
    /// `-md...`
    Dictionary,
    /// `-mfb...`
    FastBytes,
    /// `-ms...`
    Solid,
    /// `-mf...`
    Filter,
    /// `-mhe...`
    HeaderEncryption,
    /// `-vSIZE`
    Volume,
    /// Anything else.
    Unsupported,
}

/// The kind of the switch `s`.
pub open spec fn switch_kind(s: Seq<char>) -> SwitchKind {
    let l = ascii_lower(s);
    if l == seq!['s', 'l', 't'] {
        SwitchKind::Technical
    } else if l == seq!['y'] {
        SwitchKind::AssumeYes
    } else if l == seq!['b', 'd'] {
        SwitchKind::Ignored
    } else if has_prefix(l, seq!['b', 'b']) {
        SwitchKind::LogLevel
    } else if l == seq!['a', 'o', 'a'] {
        SwitchKind::OverwriteAll
    } else if l == seq!['a', 'o', 's'] {
        SwitchKind::SkipExisting
    } else if s.len() > 0 && s[0] == 'o' {
        SwitchKind::OutputDir
    } else if s.len() > 0 && s[0] == 'p' {
        SwitchKind::Password
    } else if has_prefix(l, seq!['m', '0', '=']) {
        SwitchKind::Method
    } else if has_prefix(l, seq!['m', 'c']) {
        SwitchKind::ChunkSize
    } else if has_prefix(l, seq!['m', 'a']) {
        SwitchKind::Algorithm
    } else if has_prefix(l, seq!['m', 'l', 'c']) {
        SwitchKind::ContextBits
    } else if has_prefix(l, seq!['m', 'l', 'p']) {
        SwitchKind::LiteralPositionBits
    } else if has_prefix(l, seq!['m', 'm', 'f']) {
        SwitchKind::MatchFinder
    } else if has_prefix(l, seq!['m', 'm', 'c']) {
        SwitchKind::MatchCycles
    } else if has_prefix(l, seq!['m', 'p', 'b']) {
        SwitchKind::PositionBits
    } else if has_prefix(l, seq!['m', 'm', 't']) {
        SwitchKind::Ignored
    } else if has_prefix(l, seq!['m', 'x']) {
        SwitchKind::Level
    } else if has_prefix(l, seq!['m', 'd']) {
        SwitchKind::Dictionary
    } else if has_prefix(l, seq!['m', 'f', 'b']) {
        SwitchKind::FastBytes
    } else if has_prefix(l, seq!['m', 's']) {
        SwitchKind::Solid
    } else if has_prefix(l, seq!['m', 'f']) {
        SwitchKind::Filter
    } else if has_prefix(l, seq!['m', 'h', 'e']) {
        SwitchKind::HeaderEncryption
    } else if s.len() > 0 && s[0] == 'v' {
        SwitchKind::Volume
    } else {
        SwitchKind::Unsupported
    }
}

/// The switch kinds that set one encoder value.
pub open spec fn is_value_switch(k: SwitchKind) -> bool {
    match k {
        SwitchKind::ChunkSize | SwitchKind::Algorithm | SwitchKind::ContextBits | SwitchKind::LiteralPositionBits
        | SwitchKind::PositionBits | SwitchKind::MatchFinder | SwitchKind::MatchCycles | SwitchKind::Dictionary
        | SwitchKind::FastBytes => true,
        _ => false,
    }
}

/// The length of the name of a value switch of kind `k`.
pub open spec fn value_switch_name_len(k: SwitchKind) -> nat {
    match k {
        SwitchKind::ChunkSize | SwitchKind::Algorithm | SwitchKind::Dictionary => 2,
        _ => 3,
    }
}

/// The encoder settings after a value switch of kind `k` with value `v`;
/// `None` where the value is refused.
pub open spec fn compression_after(k: SwitchKind, v: Seq<char>, c: CompressionOptions) -> Option<CompressionOptions> {
    match k {
        SwitchKind::ChunkSize => match spec_parse_size(v) {
            Some(z) => Some(CompressionOptions { lzma2_chunk_size: Some(z), ..c }),
            None => None,
        },
        SwitchKind::Algorithm => match spec_algorithm(v) {
            Some(a) => Some(CompressionOptions { lzma_algorithm: Some(a), ..c }),
            None => None,
        },
        SwitchKind::ContextBits => match spec_property_bits(v, 8) {
            Some(b) => if bits_combination_ok(CompressionOptions { literal_context_bits: Some(b), ..c }) {
                Some(CompressionOptions { literal_context_bits: Some(b), ..c })
            } else {
                None
            },
            None => None,
        },
        SwitchKind::LiteralPositionBits => match spec_property_bits(v, 4) {
            Some(b) => if bits_combination_ok(CompressionOptions { literal_position_bits: Some(b), ..c }) {
                Some(CompressionOptions { literal_position_bits: Some(b), ..c })
            } else {
                None
            },
            None => None,
        },
        SwitchKind::PositionBits => match spec_property_bits(v, 4) {
            Some(b) => Some(CompressionOptions { position_bits: Some(b), ..c }),
            None => None,
        },
        SwitchKind::MatchFinder => match spec_match_finder(v) {
            Some(f) => Some(CompressionOptions { match_finder: Some(f), ..c }),
            None => None,
        },
        SwitchKind::MatchCycles => match spec_parse_uint(v, 0x7fff_ffff) {
            Some(x) => Some(CompressionOptions { match_cycles: Some(x as u32), ..c }),
            None => None,
        },
        SwitchKind::Dictionary => match spec_parse_size(v) {
            Some(z) => if z <= u32::MAX {
                Some(CompressionOptions { dictionary_size: Some(z as u32), ..c })
            } else {
                None
            },
            None => None,
        },
        SwitchKind::FastBytes => match spec_parse_uint(v, u32::MAX as nat) {
            Some(x) => Some(CompressionOptions { fast_bytes: Some(x as u32), ..c }),
            None => None,
        },
        _ => None,
    }
}

/// The encoder settings after the value switch `s` of kind `k`.
pub open spec fn value_switch_outcome(s: Seq<char>, k: SwitchKind, c: CompressionOptions) -> Option<CompressionOptions> {
    match spec_attached(s, value_switch_name_len(k)) {
        Some(v) => compression_after(k, v, c),
        None => None,
    }
}

/// A `-bb` switch names a level from 0 to 3, or none.
pub open spec fn log_level_ok(l: Seq<char>) -> bool {
    l == seq!['b', 'b'] || l == seq!['b', 'b', '0'] || l == seq!['b', 'b', '1'] || l == seq!['b', 'b', '2']
        || l == seq!['b', 'b', '3']
}

/// A `-mf` switch names no filter, or the BCJ filter.
pub open spec fn filter_accepted(s: Seq<char>) -> bool {
    match after_eq(s) {
        None => true,
        Some(v) => first_with_name(spec_all_methods(), normalize_name(vstd::utf8::encode_utf8(v))) == Some(
            SevenZMethod::Bcj,
        ),
    }
}

/// The codec after an accepted `-mf` switch: BCJ turns LZMA2 into BCJ + LZMA2.
pub open spec fn codec_after_filter(s: Seq<char>, c: Codec) -> Codec {
    if after_eq(s) is Some && c == Codec::Lzma2 {
        Codec::Lzma2Bcj
    } else {
        c
    }
}

/// The encryption settings `n` after `-mhe` with value `on`: those given
/// before (or the settings for an empty password), with the header flag set
/// to `on`.
pub open spec fn header_encryption_after(e: Option<EncryptionOptions>, on: bool, n: EncryptionOptions) -> bool {
    match e {
        Some(x) => n == EncryptionOptions { encrypt_header: on, ..x },
        None => n.password@ == Seq::<char>::empty() && n.encrypt_header == on && n.num_cycles_power == 19
            && n.salt_len == 0 && n.iv_len == 16,
    }
}

/// The switch `s` is accepted in the state `o`.
pub open spec fn switch_accepted(s: Seq<char>, o: CliParseState) -> bool {
    let k = switch_kind(s);
    if is_value_switch(k) {
        value_switch_outcome(s, k, o.options.compression) is Some
    } else {
        match k {
            SwitchKind::LogLevel => log_level_ok(ascii_lower(s)),
            SwitchKind::OutputDir => s.len() > 1,
            SwitchKind::Method => method_spec_outcome(s.skip(3), o.options) is Some,
            SwitchKind::Level => spec_level(s) is Some,
            SwitchKind::Solid => spec_solid(s) is Some,
            SwitchKind::Filter => filter_accepted(s),
            SwitchKind::HeaderEncryption => spec_on_off_switch(s) is Some,
            SwitchKind::Volume => spec_parse_size(s.skip(1)) is Some,
            SwitchKind::Unsupported => false,
            _ => true,
        }
    }
}

/// The state `n` is what the accepted switch `s` makes of the state `o`.
pub open spec fn switch_applied(s: Seq<char>, o: CliParseState, n: CliParseState) -> bool {
    let k = switch_kind(s);
    if is_value_switch(k) {
        n == CliParseState {
            options: ArchiveOptions { compression: value_switch_outcome(s, k, o.options.compression)->Some_0, ..o.options },
            ..o
        }
    } else {
        match k {
            SwitchKind::Technical => n == CliParseState { technical: true, ..o },
            SwitchKind::AssumeYes => n == CliParseState { assume_yes: true, ..o },
            SwitchKind::OverwriteAll => n == CliParseState { overwrite_mode: OverwriteMode::Overwrite, ..o },
            SwitchKind::SkipExisting => n == CliParseState { overwrite_mode: OverwriteMode::SkipExisting, ..o },
            SwitchKind::OutputDir => n.output_dir@ == s.skip(1) && n == CliParseState { output_dir: n.output_dir, ..o },
            SwitchKind::Password => (n.password matches Some(p) && p@ == s.skip(1)) && n == CliParseState {
                password: n.password,
                ..o
            },
            SwitchKind::Method => n == CliParseState {
                options: method_spec_outcome(s.skip(3), o.options)->Some_0,
                method_was_explicit: true,
                ..o
            },
            SwitchKind::Level => n == CliParseState {
                options: ArchiveOptions {
                    compression: CompressionOptions { level: spec_level(s)->Some_0, ..o.options.compression },
                    ..o.options
                },
                ..o
            },
            SwitchKind::Solid => n == CliParseState {
                options: ArchiveOptions {
                    compression: CompressionOptions { solid: spec_solid(s)->Some_0, ..o.options.compression },
                    ..o.options
                },
                ..o
            },
            SwitchKind::Filter => n == CliParseState {
                options: ArchiveOptions { codec: codec_after_filter(s, o.options.codec), ..o.options },
                ..o
            },
            SwitchKind::HeaderEncryption => {
                let on = spec_on_off_switch(s)->Some_0;
                &&& n.options.encryption matches Some(e) && header_encryption_after(o.options.encryption, on, e)
                &&& n == CliParseState {
                    options: ArchiveOptions {
                        encryption: n.options.encryption,
                        header_mode: if on { HeaderMode::Encoded } else { o.options.header_mode },
                        ..o.options
                    },
                    ..o
                }
            },
            SwitchKind::Volume => n.volume_sizes@ == o.volume_sizes@.push(spec_parse_size(s.skip(1))->Some_0)
                && n == CliParseState { volume_sizes: n.volume_sizes, ..o },
            _ => n == o,
        }
    }
}

/// The kind of the switch whose characters are `v` (`lw`, lower-cased).
fn kind_of(v: &Vec<char>, lw: &Vec<char>) -> (k: SwitchKind)
    requires
        lw@ == ascii_lower(v@),
    ensures
        k == switch_kind(v@),
{
    let slt: &[char] = &['s', 'l', 't'];
    let y: &[char] = &['y'];
    let bd: &[char] = &['b', 'd'];
    let bb: &[char] = &['b', 'b'];
    let aoa: &[char] = &['a', 'o', 'a'];
    let aos: &[char] = &['a', 'o', 's'];
    let m0: &[char] = &['m', '0', '='];
    let mc: &[char] = &['m', 'c'];
    let ma: &[char] = &['m', 'a'];
    let mlc: &[char] = &['m', 'l', 'c'];
    let mlp: &[char] = &['m', 'l', 'p'];
    let mmf: &[char] = &['m', 'm', 'f'];
    let mmc: &[char] = &['m', 'm', 'c'];
    let mpb: &[char] = &['m', 'p', 'b'];
    let mmt: &[char] = &['m', 'm', 't'];
    let mx: &[char] = &['m', 'x'];
    let md: &[char] = &['m', 'd'];
    let mfb: &[char] = &['m', 'f', 'b'];
    let ms: &[char] = &['m', 's'];
    let mf: &[char] = &['m', 'f'];
    let mhe: &[char] = &['m', 'h', 'e'];
    proof {
        assert(slt@ =~= seq!['s', 'l', 't']);
        assert(y@ =~= seq!['y']);
        assert(bd@ =~= seq!['b', 'd']);
        assert(bb@ =~= seq!['b', 'b']);
        assert(aoa@ =~= seq!['a', 'o', 'a']);
        assert(aos@ =~= seq!['a', 'o', 's']);
        assert(m0@ =~= seq!['m', '0', '=']);
        assert(mc@ =~= seq!['m', 'c']);
        assert(ma@ =~= seq!['m', 'a']);
        assert(mlc@ =~= seq!['m', 'l', 'c']);
        assert(mlp@ =~= seq!['m', 'l', 'p']);
        assert(mmf@ =~= seq!['m', 'm', 'f']);
        assert(mmc@ =~= seq!['m', 'm', 'c']);
        assert(mpb@ =~= seq!['m', 'p', 'b']);
        assert(mmt@ =~= seq!['m', 'm', 't']);
        assert(mx@ =~= seq!['m', 'x']);
        assert(md@ =~= seq!['m', 'd']);
        assert(mfb@ =~= seq!['m', 'f', 'b']);
        assert(ms@ =~= seq!['m', 's']);
        assert(mf@ =~= seq!['m', 'f']);
        assert(mhe@ =~= seq!['m', 'h', 'e']);
    }
    let n = v.len();
    if same(lw, slt) {
        SwitchKind::Technical
    } else if same(lw, y) {
        SwitchKind::AssumeYes
    } else if same(lw, bd) {
        SwitchKind::Ignored
    } else if starts(lw, bb) {
        SwitchKind::LogLevel
    } else if same(lw, aoa) {
        SwitchKind::OverwriteAll
    } else if same(lw, aos) {
        SwitchKind::SkipExisting
    } else if n > 0 && v[0] == 'o' {
        SwitchKind::OutputDir
    } else if n > 0 && v[0] == 'p' {
        SwitchKind::Password
    } else if starts(lw, m0) {
        SwitchKind::Method
    } else if starts(lw, mc) {
        SwitchKind::ChunkSize
    } else if starts(lw, ma) {
        SwitchKind::Algorithm
    } else if starts(lw, mlc) {
        SwitchKind::ContextBits
    } else if starts(lw, mlp) {
        SwitchKind::LiteralPositionBits
    } else if starts(lw, mmf) {
        SwitchKind::MatchFinder
    } else if starts(lw, mmc) {
        SwitchKind::MatchCycles
    } else if starts(lw, mpb) {
        SwitchKind::PositionBits
    } else if starts(lw, mmt) {
        SwitchKind::Ignored
    } else if starts(lw, mx) {
        SwitchKind::Level
    } else if starts(lw, md) {
        SwitchKind::Dictionary
    } else if starts(lw, mfb) {
        SwitchKind::FastBytes
    } else if starts(lw, ms) {
        SwitchKind::Solid
    } else if starts(lw, mf) {
        SwitchKind::Filter
    } else if starts(lw, mhe) {
        SwitchKind::HeaderEncryption
    } else if n > 0 && v[0] == 'v' {
        SwitchKind::Volume
    } else {
        SwitchKind::Unsupported
    }
}

/// The encoder settings after the value switch `v` of kind `k`.
fn value_switch(v: &Vec<char>, k: SwitchKind, c: &mut CompressionOptions) -> (r: Result<(), CliError>)
    requires
        is_value_switch(k),
    ensures
        match value_switch_outcome(v@, k, *old(c)) {
            Some(n) => r is Ok && *final(c) == n,
            None => r matches Err(CliError::Usage(_)),
        },
{
    let (skip, name): (usize, &str) = match k {
        SwitchKind::ChunkSize => (2, "mc"),
        SwitchKind::Algorithm => (2, "ma"),
        SwitchKind::Dictionary => (2, "md"),
        SwitchKind::ContextBits => (3, "mlc"),
        SwitchKind::LiteralPositionBits => (3, "mlp"),
        SwitchKind::PositionBits => (3, "mpb"),
        SwitchKind::MatchFinder => (3, "mmf"),
        SwitchKind::MatchCycles => (3, "mmc"),
        _ => (3, "mfb"),
    };
    let value = match attached(v, skip) {
        Some(x) => x,
        None => {
            return Err(usage_error4("-", name, " requires a value", ""));
        },
    };
    let text = crate::text::string_from_chars(&value);
    let shown = text.as_str();
    proof {
        assert(value@.subrange(0, value@.len() as int) =~= value@);
    }
    match k {
        SwitchKind::ChunkSize => match size_of_chars(&value) {
            Some(z) => {
                c.lzma2_chunk_size = Some(z);
            },
            None => {
                return Err(usage_error("invalid LZMA2 chunk size: ", shown));
            },
        },
        SwitchKind::Algorithm => {
            let zero: &[char] = &['0'];
            let one: &[char] = &['1'];
            proof {
                assert(zero@ =~= seq!['0']);
                assert(one@ =~= seq!['1']);
            }
            if same(&value, zero) {
                c.lzma_algorithm = Some(LzmaAlgorithm::Fast);
            } else if same(&value, one) {
                c.lzma_algorithm = Some(LzmaAlgorithm::Normal);
            } else {
                return Err(usage_error4("invalid LZMA algorithm value: ", shown, "; expected 0 or 1", ""));
            }
        },
        SwitchKind::ContextBits => match property_bits(&value, 8) {
            Some(b) => {
                c.literal_context_bits = Some(b);
                match validate_lzma_property_bit_combination(c) {
                    Ok(()) => {},
                    Err(e) => {
                        return Err(e);
                    },
                }
            },
            None => {
                return Err(usage_error("invalid LZMA lc value: ", shown));
            },
        },
        SwitchKind::LiteralPositionBits => match property_bits(&value, 4) {
            Some(b) => {
                c.literal_position_bits = Some(b);
                match validate_lzma_property_bit_combination(c) {
                    Ok(()) => {},
                    Err(e) => {
                        return Err(e);
                    },
                }
            },
            None => {
                return Err(usage_error("invalid LZMA lp value: ", shown));
            },
        },
        SwitchKind::PositionBits => match property_bits(&value, 4) {
            Some(b) => {
                c.position_bits = Some(b);
            },
            None => {
                return Err(usage_error("invalid LZMA pb value: ", shown));
            },
        },
        SwitchKind::MatchFinder => {
            let lower = lower_range(&value, 0, value.len());
            let hc4: &[char] = &['h', 'c', '4'];
            let bt4: &[char] = &['b', 't', '4'];
            proof {
                assert(hc4@ =~= seq!['h', 'c', '4']);
                assert(bt4@ =~= seq!['b', 't', '4']);
            }
            if same(&lower, hc4) {
                c.match_finder = Some(MatchFinder::Hc4);
            } else if same(&lower, bt4) {
                c.match_finder = Some(MatchFinder::Bt4);
            } else {
                return Err(usage_error("invalid LZMA match finder: ", shown));
            }
        },
        SwitchKind::MatchCycles => match parse_uint(&value, 0, value.len(), 0x7fff_ffff) {
            Some(x) => {
                c.match_cycles = Some(x as u32);
            },
            None => {
                return Err(usage_error("invalid LZMA match cycles: ", shown));
            },
        },
        SwitchKind::Dictionary => match size_of_chars(&value) {
            Some(z) => if z <= u32::MAX as u64 {
                c.dictionary_size = Some(z as u32);
            } else {
                return Err(usage_error("dictionary size is too large: ", shown));
            },
            None => {
                return Err(usage_error("invalid volume size: ", shown));
            },
        },
        _ => match parse_uint(&value, 0, value.len(), u32::MAX as u64) {
            Some(x) => {
                c.fast_bytes = Some(x as u32);
            },
            None => {
                return Err(usage_error("invalid fast bytes: ", shown));
            },
        },
    }
    Ok(())
}

/// A `-mhe` switch: sets whether the header is encrypted (keeping the
/// encryption settings given so far, or starting from those of an empty
/// password); `on` also asks for an encoded header.
fn header_encryption_switch(switch: &str, state: &mut CliParseState) -> (r: Result<(), CliError>)
    ensures
        match spec_on_off_switch(switch@) {
            None => r matches Err(CliError::Usage(_)),
            Some(on) => r is Ok && (final(state).options.encryption matches Some(e) && header_encryption_after(
                old(state).options.encryption,
                on,
                e,
            )) && *final(state) == (CliParseState {
                options: ArchiveOptions {
                    encryption: final(state).options.encryption,
                    header_mode: if on { HeaderMode::Encoded } else { old(state).options.header_mode },
                    ..old(state).options
                },
                ..*old(state)
            }),
        },
{
    let enabled = match parse_on_off_value(switch, "-mhe") {
        Ok(b) => b,
        Err(e) => {
            return Err(e);
        },
    };
    let mut encryption = match state.options.encryption.take() {
        Some(e) => e,
        None => {
            let e = EncryptionOptions::default_for_password("");
            proof {
                reveal_strlit("");
                assert(e.password@ =~= Seq::<char>::empty());
            }
            e
        },
    };
    encryption.encrypt_header = enabled;
    if enabled {
        state.options.header_mode = HeaderMode::Encoded;
    }
    state.options.encryption = Some(encryption);
    Ok(())
}

/// Read one switch (without its leading `-`) into `state`: it is accepted
/// exactly when [`switch_accepted`] says so, a refused one is a usage error,
/// and an accepted one leaves the state that [`switch_applied`] describes.
#[verifier::rlimit(100)]
#[verifier::spinoff_prover]
pub fn parse_switch(switch: &str, state: &mut CliParseState) -> (r: Result<(), CliError>)
    ensures
        r is Ok <==> switch_accepted(switch@, *old(state)),
        r is Err ==> r matches Err(CliError::Usage(_)),
        switch_kind(switch@) == SwitchKind::Unsupported ==> (r matches Err(CliError::Usage(m)) && m@ == "unsupported switch: -"@
            + switch@),
        r is Ok ==> switch_applied(switch@, *old(state), *final(state)),
{
    let v = chars_of(switch);
    let lw = lower_range(&v, 0, v.len());
    proof {
        assert(v@.subrange(0, v@.len() as int) =~= v@);
    }
    let k = kind_of(&v, &lw);
    match k {
        SwitchKind::Technical => {
            state.technical = true;
            Ok(())
        },
        SwitchKind::AssumeYes => {
            state.assume_yes = true;
            Ok(())
        },
        SwitchKind::Ignored => Ok(()),
        SwitchKind::LogLevel => parse_log_level(&lw),
        SwitchKind::OverwriteAll => {
            state.overwrite_mode = OverwriteMode::Overwrite;
            Ok(())
        },
        SwitchKind::SkipExisting => {
            state.overwrite_mode = OverwriteMode::SkipExisting;
            Ok(())
        },
        SwitchKind::OutputDir => {
            if v.len() == 1 {
                return Err(CliError::Usage(String::from_str("-o requires an attached directory")));
            }
            state.output_dir = switch.substring_char(1, switch.unicode_len()).to_string();
            Ok(())
        },
        SwitchKind::Password => {
            state.password = Some(switch.substring_char(1, switch.unicode_len()).to_string());
            Ok(())
        },
        SwitchKind::Method => {
            let spec = switch.substring_char(3, switch.unicode_len());
            proof {
                assert(spec@ =~= switch@.skip(3));
            }
            match apply_method_spec(spec, &mut state.options) {
                Ok(()) => {},
                Err(e) => {
                    return Err(e);
                },
            }
            state.method_was_explicit = true;
            Ok(())
        },
        SwitchKind::Level => match parse_level(switch) {
            Ok(lv) => {
                state.options.compression.level = lv;
                Ok(())
            },
            Err(e) => Err(e),
        },
        SwitchKind::Solid => match parse_solid(switch) {
            Ok(m) => {
                state.options.compression.solid = m;
                Ok(())
            },
            Err(e) => Err(e),
        },
        SwitchKind::Filter => parse_filter(switch, &mut state.options),
        SwitchKind::HeaderEncryption => header_encryption_switch(switch, state),
        SwitchKind::Volume => {
            let rest = tail(&v, 1);
            match size_of_chars(&rest) {
                Some(z) => {
                    state.volume_sizes.push(z);
                    Ok(())
                },
                None => Err(usage_error("invalid volume size: ", switch)),
            }
        },
        SwitchKind::Unsupported => Err(usage_error("unsupported switch: -", switch)),
        _ => value_switch(&v, k, &mut state.options.compression),
    }
}

/// `-bb`, `-bb0` to `-bb3` (lower-cased).
fn parse_log_level(lw: &Vec<char>) -> (r: Result<(), CliError>)
    ensures
        r is Ok <==> (lw@ == seq!['b', 'b'] || lw@ == seq!['b', 'b', '0'] || lw@ == seq!['b', 'b', '1'] || lw@ == seq![
            'b',
            'b',
            '2',
        ] || lw@ == seq!['b', 'b', '3']),
        r is Err ==> r matches Err(CliError::Usage(_)),
{
    let (w, w0, w1, w2, w3): (&[char], &[char], &[char], &[char], &[char]) = (
        &['b', 'b'],
        &['b', 'b', '0'],
        &['b', 'b', '1'],
        &['b', 'b', '2'],
        &['b', 'b', '3'],
    );
    proof {
        assert(w@ =~= seq!['b', 'b']);
        assert(w0@ =~= seq!['b', 'b', '0']);
        assert(w1@ =~= seq!['b', 'b', '1']);
        assert(w2@ =~= seq!['b', 'b', '2']);
        assert(w3@ =~= seq!['b', 'b', '3']);
    }
    if same(lw, w) || same(lw, w0) || same(lw, w1) || same(lw, w2) || same(lw, w3) {
        Ok(())
    } else {
        Err(CliError::Usage(String::from_str("-bb expects 0, 1, 2, or 3")))
    }
}

/// A `-mf=NAME` switch: the BCJ filter turns LZMA2 into BCJ + LZMA2 (other
/// codecs are left as they are); other filters are refused; without `=`
/// nothing changes.
pub fn parse_filter(switch: &str, options: &mut ArchiveOptions) -> (r: Result<(), CliError>)
    ensures
        *final(options) == (ArchiveOptions { codec: final(options).codec, ..*old(options) }),
        after_eq(switch@) is None ==> r is Ok && *final(options) == *old(options),
        after_eq(switch@) matches Some(value) ==> match first_with_name(spec_all_methods(), normalize_name(vstd::utf8::encode_utf8(value))) {
            Some(SevenZMethod::Bcj) => r is Ok && final(options).codec == (if old(options).codec == Codec::Lzma2 {
                Codec::Lzma2Bcj
            } else {
                old(options).codec
            }),
            _ => r matches Err(CliError::Usage(_)),
        },
{
    let v = chars_of(switch);
    let n = v.len();
    let k = match find_eq(&v) {
        None => {
            return Ok(());
        },
        Some(k) => k,
    };
    assert(k < n);
    let value = switch.substring_char(k + 1, switch.unicode_len());
    proof {
        assert(value@ =~= switch@.skip(k + 1));
    }
    match method_from_name(value) {
        Some(SevenZMethod::Bcj) => {
            match options.codec {
                Codec::Lzma2 => {
                    options.codec = Codec::Lzma2Bcj;
                },
                _ => {},
            }
            Ok(())
        },
        Some(_) => Err(usage_error("filter is tracked for parity but not yet supported by r7z: ", value)),
        None => Err(usage_error("unknown filter: ", value)),
    }
}

/// The method name of a `-m0=` specification: up to its first `:`.
pub open spec fn before_colon(s: Seq<char>) -> Seq<char> {
    if exists|k: int| 0 <= k < s.len() && s[k] == ':' {
        s.take(choose|k: int| 0 <= k < s.len() && s[k] == ':' && forall|j: int| 0 <= j < k ==> s[j] != ':')
    } else {
        s
    }
}

/// The number of characters of `s` before its first `:` (all of them
/// when it has none).
pub open spec fn colon_at(s: Seq<char>) -> nat
    decreases s.len(),
{
    if s.len() == 0 || s[0] == ':' {
        0
    } else {
        1 + colon_at(s.skip(1))
    }
}

proof fn lemma_colon_at(s: Seq<char>, e: int)
    requires
        0 <= e <= s.len(),
        forall|j: int| 0 <= j < e ==> s[j] != ':',
        e < s.len() ==> s[e] == ':',
    ensures
        colon_at(s) == e,
    decreases e,
{
    if e > 0 {
        assert forall|j: int| 0 <= j < e - 1 implies s.skip(1)[j] != ':' by {
            assert(s.skip(1)[j] == s[j + 1]);
        }
        lemma_colon_at(s.skip(1), e - 1);
    }
}

/// The number of characters of `s` before its first `=` (all of them
/// when it has none).
pub open spec fn eq_at(s: Seq<char>) -> nat
    decreases s.len(),
{
    if s.len() == 0 || s[0] == '=' {
        0
    } else {
        1 + eq_at(s.skip(1))
    }
}

proof fn lemma_eq_at(s: Seq<char>, e: int)
    requires
        0 <= e <= s.len(),
        forall|j: int| 0 <= j < e ==> s[j] != '=',
        e < s.len() ==> s[e] == '=',
    ensures
        eq_at(s) == e,
    decreases e,
{
    if e > 0 {
        assert forall|j: int| 0 <= j < e - 1 implies s.skip(1)[j] != '=' by {
            assert(s.skip(1)[j] == s[j + 1]);
        }
        lemma_eq_at(s.skip(1), e - 1);
    }
}

/// A value of the `mt` (threads) method option: `on`, `off`, `yes`, `no`,
/// `0`, or a number of threads above zero (lower-cased).
pub open spec fn threading_ok(l: Seq<char>) -> bool {
    ||| l == seq!['o', 'n']
    ||| l == seq!['o', 'f', 'f']
    ||| l == seq!['y', 'e', 's']
    ||| l == seq!['n', 'o']
    ||| l == seq!['0']
    ||| (spec_parse_uint(l, u64::MAX as nat) matches Some(t) && t > 0)
}

/// The encoder settings after the method option `key=raw` (`key` lower-cased);
/// `None` where the key is unknown or its value refused.
#[verifier::opaque]
pub open spec fn param_applied(key: Seq<char>, raw: Seq<char>, c: CompressionOptions) -> Option<CompressionOptions> {
    if key == seq!['d'] {
        match spec_parse_size(raw) {
            Some(z) => if z <= u32::MAX {
                Some(CompressionOptions { dictionary_size: Some(z as u32), ..c })
            } else {
                None
            },
            None => None,
        }
    } else if key == seq!['f', 'b'] {
        match spec_parse_uint(raw, u32::MAX as nat) {
            Some(f) => Some(CompressionOptions { fast_bytes: Some(f as u32), ..c }),
            None => None,
        }
    } else if key == seq!['c'] {
        match spec_parse_size(raw) {
            Some(z) => Some(CompressionOptions { lzma2_chunk_size: Some(z), ..c }),
            None => None,
        }
    } else if key == seq!['a'] {
        match spec_algorithm(raw) {
            Some(a) => Some(CompressionOptions { lzma_algorithm: Some(a), ..c }),
            None => None,
        }
    } else if key == seq!['l', 'c'] {
        match spec_property_bits(raw, 8) {
            Some(b) => Some(CompressionOptions { literal_context_bits: Some(b), ..c }),
            None => None,
        }
    } else if key == seq!['l', 'p'] {
        match spec_property_bits(raw, 4) {
            Some(b) => Some(CompressionOptions { literal_position_bits: Some(b), ..c }),
            None => None,
        }
    } else if key == seq!['p', 'b'] {
        match spec_property_bits(raw, 4) {
            Some(b) => Some(CompressionOptions { position_bits: Some(b), ..c }),
            None => None,
        }
    } else if key == seq!['m', 'f'] {
        match spec_match_finder(raw) {
            Some(f) => Some(CompressionOptions { match_finder: Some(f), ..c }),
            None => None,
        }
    } else if key == seq!['m', 'c'] {
        match spec_parse_uint(raw, 0x7fff_ffff) {
            Some(x) => Some(CompressionOptions { match_cycles: Some(x as u32), ..c }),
            None => None,
        }
    } else if key == seq!['m', 't'] {
        if threading_ok(ascii_lower(raw)) {
            Some(c)
        } else {
            None
        }
    } else {
        None
    }
}

/// The encoder settings after the method options `rest`, each led by a `:`
/// and written `key=value`, applied in order; `None` where one is refused.
#[verifier::opaque]
pub open spec fn params_applied(rest: Seq<char>, c: CompressionOptions) -> Option<CompressionOptions>
    decreases rest.len(),
{
    if rest.len() == 0 {
        Some(c)
    } else {
        let body = rest.skip(1);
        let end = colon_at(body);
        let param = body.take(end as int);
        let e = eq_at(param);
        if end > body.len() || e >= param.len() {
            None
        } else {
            match param_applied(ascii_lower(param.take(e as int)), param.skip(e + 1int), c) {
                None => None,
                Some(n) => params_applied(body.skip(end as int), n),
            }
        }
    }
}

proof fn lemma_colon_in(s: Seq<char>, start: int, end: int)
    requires
        0 <= start <= end <= s.len(),
        forall|j: int| start <= j < end ==> s[j] != ':',
        end < s.len() ==> s[end] == ':',
    ensures
        colon_at(s.skip(start)) == end - start,
{
    let body = s.skip(start);
    assert forall|j: int| 0 <= j < end - start implies body[j] != ':' by {
        assert(body[j] == s[start + j]);
    }
    lemma_colon_at(body, end - start);
}

proof fn lemma_eq_in(s: Seq<char>, start: int, end: int, eq: int)
    requires
        0 <= start <= eq <= end <= s.len(),
        forall|j: int| start <= j < eq ==> s[j] != '=',
        eq < end ==> s[eq] == '=',
    ensures
        eq_at(s.subrange(start, end)) == eq - start,
{
    let param = s.subrange(start, end);
    assert forall|j: int| 0 <= j < eq - start implies param[j] != '=' by {
        assert(param[j] == s[start + j]);
    }
    lemma_eq_at(param, eq - start);
}

proof fn lemma_params_unfold(rest: Seq<char>, c: CompressionOptions)
    requires
        rest.len() > 0,
        colon_at(rest.skip(1)) <= rest.skip(1).len(),
    ensures
        ({
            let body = rest.skip(1);
            let param = body.take(colon_at(body) as int);
            let e = eq_at(param);
            &&& e >= param.len() ==> params_applied(rest, c) is None
            &&& e < param.len() ==> params_applied(rest, c) == match param_applied(
                ascii_lower(param.take(e as int)),
                param.skip(e + 1int),
                c,
            ) {
                None => None,
                Some(n) => params_applied(body.skip(colon_at(body) as int), n),
            }
        }),
{
    reveal(params_applied);
}

#[verifier::spinoff_prover]
proof fn lemma_params_step(s: Seq<char>, pos: int, end: int, eq: int, c: CompressionOptions)
    requires
        0 <= pos < s.len(),
        s[pos] == ':',
        pos + 1 <= eq <= end <= s.len(),
        forall|j: int| pos + 1 <= j < end ==> s[j] != ':',
        end < s.len() ==> s[end] == ':',
        forall|j: int| pos + 1 <= j < eq ==> s[j] != '=',
        eq < end ==> s[eq] == '=',
    ensures
        eq == end ==> params_applied(s.skip(pos), c) is None,
        eq < end ==> params_applied(s.skip(pos), c) == match param_applied(
            ascii_lower(s.subrange(pos + 1, eq)),
            s.subrange(eq + 1, end),
            c,
        ) {
            None => None,
            Some(n) => params_applied(s.skip(end), n),
        },
{
    let start = pos + 1;
    let rest = s.skip(pos);
    assert(rest.skip(1) =~= s.skip(start));
    lemma_colon_in(s, start, end);
    lemma_eq_in(s, start, end, eq);
    assert(s.skip(start).take(end - start) =~= s.subrange(start, end));
    assert(s.skip(start).skip(end - start) =~= s.skip(end));
    lemma_params_unfold(rest, c);
    if eq < end {
        assert(s.subrange(start, end).take(eq - start) =~= s.subrange(start, eq));
        assert(s.subrange(start, end).skip(eq - start + 1) =~= s.subrange(eq + 1, end));
    }
}

/// The options after the `-m0=` specification `spec`: the codec of its
/// method, then its options in order; `lc + lp` must stay at most 4.
#[verifier::opaque]
pub open spec fn method_spec_outcome(spec: Seq<char>, o: ArchiveOptions) -> Option<ArchiveOptions> {
    let name = before_colon(spec);
    match spec_codec_for(first_with_name(spec_all_methods(), normalize_name(vstd::utf8::encode_utf8(name)))) {
        None => None,
        Some(codec) => match params_applied(spec.skip(name.len() as int), o.compression) {
            None => None,
            Some(c) => if bits_combination_ok(c) {
                Some(ArchiveOptions { codec, compression: c, ..o })
            } else {
                None
            },
        },
    }
}

/// Apply a `-m0=METHOD[:key=value...]` specification: the method sets the
/// codec, each `key=value` an encoder setting.
pub fn apply_method_spec(spec: &str, options: &mut ArchiveOptions) -> (r: Result<(), CliError>)
    ensures
        match method_spec_outcome(spec@, *old(options)) {
            Some(n) => r is Ok && *final(options) == n,
            None => r matches Err(CliError::Usage(_)),
        },
{
    let v = chars_of(spec);
    let n = v.len();
    // The method name runs to the first `:`.
    let mut e: usize = 0;
    while e < n && v[e] != ':'
        invariant
            e <= n == v@.len(),
            v@ == spec@,
            forall|j: int| 0 <= j < e ==> v@[j] != ':',
        decreases n - e,
    {
        e = e + 1;
    }
    proof {
        if e < n {
            let c = choose|k: int| 0 <= k < spec@.len() && spec@[k] == ':' && forall|j: int| 0 <= j < k ==> spec@[j] != ':';
            assert(c == e) by {
                if c < e {
                    assert(v@[c] != ':');
                } else if c > e {
                    assert(spec@[e as int] != ':');
                }
            }
        } else {
            assert(spec@.take(e as int) =~= spec@);
        }
    }
    let name = spec.substring_char(0, e);
    proof {
        assert(name@ =~= before_colon(spec@));
    }
    let codec = match codec_from_method_name(name) {
        Ok(c) => c,
        Err(err) => {
            proof {
                reveal(method_spec_outcome);
            }
            return Err(err);
        },
    };
    let ghost o = *options;
    proof {
        assert(before_colon(spec@).len() == e);
    }
    let ghost outcome = match params_applied(spec@.skip(e as int), o.compression) {
        None => None,
        Some(c) => if bits_combination_ok(c) {
            Some(ArchiveOptions { codec, compression: c, ..o })
        } else {
            None
        },
    };
    assert(method_spec_outcome(spec@, o) == outcome) by {
        reveal(method_spec_outcome);
    }
    options.codec = codec;
    let mut pos = e;
    while pos < n
        invariant
            o == *old(options),
            method_spec_outcome(spec@, o) == outcome,
            outcome == (match params_applied(spec@.skip(e as int), o.compression) {
                None => None,
                Some(c) => if bits_combination_ok(c) {
                    Some(ArchiveOptions { codec, compression: c, ..o })
                } else {
                    None
                },
            }),
            e <= pos <= n == v@.len(),
            v@ == spec@,
            pos < n ==> v@[pos as int] == ':',
            *options == (ArchiveOptions { codec, compression: options.compression, ..o }),
            params_applied(spec@.skip(e as int), o.compression) == params_applied(
                spec@.skip(pos as int),
                options.compression,
            ),
        decreases n - pos,
    {
        let end = match apply_param_at(&v, pos, options) {
            Ok(x) => x,
            Err(err) => {
                return Err(err);
            },
        };
        pos = end;
    }
    proof {
        assert(spec@.skip(n as int) =~= Seq::<char>::empty());
        reveal(params_applied);
    }
    match validate_lzma_property_bit_combination(&options.compression) {
        Ok(()) => Ok(()),
        Err(err) => Err(err),
    }
}

/// Apply the method option that follows the `:` at `pos` in `v`; on
/// success, the position where the next one starts (or the end).
fn apply_param_at(v: &Vec<char>, pos: usize, options: &mut ArchiveOptions) -> (r: Result<usize, CliError>)
    requires
        pos < v@.len(),
        v@[pos as int] == ':',
    ensures
        match r {
            Ok(end) => {
                &&& pos < end <= v@.len()
                &&& end < v@.len() ==> v@[end as int] == ':'
                &&& *final(options) == (ArchiveOptions { compression: final(options).compression, ..*old(options) })
                &&& params_applied(v@.skip(pos as int), old(options).compression) == params_applied(
                    v@.skip(end as int),
                    final(options).compression,
                )
            },
            Err(e) => params_applied(v@.skip(pos as int), old(options).compression) is None && e is Usage,
        },
{
    let n = v.len();
    // One `key=value` parameter after a `:`.
    let start = pos + 1;
    let mut end = start;
    while end < n && v[end] != ':'
        invariant
            start <= end,
            end <= n == v@.len(),
            forall|j: int| start <= j < end ==> v@[j] != ':',
        decreases n - end,
    {
        end = end + 1;
    }
    let mut eq = start;
    while eq < end && v[eq] != '='
        invariant
            start <= eq <= end,
            end <= n == v@.len(),
            forall|j: int| start <= j < eq ==> v@[j] != '=',
        decreases end - eq,
    {
        eq = eq + 1;
    }
    proof {
        lemma_params_step(v@, pos as int, end as int, eq as int, options.compression);
    }
    if eq == end {
        return Err(CliError::Usage(String::from_str("invalid method option")));
    }
    let key = lower_range(v, start, eq);
    let value = lower_range(v, eq + 1, end);
    let mut raw_value: Vec<char> = Vec::new();
    let mut q = eq + 1;
    while q < end
        invariant
            eq + 1 <= q <= end,
            end <= n == v@.len(),
            raw_value@ == v@.subrange(eq + 1, q as int),
        decreases end - q,
    {
        raw_value.push(v[q]);
        proof {
            assert(raw_value@ =~= v@.subrange(eq + 1, q + 1));
        }
        q = q + 1;
    }
    match apply_method_param(&key, &raw_value, &value, options) {
        Ok(()) => {},
        Err(err) => {
            return Err(err);
        },
    }
    Ok(end)
}

/// Apply the method option `key=raw` (`key` and `lower`, the value,
/// lower-cased) to the encoder settings of `options`.
fn apply_method_param(key: &Vec<char>, raw: &Vec<char>, lower: &Vec<char>, options: &mut ArchiveOptions) -> (r: Result<(), CliError>)
    requires
        lower@ == ascii_lower(raw@),
    ensures
        match param_applied(key@, raw@, old(options).compression) {
            Some(c) => r is Ok && *final(options) == (ArchiveOptions { compression: c, ..*old(options) }),
            None => r matches Err(CliError::Usage(_)),
        },
{
    reveal(param_applied);
    let d: &[char] = &['d'];
    let fb: &[char] = &['f', 'b'];
    let c: &[char] = &['c'];
    let a: &[char] = &['a'];
    let lc: &[char] = &['l', 'c'];
    let lp: &[char] = &['l', 'p'];
    let pb: &[char] = &['p', 'b'];
    let mf: &[char] = &['m', 'f'];
    let mc: &[char] = &['m', 'c'];
    let mt: &[char] = &['m', 't'];
    proof {
        assert(d@ =~= seq!['d']);
        assert(fb@ =~= seq!['f', 'b']);
        assert(c@ =~= seq!['c']);
        assert(a@ =~= seq!['a']);
        assert(lc@ =~= seq!['l', 'c']);
        assert(lp@ =~= seq!['l', 'p']);
        assert(pb@ =~= seq!['p', 'b']);
        assert(mf@ =~= seq!['m', 'f']);
        assert(mc@ =~= seq!['m', 'c']);
        assert(mt@ =~= seq!['m', 't']);
        assert(raw@.subrange(0, raw@.len() as int) =~= raw@);
    }
    if same(key, d) {
        match size_of_chars(raw) {
            Some(z) => if z <= u32::MAX as u64 {
                options.compression.dictionary_size = Some(z as u32);
                Ok(())
            } else {
                Err(CliError::Usage(String::from_str("dictionary size is too large")))
            },
            None => Err(CliError::Usage(String::from_str("invalid dictionary size"))),
        }
    } else if same(key, fb) {
        match parse_uint(raw, 0, raw.len(), u32::MAX as u64) {
            Some(f) => {
                options.compression.fast_bytes = Some(f as u32);
                Ok(())
            },
            None => Err(CliError::Usage(String::from_str("invalid fast bytes"))),
        }
    } else if same(key, c) {
        match size_of_chars(raw) {
            Some(z) => {
                options.compression.lzma2_chunk_size = Some(z);
                Ok(())
            },
            None => Err(CliError::Usage(String::from_str("invalid LZMA2 chunk size"))),
        }
    } else if same(key, a) {
        let zero: &[char] = &['0'];
        let one: &[char] = &['1'];
        proof {
            assert(zero@ =~= seq!['0']);
            assert(one@ =~= seq!['1']);
        }
        if same(raw, zero) {
            options.compression.lzma_algorithm = Some(LzmaAlgorithm::Fast);
            Ok(())
        } else if same(raw, one) {
            options.compression.lzma_algorithm = Some(LzmaAlgorithm::Normal);
            Ok(())
        } else {
            Err(CliError::Usage(String::from_str("invalid LZMA algorithm value; expected 0 or 1")))
        }
    } else if same(key, lc) || same(key, lp) || same(key, pb) {
        let max: u32 = if same(key, lc) { 8 } else { 4 };
        match property_bits(raw, max) {
            Some(b) => {
                if same(key, lc) {
                    options.compression.literal_context_bits = Some(b);
                } else if same(key, lp) {
                    options.compression.literal_position_bits = Some(b);
                } else {
                    options.compression.position_bits = Some(b);
                }
                Ok(())
            },
            None => Err(CliError::Usage(String::from_str("invalid LZMA property value"))),
        }
    } else if same(key, mf) {
        let hc4: &[char] = &['h', 'c', '4'];
        let bt4: &[char] = &['b', 't', '4'];
        proof {
            assert(hc4@ =~= seq!['h', 'c', '4']);
            assert(bt4@ =~= seq!['b', 't', '4']);
        }
        if same(lower, hc4) {
            options.compression.match_finder = Some(MatchFinder::Hc4);
            Ok(())
        } else if same(lower, bt4) {
            options.compression.match_finder = Some(MatchFinder::Bt4);
            Ok(())
        } else {
            Err(CliError::Usage(String::from_str("invalid LZMA match finder")))
        }
    } else if same(key, mc) {
        match parse_uint(raw, 0, raw.len(), 0x7fff_ffff) {
            Some(x) => {
                options.compression.match_cycles = Some(x as u32);
                Ok(())
            },
            None => Err(CliError::Usage(String::from_str("invalid LZMA match cycles"))),
        }
    } else if same(key, mt) {
        let (on, off, yes, no, zero): (&[char], &[char], &[char], &[char], &[char]) = (
            &['o', 'n'],
            &['o', 'f', 'f'],
            &['y', 'e', 's'],
            &['n', 'o'],
            &['0'],
        );
        proof {
            assert(on@ =~= seq!['o', 'n']);
            assert(off@ =~= seq!['o', 'f', 'f']);
            assert(yes@ =~= seq!['y', 'e', 's']);
            assert(no@ =~= seq!['n', 'o']);
            assert(zero@ =~= seq!['0']);
            assert(lower@.subrange(0, lower@.len() as int) =~= lower@);
        }
        let mut ok = same(lower, on) || same(lower, off) || same(lower, yes) || same(lower, no) || same(lower, zero);
        if !ok {
            match parse_uint(lower, 0, lower.len(), u64::MAX) {
                Some(t) => {
                    ok = t > 0;
                },
                None => {},
            }
        }
        if ok {
            Ok(())
        } else {
            Err(CliError::Usage(String::from_str("invalid method threading value for mt")))
        }
    } else {
        Err(CliError::Usage(String::from_str("unsupported method option")))
    }
}

/// What the command line asks for.
#[derive(Clone, Copy, Debug, PartialEq, Eq)]
pub enum Command {
    List,
    Test,
    ExtractFull,
    ExtractFlat,
    Add,
    Update,
    Delete,
}

/// A parsed command line.
pub struct Cli {
    pub command: Command,
    pub archive: String,
    pub operands: Vec<String>,
    pub output_dir: String,
    pub password: Option<String>,
    pub options: ArchiveOptions,
    pub technical: bool,
    pub volume_sizes: Vec<u64>,
    pub overwrite_mode: OverwriteMode,
    pub assume_yes: bool,
}

/// The command a letter names.
pub open spec fn spec_command(s: Seq<char>) -> Option<Command> {
    if s == seq!['l'] {
        Some(Command::List)
    } else if s == seq!['t'] {
        Some(Command::Test)
    } else if s == seq!['x'] {
        Some(Command::ExtractFull)
    } else if s == seq!['e'] {
        Some(Command::ExtractFlat)
    } else if s == seq!['a'] {
        Some(Command::Add)
    } else if s == seq!['u'] {
        Some(Command::Update)
    } else if s == seq!['d'] {
        Some(Command::Delete)
    } else {
        None
    }
}

/// `-h`, `--help`, `h` or `help`.
pub open spec fn spec_is_help(s: Seq<char>) -> bool {
    s == seq!['-', 'h'] || s == seq!['-', '-', 'h', 'e', 'l', 'p'] || s == seq!['h'] || s == seq!['h', 'e', 'l', 'p']
}

/// The usage summary printed for `-h` and for a command line without a
/// command.
pub const USAGE: &'static str = "usage: r7z <l|x|e|t|a|d|u> [switches] <archive.7z> [files...]\nswitches: -oDIR -pPASS -m0=METHOD -mx=N -ms=on|off -mf=BCJ -mhe=on|off -vSIZE -aoa|-aos -slt";

/// The usage text.
pub fn usage() -> (r: String)
    ensures
        r@ == USAGE@,
{
    String::from_str(USAGE)
}

impl Cli {
    /// Read a command line: the command letter, then switches (`-...`) and
    /// positional arguments, the first of which is the archive. A password
    /// turns encryption on (keeping `-mhe`); `-mhe=on` without one is an
    /// error; level 0 without an explicit method stores.
    pub fn parse(args: Vec<String>) -> (r: Result<Cli, CliError>)
        ensures
            args@.len() == 0 ==> r matches Err(CliError::Usage(_)),
            args@.len() > 0 && (spec_is_help(args@[0]@) || spec_command(args@[0]@) is None) ==> r matches Err(
                CliError::Usage(_),
            ),
            r matches Ok(c) ==> args@.len() > 0 && spec_command(args@[0]@) == Some(c.command),
            r matches Ok(c) ==> (c.password is Some <==> c.options.encryption is Some),
    {
        if args.len() == 0 {
            return Err(CliError::Usage(usage()));
        }
        let first = chars_of(args[0].as_str());
        let (h1, h2, h3, h4): (&[char], &[char], &[char], &[char]) = (
            &['-', 'h'],
            &['-', '-', 'h', 'e', 'l', 'p'],
            &['h'],
            &['h', 'e', 'l', 'p'],
        );
        let (cl, ct, cx, ce, ca, cu, cd): (&[char], &[char], &[char], &[char], &[char], &[char], &[char]) = (
            &['l'],
            &['t'],
            &['x'],
            &['e'],
            &['a'],
            &['u'],
            &['d'],
        );
        proof {
            assert(h1@ =~= seq!['-', 'h']);
            assert(h2@ =~= seq!['-', '-', 'h', 'e', 'l', 'p']);
            assert(h3@ =~= seq!['h']);
            assert(h4@ =~= seq!['h', 'e', 'l', 'p']);
            assert(cl@ =~= seq!['l']);
            assert(ct@ =~= seq!['t']);
            assert(cx@ =~= seq!['x']);
            assert(ce@ =~= seq!['e']);
            assert(ca@ =~= seq!['a']);
            assert(cu@ =~= seq!['u']);
            assert(cd@ =~= seq!['d']);
        }
        if same(&first, h1) || same(&first, h2) || same(&first, h3) || same(&first, h4) {
            return Err(CliError::Usage(usage()));
        }
        let command = if same(&first, cl) {
            Command::List
        } else if same(&first, ct) {
            Command::Test
        } else if same(&first, cx) {
            Command::ExtractFull
        } else if same(&first, ce) {
            Command::ExtractFlat
        } else if same(&first, ca) {
            Command::Add
        } else if same(&first, cu) {
            Command::Update
        } else if same(&first, cd) {
            Command::Delete
        } else {
            return Err(usage_error("unsupported command: ", args[0].as_str()));
        };
        let mut state = CliParseState::default();
        let mut positional: Vec<String> = Vec::new();
        let mut i: usize = 1;
        while i < args.len()
            invariant
                1 <= i <= args@.len(),
                !spec_is_help(args@[0]@),
                spec_command(args@[0]@) == Some(command),
            decreases args@.len() - i,
        {
            let arg = args[i].as_str();
            let n = arg.unicode_len();
            if n > 0 && arg.get_char(0) == '-' {
                if n == 1 {
                    positional.push(arg.to_string());
                } else {
                    let switch = arg.substring_char(1, n);
                    parse_switch(switch, &mut state)?;
                }
            } else {
                positional.push(arg.to_string());
            }
            i = i + 1;
        }
        if positional.len() == 0 {
            return Err(CliError::Usage(String::from_str("archive path is required")));
        }
        let mut operands: Vec<String> = Vec::new();
        let mut k: usize = 1;
        while k < positional.len()
            invariant
                1 <= k <= positional@.len(),
            decreases positional@.len() - k,
        {
            operands.push(positional[k].clone());
            k = k + 1;
        }
        let archive = positional[0].clone();
        let header_requested = match &state.options.encryption {
            Some(e) => e.encrypt_header,
            None => false,
        };
        match &state.password {
            Some(p) => {
                let mut encryption = EncryptionOptions::default_for_password(p.as_str());
                encryption.encrypt_header = header_requested;
                state.options.encryption = Some(encryption);
            },
            None => {
                if header_requested {
                    return Err(CliError::Usage(String::from_str("-mhe=on requires -pPASS")));
                }
                state.options.encryption = None;
            },
        }
        let is_store = match state.options.compression.level {
            CompressionLevel::Store => true,
            _ => false,
        };
        if !state.method_was_explicit && is_store {
            state.options.codec = Codec::Copy;
        }
        let CliParseState { output_dir, password, options, technical, method_was_explicit: _, volume_sizes, overwrite_mode, assume_yes } = state;
        Ok(Cli { command, archive, operands, output_dir, password, options, technical, volume_sizes, overwrite_mode, assume_yes })
    }
}

} // verus!
