//! The decisions of the command-line tool: how an answer to the overwrite
//! prompt is read, what happens on a collision with an existing file, and
//! which archive names a wildcard pattern selects.
use vstd::prelude::*;
use crate::error::R7zError;

verus! {

/// What to do when an extracted file already exists.
#[derive(Clone, Copy, Debug, PartialEq, Eq)]
pub enum OverwriteMode {
    Ask,
    Overwrite,
    SkipExisting,
}

/// An answer to the overwrite prompt.
#[derive(Clone, Copy, Debug, PartialEq, Eq)]
pub enum OverwriteAnswer {
    Yes,
    No,
    All,
    SkipAll,
    Quit,
}

/// What is done with one colliding file.
#[derive(Clone, Copy, Debug, PartialEq, Eq)]
pub enum CollisionAction {
    Overwrite,
    Skip { warning: bool },
    Quit,
}

/// A failure of the command-line tool.
#[derive(Debug)]
pub enum CliError {
    Usage(String),
    Fatal(R7zError),
    FatalMessage(String),
}

/// Whitespace as `str::trim` removes it (the Unicode `White_Space` property).
pub open spec fn is_white(c: char) -> bool {
    ||| ('\u{9}' <= c <= '\u{d}')
    ||| c == ' '
    ||| c == '\u{85}'
    ||| c == '\u{a0}'
    ||| c == '\u{1680}'
    ||| ('\u{2000}' <= c <= '\u{200a}')
    ||| c == '\u{2028}'
    ||| c == '\u{2029}'
    ||| c == '\u{202f}'
    ||| c == '\u{205f}'
    ||| c == '\u{3000}'
}

/// `c` with `A`..`Z` turned into `a`..`z`.
pub open spec fn lower_char(c: char) -> char {
    if 'A' <= c <= 'Z' { ((c as u32) + 32) as char } else { c }
}

/// `s` with ASCII upper-case letters turned into lower case.
pub open spec fn ascii_lower(s: Seq<char>) -> Seq<char> {
    s.map_values(|c: char| lower_char(c))
}

/// The number of whitespace characters at the start of `s`.
pub open spec fn lead_white(s: Seq<char>) -> nat
    decreases s.len(),
{
    if s.len() > 0 && is_white(s[0]) { 1 + lead_white(s.skip(1)) } else { 0 }
}

/// The number of whitespace characters at the end of `s`.
pub open spec fn trail_white(s: Seq<char>) -> nat
    decreases s.len(),
{
    if s.len() > 0 && is_white(s.last()) { 1 + trail_white(s.drop_last()) } else { 0 }
}

/// `s` without leading and trailing whitespace.
pub open spec fn trim(s: Seq<char>) -> Seq<char> {
    let t = s.skip(lead_white(s) as int);
    t.take(t.len() - trail_white(t))
}

/// The answer that the text `s` gives, case and surrounding whitespace
/// aside: `y`/`yes`, empty/`n`/`no`, `a`/`all`, `s`/`skip`/`skip all`,
/// `q`/`quit`.
pub open spec fn spec_parse_answer(s: Seq<char>) -> Option<OverwriteAnswer> {
    let t = ascii_lower(trim(s));
    if t == seq!['y'] || t == seq!['y', 'e', 's'] {
        Some(OverwriteAnswer::Yes)
    } else if t.len() == 0 || t == seq!['n'] || t == seq!['n', 'o'] {
        Some(OverwriteAnswer::No)
    } else if t == seq!['a'] || t == seq!['a', 'l', 'l'] {
        Some(OverwriteAnswer::All)
    } else if t == seq!['s'] || t == seq!['s', 'k', 'i', 'p'] || t == seq!['s', 'k', 'i', 'p', ' ', 'a', 'l', 'l'] {
        Some(OverwriteAnswer::SkipAll)
    } else if t == seq!['q'] || t == seq!['q', 'u', 'i', 't'] {
        Some(OverwriteAnswer::Quit)
    } else {
        None
    }
}

fn white(c: char) -> (r: bool)
    ensures
        r == is_white(c),
{
    ('\u{9}' <= c && c <= '\u{d}') || c == ' ' || c == '\u{85}' || c == '\u{a0}' || c == '\u{1680}' || ('\u{2000}' <= c && c
        <= '\u{200a}') || c == '\u{2028}' || c == '\u{2029}' || c == '\u{202f}' || c == '\u{205f}' || c == '\u{3000}'
}

fn lower(c: char) -> (r: char)
    ensures
        r == lower_char(c),
{
    if 'A' <= c && c <= 'Z' {
        ((c as u32) + 32) as u8 as char
    } else {
        c
    }
}

/// The characters of `s`.
pub fn chars_of(s: &str) -> (r: Vec<char>)
    ensures
        r@ == s@,
{
    let n = s.unicode_len();
    let mut v: Vec<char> = Vec::new();
    let mut i: usize = 0;
    while i < n
        invariant
            i <= n == s@.len(),
            v@ == s@.take(i as int),
        decreases n - i,
    {
        v.push(s.get_char(i));
        proof {
            assert(v@ =~= s@.take(i + 1));
        }
        i = i + 1;
    }
    proof {
        assert(s@.take(n as int) =~= s@);
    }
    v
}

proof fn lemma_lead_white(s: Seq<char>, i: nat)
    requires
        i <= s.len(),
        forall|k: int| 0 <= k < i ==> is_white(#[trigger] s[k]),
        i == s.len() || !is_white(s[i as int]),
    ensures
        lead_white(s) == i,
    decreases i,
{
    if i > 0 {
        assert forall|k: int| 0 <= k < i - 1 implies is_white(#[trigger] s.skip(1)[k]) by {
            assert(s.skip(1)[k] == s[k + 1]);
        }
        if i - 1 < s.skip(1).len() {
            assert(s.skip(1)[i - 1] == s[i as int]);
        }
        lemma_lead_white(s.skip(1), (i - 1) as nat);
    }
}

proof fn lemma_trail_white(s: Seq<char>, i: nat)
    requires
        i <= s.len(),
        forall|k: int| s.len() - i <= k < s.len() ==> is_white(#[trigger] s[k]),
        i == s.len() || !is_white(s[s.len() - i - 1]),
    ensures
        trail_white(s) == i,
    decreases i,
{
    if i > 0 {
        assert forall|k: int| s.drop_last().len() - (i - 1) <= k < s.drop_last().len() implies is_white(
            #[trigger] s.drop_last()[k],
        ) by {
            assert(s.drop_last()[k] == s[k]);
        }
        lemma_trail_white(s.drop_last(), (i - 1) as nat);
    }
}

/// `v[from..to]`, lower-cased, is `lit`.
fn lower_eq(v: &Vec<char>, from: usize, to: usize, lit: &[char]) -> (r: bool)
    requires
        from <= to <= v@.len(),
    ensures
        r == (ascii_lower(v@.subrange(from as int, to as int)) == lit@),
{
    if to - from != lit.len() {
        proof {
            assert(ascii_lower(v@.subrange(from as int, to as int)).len() != lit@.len());
        }
        return false;
    }
    let mut k: usize = 0;
    while k < lit.len()
        invariant
            from <= to <= v@.len(),
            to - from == lit@.len(),
            k <= lit@.len(),
            forall|j: int| 0 <= j < k ==> lower_char(v@[from + j]) == lit@[j],
        decreases lit@.len() - k,
    {
        if lower(v[from + k]) != lit[k] {
            proof {
                assert(ascii_lower(v@.subrange(from as int, to as int))[k as int] != lit@[k as int]);
            }
            return false;
        }
        k = k + 1;
    }
    proof {
        assert(ascii_lower(v@.subrange(from as int, to as int)) =~= lit@);
    }
    true
}

/// Read an answer to the overwrite prompt.
pub fn parse_overwrite_answer(input: &str) -> (r: Option<OverwriteAnswer>)
    ensures
        r == spec_parse_answer(input@),
{
    let v = chars_of(input);
    let n = v.len();
    let mut a: usize = 0;
    while a < n && white(v[a])
        invariant
            a <= n == v@.len(),
            forall|k: int| 0 <= k < a ==> is_white(#[trigger] v@[k]),
        decreases n - a,
    {
        a = a + 1;
    }
    let mut b: usize = n;
    while b > a && white(v[b - 1])
        invariant
            a <= b <= n == v@.len(),
            forall|k: int| b <= k < n ==> is_white(#[trigger] v@[k]),
        decreases b,
    {
        b = b - 1;
    }
    proof {
        lemma_lead_white(v@, a as nat);
        let t = v@.skip(a as int);
        assert forall|k: int| t.len() - (n - b) <= k < t.len() implies is_white(#[trigger] t[k]) by {
            assert(t[k] == v@[a + k]);
        }
        if n - b < t.len() {
            assert(t[t.len() - (n - b) - 1] == v@[b - 1]);
        }
        lemma_trail_white(t, (n - b) as nat);
        assert(trim(input@) =~= v@.subrange(a as int, b as int));
    }
    let w_y: &[char] = &['y'];
    let w_yes: &[char] = &['y', 'e', 's'];
    let w_n: &[char] = &['n'];
    let w_no: &[char] = &['n', 'o'];
    let w_a: &[char] = &['a'];
    let w_all: &[char] = &['a', 'l', 'l'];
    let w_s: &[char] = &['s'];
    let w_skip: &[char] = &['s', 'k', 'i', 'p'];
    let w_skip_all: &[char] = &['s', 'k', 'i', 'p', ' ', 'a', 'l', 'l'];
    let w_q: &[char] = &['q'];
    let w_quit: &[char] = &['q', 'u', 'i', 't'];
    proof {
        assert(w_y@ =~= seq!['y']);
        assert(w_yes@ =~= seq!['y', 'e', 's']);
        assert(w_n@ =~= seq!['n']);
        assert(w_no@ =~= seq!['n', 'o']);
        assert(w_a@ =~= seq!['a']);
        assert(w_all@ =~= seq!['a', 'l', 'l']);
        assert(w_s@ =~= seq!['s']);
        assert(w_skip@ =~= seq!['s', 'k', 'i', 'p']);
        assert(w_skip_all@ =~= seq!['s', 'k', 'i', 'p', ' ', 'a', 'l', 'l']);
        assert(w_q@ =~= seq!['q']);
        assert(w_quit@ =~= seq!['q', 'u', 'i', 't']);
    }
    if lower_eq(&v, a, b, w_y) || lower_eq(&v, a, b, w_yes) {
        Some(OverwriteAnswer::Yes)
    } else if a == b || lower_eq(&v, a, b, w_n) || lower_eq(&v, a, b, w_no) {
        Some(OverwriteAnswer::No)
    } else if lower_eq(&v, a, b, w_a) || lower_eq(&v, a, b, w_all) {
        Some(OverwriteAnswer::All)
    } else if lower_eq(&v, a, b, w_s) || lower_eq(&v, a, b, w_skip) || lower_eq(&v, a, b, w_skip_all) {
        Some(OverwriteAnswer::SkipAll)
    } else if lower_eq(&v, a, b, w_q) || lower_eq(&v, a, b, w_quit) {
        Some(OverwriteAnswer::Quit)
    } else {
        None
    }
}

/// The prompt and warnings of the overwrite dialogue. Its model: whether a
/// user can be asked, the paths prompted for and warned about so far, the
/// answer the next prompt gives, and whether its calls succeed. An implementation that keeps no model
/// of its own has the unknown ones these defaults give.
pub trait OverwriteUi {
    /// Whether a user can be asked.
    closed spec fn interactive(&self) -> bool {
        arbitrary()
    }

    /// The paths prompted for so far.
    closed spec fn prompted(&self) -> Seq<Seq<char>> {
        arbitrary()
    }

    /// The paths warned about so far.
    closed spec fn warned(&self) -> Seq<Seq<char>> {
        arbitrary()
    }

    /// The answer the next prompt gives.
    closed spec fn next_answer(&self) -> OverwriteAnswer {
        arbitrary()
    }

    /// Whether the prompt and the warnings succeed from now on.
    closed spec fn responsive(&self) -> bool {
        arbitrary()
    }

    /// Whether a user can be asked.
    fn is_interactive(&self) -> (r: bool)
        ensures
            r == self.interactive(),
    ;

    /// Ask whether `path` may be overwritten: the path is recorded as
    /// prompted for, and an answer is the model's next one.
    fn prompt_overwrite(&mut self, path: &str) -> (r: Result<OverwriteAnswer, CliError>)
        ensures
            final(self).prompted() == old(self).prompted().push(path@),
            final(self).warned() == old(self).warned(),
            r matches Ok(a) ==> a == old(self).next_answer(),
            old(self).responsive() ==> r is Ok && final(self).responsive(),
    ;

    /// Warn that `path` exists and is skipped: the path is recorded as
    /// warned about.
    fn warn_skip_existing(&mut self, path: &str) -> (r: Result<(), CliError>)
        ensures
            final(self).warned() == old(self).warned().push(path@),
            final(self).prompted() == old(self).prompted(),
            old(self).responsive() ==> r is Ok && final(self).responsive(),
    ;
}

/// What an answer to the prompt does: the action, the mode from then on
/// (`None`: unchanged), and whether a skip warning is shown.
pub open spec fn spec_answer_effect(a: OverwriteAnswer) -> (CollisionAction, Option<OverwriteMode>, bool) {
    match a {
        OverwriteAnswer::Yes => (CollisionAction::Overwrite, None, false),
        OverwriteAnswer::No => (CollisionAction::Skip { warning: true }, None, true),
        OverwriteAnswer::All => (CollisionAction::Overwrite, Some(OverwriteMode::Overwrite), false),
        OverwriteAnswer::SkipAll => (CollisionAction::Skip { warning: true }, Some(OverwriteMode::SkipExisting), true),
        OverwriteAnswer::Quit => (CollisionAction::Quit, None, false),
    }
}

/// Apply an answer: the action, and whether to warn; `All` and `Skip all`
/// decide every later collision too.
pub fn overwrite_action(mode: &mut OverwriteMode, answer: OverwriteAnswer) -> (r: (CollisionAction, bool))
    ensures
        r.0 == spec_answer_effect(answer).0,
        r.1 == spec_answer_effect(answer).2,
        *final(mode) == match spec_answer_effect(answer).1 {
            Some(m) => m,
            None => *old(mode),
        },
{
    match answer {
        OverwriteAnswer::Yes => (CollisionAction::Overwrite, false),
        OverwriteAnswer::No => (CollisionAction::Skip { warning: true }, true),
        OverwriteAnswer::All => {
            *mode = OverwriteMode::Overwrite;
            (CollisionAction::Overwrite, false)
        },
        OverwriteAnswer::SkipAll => {
            *mode = OverwriteMode::SkipExisting;
            (CollisionAction::Skip { warning: true }, true)
        },
        OverwriteAnswer::Quit => (CollisionAction::Quit, false),
    }
}

/// Decide what to do with an existing `path`: per the mode, or overwrite
/// with `assume_yes`, or skip with a warning when nobody can be asked, or
/// ask.
pub fn decide_overwrite<U: OverwriteUi>(mode: &mut OverwriteMode, assume_yes: bool, ui: &mut U, path: &str) -> (r: Result<
    CollisionAction,
    CliError,
>)
    ensures
        *old(mode) == OverwriteMode::Overwrite ==> (r matches Ok(a) && a == CollisionAction::Overwrite) && *final(mode)
            == *old(mode),
        *old(mode) == OverwriteMode::SkipExisting ==> (r matches Ok(a) && a == (CollisionAction::Skip { warning: false }))
            && *final(mode) == *old(mode),
        *old(mode) == OverwriteMode::Ask && assume_yes ==> (r matches Ok(a) && a == CollisionAction::Overwrite)
            && *final(mode) == *old(mode),
        *old(mode) == OverwriteMode::Ask && !assume_yes ==> {
            &&& r matches Ok(a) ==> (exists|ans: OverwriteAnswer| #[trigger] spec_answer_effect(ans).0 == a && *final(mode)
                == match spec_answer_effect(ans).1 {
                Some(m) => m,
                None => OverwriteMode::Ask,
            })
        },
        *old(mode) != OverwriteMode::Ask || assume_yes ==> *final(ui) == *old(ui),
        old(ui).responsive() ==> r is Ok,
        *old(mode) == OverwriteMode::Ask && !assume_yes && !old(ui).interactive() ==> {
            &&& final(ui).prompted() == old(ui).prompted()
            &&& final(ui).warned() == old(ui).warned().push(path@)
            &&& *final(mode) == OverwriteMode::Ask
            &&& r is Ok ==> r == Ok::<CollisionAction, CliError>(CollisionAction::Skip { warning: true })
        },
        *old(mode) == OverwriteMode::Ask && !assume_yes && old(ui).interactive() ==> {
            let eff = spec_answer_effect(old(ui).next_answer());
            &&& final(ui).prompted() == old(ui).prompted().push(path@)
            &&& r matches Ok(a) ==> a == eff.0 && *final(mode) == (match eff.1 {
                Some(m) => m,
                None => OverwriteMode::Ask,
            }) && final(ui).warned() == (if eff.2 {
                old(ui).warned().push(path@)
            } else {
                old(ui).warned()
            })
        },
{
    match *mode {
        OverwriteMode::Overwrite => Ok(CollisionAction::Overwrite),
        OverwriteMode::SkipExisting => Ok(CollisionAction::Skip { warning: false }),
        OverwriteMode::Ask => {
            if assume_yes {
                return Ok(CollisionAction::Overwrite);
            }
            if !ui.is_interactive() {
                match ui.warn_skip_existing(path) {
                    Ok(()) => {},
                    Err(e) => {
                        return Err(e);
                    },
                }
                proof {
                    assert(spec_answer_effect(OverwriteAnswer::No).0 == (CollisionAction::Skip { warning: true }));
                }
                return Ok(CollisionAction::Skip { warning: true });
            }
            let answer = match ui.prompt_overwrite(path) {
                Ok(a) => a,
                Err(e) => {
                    return Err(e);
                },
            };
            let (action, warn) = overwrite_action(mode, answer);
            if warn {
                match ui.warn_skip_existing(path) {
                    Ok(()) => {},
                    Err(e) => {
                        return Err(e);
                    },
                }
            }
            proof {
                assert(spec_answer_effect(answer).0 == action);
            }
            Ok(action)
        },
    }
}

/// `t` matches the wildcard pattern `p`: `*` matches any run of characters,
/// `?` any one character, anything else itself.
pub open spec fn wildcard_matches(p: Seq<char>, t: Seq<char>) -> bool
    decreases p.len() + t.len(),
{
    if p.len() == 0 {
        t.len() == 0
    } else if p[0] == '*' {
        wildcard_matches(p.skip(1), t) || (t.len() > 0 && wildcard_matches(p, t.skip(1)))
    } else if t.len() == 0 {
        false
    } else if p[0] == '?' || p[0] == t[0] {
        wildcard_matches(p.skip(1), t.skip(1))
    } else {
        false
    }
}

/// Whether `text` matches the wildcard `pattern`.
pub fn wildcard_match(pattern: &str, text: &str) -> (r: bool)
    ensures
        r == wildcard_matches(pattern@, text@),
{
    let p = chars_of(pattern);
    let t = chars_of(text);
    let pl = p.len();
    let tl = t.len();
    // `next[k]`, `next_end`: whether `t[k..]`, and the empty rest, match the
    // pattern from position `i` on.
    let mut next: Vec<bool> = Vec::new();
    let mut next_end = true;
    let mut k: usize = 0;
    while k < tl
        invariant
            k <= tl == t@.len(),
            pl == p@.len(),
            next@.len() == k,
            forall|j: int| 0 <= j < k ==> next@[j] == wildcard_matches(p@.skip(pl as int), t@.skip(j)),
        decreases tl - k,
    {
        next.push(false);
        k = k + 1;
    }
    let mut i: usize = pl;
    while i > 0
        invariant
            i <= pl == p@.len(),
            tl == t@.len(),
            next@.len() == tl,
            forall|j: int| 0 <= j < tl ==> next@[j] == wildcard_matches(p@.skip(i as int), t@.skip(j)),
            next_end == wildcard_matches(p@.skip(i as int), t@.skip(tl as int)),
        decreases i,
    {
        let pi = i - 1;
        let c = p[pi];
        proof {
            assert(p@.skip(pi as int).skip(1) =~= p@.skip(pi + 1));
            assert(p@.skip(pi as int)[0] == c);
        }
        let cur_end = c == '*' && next_end;
        let mut cur: Vec<bool> = Vec::new();
        let mut z: usize = 0;
        while z < tl
            invariant
                z <= tl,
                cur@.len() == z,
            decreases tl - z,
        {
            cur.push(false);
            z = z + 1;
        }
        let mut j: usize = tl;
        while j > 0
            invariant
                j <= tl == t@.len(),
                pi < p@.len(),
                c == p@[pi as int],
                cur@.len() == tl,
                next@.len() == tl,
                forall|q: int| 0 <= q < tl ==> next@[q] == wildcard_matches(p@.skip(pi + 1), t@.skip(q)),
                next_end == wildcard_matches(p@.skip(pi + 1), t@.skip(tl as int)),
                cur_end == wildcard_matches(p@.skip(pi as int), t@.skip(tl as int)),
                forall|q: int| j <= q < tl ==> cur@[q] == wildcard_matches(p@.skip(pi as int), t@.skip(q)),
            decreases j,
        {
            let tj = j - 1;
            proof {
                assert(p@.skip(pi as int).skip(1) =~= p@.skip(pi + 1));
                assert(p@.skip(pi as int)[0] == c);
                assert(t@.skip(tj as int).skip(1) =~= t@.skip(tj + 1));
                assert(t@.skip(tj as int)[0] == t@[tj as int]);
            }
            let after_next = if tj + 1 < tl { next[tj + 1] } else { next_end };
            let after_cur = if tj + 1 < tl { cur[tj + 1] } else { cur_end };
            let v = if c == '*' {
                next[tj] || after_cur
            } else if c == '?' || c == t[tj] {
                after_next
            } else {
                false
            };
            cur.set(tj, v);
            j = tj;
        }
        next = cur;
        next_end = cur_end;
        i = pi;
    }
    proof {
        assert(p@.skip(0) =~= p@);
        assert(t@.skip(0) =~= t@);
    }
    if tl == 0 { next_end } else { next[0] }
}

} // verus!
