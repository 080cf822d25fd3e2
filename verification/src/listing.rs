//! Names of the methods an archive uses, in the sorted, duplicate-free form
//! a listing shows them.
use vstd::prelude::*;
use vstd::utf8::encode_utf8;
use crate::error::R7zError;
use crate::folder::{Folder, FolderView};
use crate::method::{first_with_id, method_from_id, spec_all_methods, spec_method_name, SevenZMethod};
use crate::pack_info::{spec_folder_at, spec_num_folders, UnpackInfo, UnpackInfoView};
use crate::stream_info::{StreamInfo, StreamInfoView};

verus! {

/// `a` comes strictly before `b` in byte-wise lexicographic order (the
/// order of `String`s).
pub open spec fn lex_lt(a: Seq<u8>, b: Seq<u8>) -> bool
    decreases a.len(),
{
    if a.len() == 0 {
        b.len() > 0
    } else if b.len() == 0 {
        false
    } else if a[0] != b[0] {
        a[0] < b[0]
    } else {
        lex_lt(a.skip(1), b.skip(1))
    }
}

/// Exactly one of `a < b`, `a == b`, `b < a` holds.
pub proof fn lemma_lex_trichotomy(a: Seq<u8>, b: Seq<u8>)
    ensures
        lex_lt(a, b) || lex_lt(b, a) || a == b,
        !(lex_lt(a, b) && lex_lt(b, a)),
        !(lex_lt(a, b) && a == b),
    decreases a.len(),
{
    if a.len() > 0 && b.len() > 0 && a[0] == b[0] {
        lemma_lex_trichotomy(a.skip(1), b.skip(1));
        if a.skip(1) == b.skip(1) {
            assert(a =~= seq![a[0]] + a.skip(1));
            assert(b =~= seq![b[0]] + b.skip(1));
        }
    } else if a.len() == 0 && b.len() == 0 {
        assert(a =~= b);
    }
}

/// The order is transitive.
pub proof fn lemma_lex_trans(a: Seq<u8>, b: Seq<u8>, c: Seq<u8>)
    requires
        lex_lt(a, b),
        lex_lt(b, c),
    ensures
        lex_lt(a, c),
    decreases a.len(),
{
    if a.len() > 0 && b.len() > 0 && c.len() > 0 && a[0] == b[0] && b[0] == c[0] {
        lemma_lex_trans(a.skip(1), b.skip(1), c.skip(1));
    }
}

fn bytes_lt(a: &[u8], b: &[u8]) -> (r: bool)
    ensures
        r == lex_lt(a@, b@),
{
    let mut i: usize = 0;
    proof {
        assert(a@.skip(0) =~= a@);
        assert(b@.skip(0) =~= b@);
    }
    while i < a.len() && i < b.len()
        invariant
            i <= a@.len(),
            i <= b@.len(),
            lex_lt(a@, b@) == lex_lt(a@.skip(i as int), b@.skip(i as int)),
        decreases a@.len() - i,
    {
        proof {
            assert(a@.skip(i as int).skip(1) =~= a@.skip(i + 1));
            assert(b@.skip(i as int).skip(1) =~= b@.skip(i + 1));
        }
        if a[i] != b[i] {
            return a[i] < b[i];
        }
        i = i + 1;
    }
    i == a.len() && i < b.len()
}

/// The UTF-8 bytes of the strings of `v`.
pub open spec fn utf8_all(v: Seq<String>) -> Seq<Seq<u8>> {
    Seq::new(v.len(), |i: int| encode_utf8(v[i]@))
}

/// `v` is strictly increasing.
pub open spec fn strictly_sorted(v: Seq<Seq<u8>>) -> bool {
    forall|i: int, j: int| 0 <= i < j < v.len() ==> lex_lt(#[trigger] v[i], #[trigger] v[j])
}

/// Insert `x` into the sorted list `v`, unless it is there already.
pub fn insert_sorted(v: &mut Vec<String>, x: String)
    requires
        strictly_sorted(utf8_all(old(v)@)),
    ensures
        strictly_sorted(utf8_all(final(v)@)),
        utf8_all(final(v)@).to_set() == utf8_all(old(v)@).to_set().insert(encode_utf8(x@)),
{
    let ghost old_all = utf8_all(v@);
    let mut i: usize = 0;
    while i < v.len() && bytes_lt(v[i].as_str().as_bytes(), x.as_str().as_bytes())
        invariant
            i <= v@.len(),
            v@ == old(v)@,
            old_all == utf8_all(v@),
            strictly_sorted(old_all),
            forall|k: int| 0 <= k < i ==> lex_lt(#[trigger] old_all[k], encode_utf8(x@)),
        decreases v@.len() - i,
    {
        i = i + 1;
    }
    let ghost xb = encode_utf8(x@);
    if i < v.len() && !bytes_lt(x.as_str().as_bytes(), v[i].as_str().as_bytes()) {
        proof {
            lemma_lex_trichotomy(old_all[i as int], xb);
            assert(old_all[i as int] == xb);
            assert(old_all.to_set().insert(xb) =~= old_all.to_set());
        }
        return;
    }
    proof {
        if i < old_all.len() {
            lemma_lex_trichotomy(old_all[i as int], xb);
        }
    }
    v.insert(i, x);
    proof {
        let na = utf8_all(v@);
        assert(na =~= old_all.insert(i as int, xb));
        assert forall|a: int, b: int| 0 <= a < b < na.len() implies lex_lt(#[trigger] na[a], #[trigger] na[b]) by {
            if b < i {
            } else if a < i && b == i {
            } else if a < i && b > i {
                assert(na[b] == old_all[b - 1]);
                if b - 1 > i {
                    lemma_lex_trans(xb, old_all[i as int], old_all[b - 1]);
                }
                lemma_lex_trans(na[a], xb, na[b]);
            } else if a == i {
                assert(na[b] == old_all[b - 1]);
                if b - 1 > i {
                    lemma_lex_trans(xb, old_all[i as int], old_all[b - 1]);
                }
            } else {
                assert(na[a] == old_all[a - 1]);
                assert(na[b] == old_all[b - 1]);
            }
        }
        assert(na.to_set() =~= old_all.to_set().insert(xb)) by {
            assert forall|y: Seq<u8>| na.to_set().contains(y) <==> old_all.to_set().insert(xb).contains(y) by {
                if na.to_set().contains(y) {
                    let k = choose|k: int| 0 <= k < na.len() && na[k] == y;
                    if k < i {
                        assert(old_all[k] == y);
                    } else if k > i {
                        assert(old_all[k - 1] == y);
                    }
                }
                if old_all.to_set().contains(y) {
                    let k = choose|k: int| 0 <= k < old_all.len() && old_all[k] == y;
                    if k < i {
                        assert(na[k] == y);
                    } else {
                        assert(na[k + 1] == y);
                    }
                }
                if y == xb {
                    assert(na[i as int] == y);
                }
            }
        }
    }
}

/// The digits of `b` in upper-case hexadecimal, two of them.
pub open spec fn hex_byte(b: u8) -> Seq<char> {
    let d = |n: u8| if n < 10 { (('0' as u8) + n) as char } else { (('A' as u8) + n - 10) as char };
    seq![d(b / 16), d(b % 16)]
}

/// The bytes `id` as `{:02X?}` shows a slice: `[03, 01, 01]`.
pub open spec fn hex_list(id: Seq<u8>) -> Seq<char>
    decreases id.len(),
{
    if id.len() == 0 {
        seq!['[', ']']
    } else {
        hex_list_items(id) + seq![']']
    }
}

/// `[` followed by the bytes of `id`, separated by `, `.
pub open spec fn hex_list_items(id: Seq<u8>) -> Seq<char>
    decreases id.len(),
{
    if id.len() == 0 {
        seq!['[']
    } else if id.len() == 1 {
        seq!['['] + hex_byte(id[0])
    } else {
        hex_list_items(id.drop_last()) + seq![',', ' '] + hex_byte(id.last())
    }
}

/// The bytes of `id` written as `{:02X?}` writes a slice.
#[verifier::external_body]
fn format_hex_list(id: &[u8]) -> (r: String)
    ensures
        r@ == hex_list(id@),
{
    format!("{:02X?}", id)
}

/// The name shown for a coder: its method's name, or its id in hexadecimal.
pub open spec fn spec_coder_name(id: Seq<u8>) -> Seq<char> {
    match first_with_id(spec_all_methods(), id) {
        Some(m) => spec_method_name(m)@,
        None => hex_list(id),
    }
}

/// The names of the coders of `folder`, in order.
pub fn folder_method_names(folder: &Folder) -> (r: Vec<String>)
    ensures
        r@.len() == folder@.coders.len(),
        forall|k: int| 0 <= k < r@.len() ==> (#[trigger] r@[k])@ == spec_coder_name(folder@.coders[k].codec_id),
{
    let mut names: Vec<String> = Vec::new();
    let mut k: usize = 0;
    while k < folder.coders.len()
        invariant
            k <= folder.coders@.len(),
            folder.coders@.len() == folder@.coders.len(),
            names@.len() == k,
            forall|j: int| 0 <= j < k ==> (#[trigger] names@[j])@ == spec_coder_name(folder@.coders[j].codec_id),
        decreases folder.coders@.len() - k,
    {
        proof {
            assert(folder@.coders[k as int] == folder.coders@[k as int]@);
        }
        let id = folder.coders[k].codec_id.as_slice();
        let name = match method_from_id(id) {
            Some(m) => String::from_str(m.name()),
            None => format_hex_list(id),
        };
        names.push(name);
        k = k + 1;
    }
    names
}

proof fn lemma_push_to_set(s: Seq<Seq<u8>>, x: Seq<u8>)
    ensures
        s.push(x).to_set() == s.to_set().insert(x),
{
    assert forall|y: Seq<u8>| s.push(x).to_set().contains(y) <==> s.to_set().insert(x).contains(y) by {
        if s.push(x).to_set().contains(y) {
            let k = choose|k: int| 0 <= k < s.push(x).len() && s.push(x)[k] == y;
            if k < s.len() {
                assert(s[k] == y);
            }
        }
        if s.to_set().contains(y) {
            let k = choose|k: int| 0 <= k < s.len() && s[k] == y;
            assert(s.push(x)[k] == y);
        }
        if y == x {
            assert(s.push(x)[s.len() as int] == y);
        }
    }
    assert(s.push(x).to_set() =~= s.to_set().insert(x));
}

/// The UTF-8 names of the coders of `f`.
pub open spec fn coder_name_set(f: FolderView) -> Set<Seq<u8>> {
    Seq::new(f.coders.len(), |k: int| encode_utf8(spec_coder_name(f.coders[k].codec_id))).to_set()
}

/// The names of the coders of the first `n` folders of `u`; `Parse` when
/// one of them does not parse.
pub open spec fn names_of_folders(u: UnpackInfoView, n: nat) -> Result<Set<Seq<u8>>, R7zError>
    decreases n,
{
    if n == 0 {
        Ok(Set::empty())
    } else {
        match names_of_folders(u, (n - 1) as nat) {
            Err(e) => Err(e),
            Ok(s) => match spec_folder_at(u, (n - 1) as nat) {
                None => Err(R7zError::Parse),
                Some(f) => Ok(s.union(coder_name_set(f))),
            },
        }
    }
}

/// The method names used by the folders of `st`.
pub open spec fn spec_method_names(st: Option<StreamInfoView>) -> Result<Set<Seq<u8>>, R7zError> {
    match st {
        Some(s) => match s.unpack_info {
            Some(u) => names_of_folders(u, spec_num_folders(u)),
            None => Ok(Set::empty()),
        },
        None => Ok(Set::empty()),
    }
}

proof fn lemma_names_err(u: UnpackInfoView, k: nat, m: nat)
    requires
        k <= m,
        names_of_folders(u, k) is Err,
    ensures
        names_of_folders(u, m) == names_of_folders(u, k),
    decreases m - k,
{
    if k < m {
        lemma_names_err(u, k, (m - 1) as nat);
    }
}

/// The distinct method names of an archive's folders in sorted order, or
/// `Copy` when it has none.
pub fn archive_method_names(streams: Option<&StreamInfo>) -> (r: Result<Vec<String>, R7zError>)
    ensures
        match spec_method_names(match streams { Some(s) => Some(s@), None => None }) {
            Err(e) => r == Err::<Vec<String>, R7zError>(e),
            Ok(set) => r matches Ok(v) && if set.is_empty() {
                v@.len() == 1 && v@[0]@ == "Copy"@
            } else {
                strictly_sorted(utf8_all(v@)) && utf8_all(v@).to_set() == set
            },
        },
{
    let mut names: Vec<String> = Vec::new();
    let ghost mut set: Set<Seq<u8>> = Set::empty();
    proof {
        assert(utf8_all(names@).to_set() =~= Set::<Seq<u8>>::empty());
    }
    match streams {
        Some(st) => match &st.unpack_info {
            Some(u) => {
                let n = u.num_folders_usize();
                let mut idx: usize = 0;
                while idx < n
                    invariant
                        idx <= n,
                        n == spec_num_folders(u@),
                        spec_method_names(match streams { Some(s) => Some(s@), None => None }) == names_of_folders(u@, n as nat),
                        names_of_folders(u@, idx as nat) == Ok::<Set<Seq<u8>>, R7zError>(set),
                        strictly_sorted(utf8_all(names@)),
                        utf8_all(names@).to_set() == set,
                    decreases n - idx,
                {
                    let folder = match u.parse_folder(idx) {
                        Ok(f) => f,
                        Err(e) => {
                            proof {
                                lemma_names_err(u@, (idx + 1) as nat, n as nat);
                            }
                            return Err(e);
                        },
                    };
                    let fnames = folder_method_names(&folder);
                    let mut k: usize = 0;
                    let ghost set0 = set;
                    while k < fnames.len()
                        invariant
                            k <= fnames@.len(),
                            fnames@.len() == folder@.coders.len(),
                            forall|j: int| 0 <= j < fnames@.len() ==> (#[trigger] fnames@[j])@ == spec_coder_name(folder@.coders[j].codec_id),
                            strictly_sorted(utf8_all(names@)),
                            utf8_all(names@).to_set() == set0.union(
                                Seq::new(k as nat, |q: int| encode_utf8(spec_coder_name(folder@.coders[q].codec_id))).to_set(),
                            ),
                        decreases fnames@.len() - k,
                    {
                        let nm = fnames[k].clone();
                        insert_sorted(&mut names, nm);
                        proof {
                            let pre = Seq::new(k as nat, |q: int| encode_utf8(spec_coder_name(folder@.coders[q].codec_id)));
                            let post = Seq::new((k + 1) as nat, |q: int| encode_utf8(spec_coder_name(folder@.coders[q].codec_id)));
                            assert(post =~= pre.push(encode_utf8(spec_coder_name(folder@.coders[k as int].codec_id))));
                            lemma_push_to_set(pre, encode_utf8(spec_coder_name(folder@.coders[k as int].codec_id)));
                        }
                        k = k + 1;
                    }
                    proof {
                        assert(Seq::new(fnames@.len() as nat, |q: int| encode_utf8(spec_coder_name(folder@.coders[q].codec_id)))
                            =~= Seq::new(folder@.coders.len(), |q: int| encode_utf8(spec_coder_name(folder@.coders[q].codec_id))));
                        set = set.union(coder_name_set(folder@));
                    }
                    idx = idx + 1;
                }
            },
            None => {},
        },
        None => {},
    }
    if names.len() == 0 {
        proof {
            assert(set =~= Set::<Seq<u8>>::empty());
        }
        let mut v: Vec<String> = Vec::new();
        v.push(String::from_str("Copy"));
        return Ok(v);
    }
    proof {
        assert(utf8_all(names@).to_set().contains(utf8_all(names@)[0]));
    }
    Ok(names)
}

/// Some folder holds more than one stream.
pub open spec fn spec_is_solid(st: Option<StreamInfoView>) -> bool {
    st matches Some(s) && s.substream_info matches Some(sub) && exists|k: int|
        0 <= k < sub.num_unpack_streams_per_folder.len() && sub.num_unpack_streams_per_folder[k] > 1
}

/// Whether some folder of the archive holds more than one stream.
pub fn archive_is_solid(streams: Option<&StreamInfo>) -> (r: bool)
    ensures
        r == spec_is_solid(match streams { Some(s) => Some(s@), None => None }),
{
    match streams {
        Some(st) => match &st.substream_info {
            Some(sub) => {
                let mut k: usize = 0;
                while k < sub.num_unpack_streams_per_folder.len()
                    invariant
                        k <= sub.num_unpack_streams_per_folder@.len(),
                        streams == Some(st),
                        st@.substream_info == Some(sub@),
                        forall|j: int| 0 <= j < k ==> sub.num_unpack_streams_per_folder@[j] <= 1,
                    decreases sub.num_unpack_streams_per_folder@.len() - k,
                {
                    if sub.num_unpack_streams_per_folder[k] > 1 {
                        proof {
                            let x = st@.substream_info->Some_0;
                            assert(x.num_unpack_streams_per_folder[k as int] > 1);
                            assert(spec_is_solid(Some(st@)));
                        }
                        return true;
                    }
                    k = k + 1;
                }
                false
            },
            None => false,
        },
        None => false,
    }
}

/// The id of the AES-256 + SHA-256 coder.
pub open spec fn aes_id() -> Seq<u8> {
    seq![0x06u8, 0xf1u8, 0x07u8, 0x01u8]
}

/// Whether a coder of `folder` decrypts (AES-256 + SHA-256).
pub fn folder_is_encrypted(folder: &Folder) -> (r: bool)
    ensures
        r == exists|k: int| 0 <= k < folder@.coders.len() && folder@.coders[k].codec_id == aes_id(),
{
    let mut k: usize = 0;
    while k < folder.coders.len()
        invariant
            k <= folder.coders@.len(),
            folder.coders@.len() == folder@.coders.len(),
            forall|j: int| 0 <= j < k ==> folder@.coders[j].codec_id != aes_id(),
        decreases folder.coders@.len() - k,
    {
        proof {
            assert(folder@.coders[k as int] == folder.coders@[k as int]@);
        }
        let id = folder.coders[k].codec_id.as_slice();
        if id.len() == 4 && id[0] == 0x06 && id[1] == 0xf1 && id[2] == 0x07 && id[3] == 0x01 {
            proof {
                assert(id@ =~= aes_id());
            }
            return true;
        }
        proof {
            if id@ == aes_id() {
                assert(id@[0] == 0x06u8);
            }
        }
        k = k + 1;
    }
    false
}

} // verus!
