//! The decisions of the command-line tool's commands: which entries a
//! command selects, where an extracted entry goes, what a rewrite keeps,
//! and the texts of a listing.
use vstd::prelude::*;
use vstd::string::StringSliceAdditionalSpecFns;
use crate::cli::{chars_of, wildcard_match, wildcard_matches, CliError};
use crate::error::R7zError;
use crate::text::{hex_digits, push_decimal, push_hex, push_str, string_from_chars};
use crate::archive::{decimal, ListingEntryKind};
use crate::archive::{entry_path, entry_value, raw_block_is, raw_block_readable, spec_entry_path, spec_extract, Archive, ArchiveListing,
    ArchiveListingEntry, listing_matches, listing_ready};
use crate::codec::{opt_password, DecodeResult};
use crate::error::debug_bytes;
use crate::files_info::{spec_is_anti, spec_is_directory, FilesInfo, FilesInfoView};
use crate::headers::{spec_header_files, spec_header_streams};
use crate::write::model::{ArchiveOptions, EntryKind, EntryMeta, FILE_ATTRIBUTE_ARCHIVE, SYMLINK_UNIX_MODE};
use crate::write::builder::{entry_is, non_empty, spec_solid_plan, ArchiveBuilder};
use crate::write::model::WriteEntry;
use crate::write::preserve::{PreservedArchiveEntry, PreservedEntryStream, RawFolderBlock};

verus! {

/// Some character of `t` is `*` or `?`.
pub open spec fn spec_has_wildcard(t: Seq<char>) -> bool {
    exists|k: int| 0 <= k < t.len() && (t[k] == '*' || t[k] == '?')
}

/// Whether `text` holds a wildcard character (`*` or `?`).
pub fn has_wildcard(text: &str) -> (r: bool)
    ensures
        r == spec_has_wildcard(text@),
{
    let c = chars_of(text);
    let mut k: usize = 0;
    while k < c.len()
        invariant
            k <= c@.len(),
            c@ == text@,
            forall|j: int| 0 <= j < k ==> !(c@[j] == '*' || c@[j] == '?'),
        decreases c.len() - k,
    {
        if c[k] == '*' || c[k] == '?' {
            return true;
        }
        k = k + 1;
    }
    false
}

/// `name` is selected by `patterns`: there are none, or one of them
/// matches it.
pub open spec fn spec_selected(name: Seq<char>, patterns: Seq<String>) -> bool {
    patterns.len() == 0 || exists|k: int| 0 <= k < patterns.len() && wildcard_matches(#[trigger] patterns[k]@, name)
}

/// Whether an entry called `name` is selected by the wildcard `patterns`.
pub fn entry_is_selected(name: &str, patterns: &Vec<String>) -> (r: bool)
    ensures
        r == spec_selected(name@, patterns@),
{
    if patterns.len() == 0 {
        return true;
    }
    let mut k: usize = 0;
    while k < patterns.len()
        invariant
            k <= patterns@.len(),
            forall|j: int| 0 <= j < k ==> !wildcard_matches(#[trigger] patterns@[j]@, name@),
        decreases patterns.len() - k,
    {
        if wildcard_match(patterns[k].as_str(), name) {
            return true;
        }
        k = k + 1;
    }
    false
}

/// `t` with each `\` replaced by `/`.
pub open spec fn forward_slashes(t: Seq<char>) -> Seq<char> {
    Seq::new(t.len(), |i: int| if t[i] == '\\' { '/' } else { t[i] })
}

/// `text` with each `\` replaced by `/`: how a name given on the command
/// line is compared with the names in an archive.
pub fn with_forward_slashes(text: &str) -> (r: String)
    ensures
        r@ == forward_slashes(text@),
{
    let c = chars_of(text);
    let mut out: Vec<char> = Vec::new();
    let mut k: usize = 0;
    while k < c.len()
        invariant
            k <= c@.len(),
            c@ == text@,
            out@ == forward_slashes(c@.take(k as int)),
        decreases c.len() - k,
    {
        out.push(if c[k] == '\\' { '/' } else { c[k] });
        k = k + 1;
        proof {
            assert(out@ =~= forward_slashes(c@.take(k as int)));
        }
    }
    proof {
        assert(c@.take(c@.len() as int) =~= c@);
    }
    string_from_chars(&out)
}

/// The name under which a path given on the command line is stored: the
/// path with `/` separators, which must not be empty.
pub fn archive_name_from(text: &str) -> (r: Result<String, CliError>)
    ensures
        text@.len() == 0 ==> (r matches Err(CliError::Usage(m)) && m@ == "empty archive entry name"@),
        text@.len() > 0 ==> (r matches Ok(s) && s@ == forward_slashes(text@)),
{
    let s = with_forward_slashes(text);
    if text.unicode_len() == 0 {
        return Err(CliError::Usage("empty archive entry name".to_owned()));
    }
    Ok(s)
}

/// A part of a path that names something: neither empty nor `.`.
pub open spec fn kept_part(s: Seq<char>) -> bool {
    s.len() > 0 && s != seq!['.']
}

/// Reading `t` from the start: the parts that name something, split at
/// `/`, and the part not yet ended by a `/`.
pub open spec fn parts_so_far(t: Seq<char>) -> (Seq<Seq<char>>, Seq<char>)
    decreases t.len(),
{
    if t.len() == 0 {
        (Seq::empty(), Seq::empty())
    } else {
        let (ps, cur) = parts_so_far(t.drop_last());
        if t.last() == '/' {
            (if kept_part(cur) { ps.push(cur) } else { ps }, Seq::empty())
        } else {
            (ps, cur.push(t.last()))
        }
    }
}

/// The components of the path `t` that name something, in order: its
/// `/`-separated parts without the empty ones and `.`.
pub open spec fn path_parts(t: Seq<char>) -> Seq<Seq<char>> {
    let (ps, cur) = parts_so_far(t);
    if kept_part(cur) {
        ps.push(cur)
    } else {
        ps
    }
}

/// The views of `v`.
pub open spec fn views(v: Seq<String>) -> Seq<Seq<char>> {
    v.map_values(|s: String| s@)
}

/// The components of `name` read as a path, without empty parts and `.`.
fn parts_of(name: &str) -> (r: Vec<String>)
    ensures
        views(r@) == path_parts(name@),
{
    let c = chars_of(name);
    let mut ps: Vec<String> = Vec::new();
    let mut cur: Vec<char> = Vec::new();
    let mut k: usize = 0;
    while k < c.len()
        invariant
            k <= c@.len(),
            c@ == name@,
            (views(ps@), cur@) == parts_so_far(c@.take(k as int)),
        decreases c.len() - k,
    {
        let ghost t = c@.take(k + 1);
        proof {
            assert(t.drop_last() =~= c@.take(k as int));
        }
        if c[k] == '/' {
            if cur.len() > 0 && !(cur.len() == 1 && cur[0] == '.') {
                proof {
                    assert(cur@ != seq!['.']);
                }
                let s = string_from_chars(&cur);
                ps.push(s);
                proof {
                    assert(views(ps@) =~= parts_so_far(c@.take(k as int)).0.push(cur@));
                }
            } else {
                proof {
                    if cur@.len() == 1 && cur@[0] == '.' {
                        assert(cur@ =~= seq!['.']);
                    }
                }
            }
            cur = Vec::new();
        } else {
            cur.push(c[k]);
        }
        k = k + 1;
        proof {
            assert(cur@ =~= parts_so_far(c@.take(k as int)).1);
            assert(views(ps@) =~= parts_so_far(c@.take(k as int)).0);
        }
    }
    proof {
        assert(c@.take(c@.len() as int) =~= c@);
    }
    if cur.len() > 0 && !(cur.len() == 1 && cur[0] == '.') {
        proof {
            assert(cur@ != seq!['.']);
        }
        let s = string_from_chars(&cur);
        ps.push(s);
        proof {
            assert(views(ps@) =~= parts_so_far(name@).0.push(cur@));
        }
    } else {
        proof {
            if cur@.len() == 1 && cur@[0] == '.' {
                assert(cur@ =~= seq!['.']);
            }
        }
    }
    ps
}

/// The parts under which an entry called `name` is extracted below the
/// output directory: its components, when it is relative and none of them
/// is `..`.
pub open spec fn spec_safe_parts(name: Seq<char>) -> Option<Seq<Seq<char>>> {
    if name.len() > 0 && name[0] == '/' {
        None
    } else if exists|k: int| 0 <= k < path_parts(name).len() && path_parts(name)[k] == seq!['.', '.'] {
        None
    } else {
        Some(path_parts(name))
    }
}

/// The path components under which the entry `name` is extracted below
/// the output directory. A name that is absolute or has a `..` component
/// is refused.
pub fn safe_parts(name: &str) -> (r: Result<Vec<String>, CliError>)
    ensures
        match spec_safe_parts(name@) {
            Some(ps) => r matches Ok(v) && views(v@) == ps,
            None => r matches Err(CliError::Fatal(R7zError::UnsafePath(s))) && s@ == name@,
        },
{
    let c = chars_of(name);
    if c.len() > 0 && c[0] == '/' {
        return Err(CliError::Fatal(R7zError::UnsafePath(name.to_owned())));
    }
    let ps = parts_of(name);
    let mut k: usize = 0;
    while k < ps.len()
        invariant
            k <= ps@.len(),
            views(ps@) == path_parts(name@),
            forall|j: int| 0 <= j < k ==> path_parts(name@)[j] != seq!['.', '.'],
        decreases ps.len() - k,
    {
        let p = chars_of(ps[k].as_str());
        proof {
            assert(views(ps@)[k as int] == ps@[k as int]@);
        }
        if p.len() == 2 && p[0] == '.' && p[1] == '.' {
            proof {
                assert(p@ =~= seq!['.', '.']);
            }
            return Err(CliError::Fatal(R7zError::UnsafePath(name.to_owned())));
        }
        proof {
            if p@ == seq!['.', '.'] {
                assert(p@[0] == '.' && p@[1] == '.');
            }
        }
        k = k + 1;
    }
    Ok(ps)
}

/// The name of the file an entry called `name` becomes when paths are not
/// kept: its last component, unless that is `..` or there is none.
pub open spec fn spec_flat_name(name: Seq<char>) -> Option<Seq<char>> {
    let ps = path_parts(name);
    if ps.len() == 0 || ps.last() == seq!['.', '.'] {
        None
    } else {
        Some(ps.last())
    }
}

/// The file name under which the entry `name` is extracted when paths are
/// not kept. A name without one is refused.
pub fn flat_name(name: &str) -> (r: Result<String, CliError>)
    ensures
        match spec_flat_name(name@) {
            Some(n) => r matches Ok(s) && s@ == n,
            None => r matches Err(CliError::Fatal(R7zError::UnsafePath(s))) && s@ == name@,
        },
{
    let mut ps = parts_of(name);
    match ps.pop() {
        None => Err(CliError::Fatal(R7zError::UnsafePath(name.to_owned()))),
        Some(last) => {
            proof {
                assert(views(ps@.push(last)).last() == last@);
            }
            let p = chars_of(last.as_str());
            if p.len() == 2 && p[0] == '.' && p[1] == '.' {
                proof {
                    assert(p@ =~= seq!['.', '.']);
                }
                Err(CliError::Fatal(R7zError::UnsafePath(name.to_owned())))
            } else {
                proof {
                    if p@ == seq!['.', '.'] {
                        assert(p@[0] == '.' && p@[1] == '.');
                    }
                }
                Ok(last)
            }
        },
    }
}


// ---------------------------------------------------------------------------
// Entries kept from an existing archive.
// ---------------------------------------------------------------------------

/// A FILETIME kept when an entry is rewritten: times before 1970 are
/// dropped.
pub open spec fn kept_time(t: Option<nat>) -> Option<u64> {
    match t {
        Some(x) => if 116444736000000000 <= x <= u64::MAX {
            Some(x as u64)
        } else {
            None
        },
        None => None,
    }
}

/// The metadata that entry `i` of the listing `f` keeps when rewritten.
pub open spec fn spec_meta_from_archive(f: FilesInfoView, i: nat) -> EntryMeta {
    EntryMeta {
        ctime: kept_time(entry_value(f.ctimes, i)),
        atime: kept_time(entry_value(f.atimes, i)),
        mtime: kept_time(entry_value(f.mtimes, i)),
        attributes: match entry_value(f.attributes, i) {
            Some(a) => Some(a as u32),
            None => None,
        },
        start_pos: match entry_value(f.start_positions, i) {
            Some(p) => Some(p as u64),
            None => None,
        },
    }
}

fn kept_filetime(t: Option<u64>) -> (r: Option<u64>)
    ensures
        r == kept_time(match t {
            Some(x) => Some(x as nat),
            None => None,
        }),
{
    match t {
        Some(x) => if x >= 116444736000000000 {
            Some(x)
        } else {
            None
        },
        None => None,
    }
}

/// The metadata that entry `index` of `files` keeps when it is written to a
/// new archive.
pub fn entry_meta_from_archive(files: &FilesInfo, index: usize) -> (r: EntryMeta)
    ensures
        r == spec_meta_from_archive(files@, index as nat),
{
    let c = if index < files.ctimes.len() { files.ctimes[index] } else { None };
    let a = if index < files.atimes.len() { files.atimes[index] } else { None };
    let m = if index < files.mtimes.len() { files.mtimes[index] } else { None };
    let attributes = if index < files.attributes.len() { files.attributes[index] } else { None };
    let start_pos = if index < files.start_positions.len() { files.start_positions[index] } else { None };
    EntryMeta {
        ctime: kept_filetime(c),
        atime: kept_filetime(a),
        mtime: kept_filetime(m),
        attributes,
        start_pos,
    }
}

/// The kind entry `i` of the listing `f` keeps when rewritten.
pub open spec fn spec_preserved_kind(f: FilesInfoView, i: nat) -> EntryKind {
    if spec_is_anti(f, i) {
        EntryKind::Anti
    } else if spec_is_directory(f, i) {
        EntryKind::Directory
    } else {
        EntryKind::File
    }
}

/// The kind that entry `index` of `files` keeps when rewritten.
pub fn preserved_entry_kind(files: &FilesInfo, index: usize) -> (r: EntryKind)
    ensures
        r == spec_preserved_kind(files@, index as nat),
{
    if files.is_anti(index) {
        EntryKind::Anti
    } else if files.is_directory(index) {
        EntryKind::Directory
    } else {
        EntryKind::File
    }
}

/// Entry `i` is kept: `drop` does not mark it.
pub open spec fn kept(drop: Seq<bool>, i: int) -> bool {
    !(0 <= i < drop.len() && drop[i])
}

/// Some listed entry has its data in folder `b`.
pub open spec fn block_used(l: Seq<ArchiveListingEntry>, b: usize) -> bool {
    exists|j: int| 0 <= j < l.len() && #[trigger] l[j].block == Some(b)
}

/// Every listed entry with its data in folder `b` is kept.
pub open spec fn block_whole(l: Seq<ArchiveListingEntry>, drop: Seq<bool>, b: usize) -> bool {
    forall|j: int| 0 <= j < l.len() && #[trigger] l[j].block == Some(b) ==> kept(drop, j)
}

/// The folders below `k` that are kept whole, in increasing order.
pub open spec fn raw_ids(l: Seq<ArchiveListingEntry>, drop: Seq<bool>, k: nat) -> Seq<usize>
    decreases k,
{
    if k == 0 {
        Seq::empty()
    } else {
        let prev = raw_ids(l, drop, (k - 1) as nat);
        if block_used(l, (k - 1) as usize) && block_whole(l, drop, (k - 1) as usize) {
            prev.push((k - 1) as usize)
        } else {
            prev
        }
    }
}

/// The kept entries below `n`, in order.
pub open spec fn kept_indices(drop: Seq<bool>, n: nat) -> Seq<nat>
    decreases n,
{
    if n == 0 {
        Seq::empty()
    } else {
        let prev = kept_indices(drop, (n - 1) as nat);
        if kept(drop, n - 1) {
            prev.push((n - 1) as nat)
        } else {
            prev
        }
    }
}

/// `listing` lists the entries of `archive` in order, with their folders
/// below its number of folders.
pub open spec fn listing_fits(archive: &Archive, listing: &ArchiveListing) -> bool {
    &&& listing.entries@.len() == archive.file_count()
    &&& forall|j: int| 0 <= j < listing.entries@.len() ==> (#[trigger] listing.entries@[j]).index == j
    &&& forall|j: int|
        0 <= j < listing.entries@.len() ==> ((#[trigger] listing.entries@[j]).block matches Some(b) ==> b
            < listing.blocks)
}

/// The text of a decoding failure that stops a rewrite: the decoders that
/// are missing or fail on the entry's data.
pub open spec fn refusal_message(ext: DecodeResult) -> Option<Seq<char>> {
    match ext {
        DecodeResult::Unsupported(id) => Some("unsupported codec: "@ + debug_bytes(id)),
        DecodeResult::Failure(e) => match e {
            R7zError::UnsupportedCodec(_) | R7zError::PasswordRequired | R7zError::Decompression | R7zError::Crc => Some(
                e.spec_message(),
            ),
            _ => None,
        },
        DecodeResult::Data(_) => None,
    }
}

/// The message that stops a rewrite that would have to decode the kept
/// entry `name`.
pub open spec fn refusal_text(name: Seq<char>, why: Seq<char>) -> Seq<char> {
    "operation would require decoding retained entry '"@ + name + "' in a partially changed archive folder: "@ + why
}

/// Decoding entry `i` of `archive` fails in a way that stops a rewrite,
/// with the message `m`.
pub open spec fn refused_with(archive: &Archive, password: Option<Seq<char>>, i: nat, m: Seq<char>) -> bool {
    match refusal_message(spec_extract(archive.bytes(), archive.base(), archive.header_model(), i, password)) {
        Some(why) => m == refusal_text(spec_entry_path(spec_header_files(archive.header_model()), i), why),
        None => false,
    }
}

/// `e` is entry `i` of `f`, kept: its data stays in its folder when the
/// folder is kept whole (`whole`), else it is the entry's decoded bytes
/// `ext`.
pub open spec fn rewritten_entry(
    e: PreservedArchiveEntry,
    f: FilesInfoView,
    le: ArchiveListingEntry,
    whole: bool,
    ext: DecodeResult,
    i: nat,
) -> bool {
    &&& e.name@ == spec_entry_path(Some(f), i)
    &&& e.kind == spec_preserved_kind(f, i)
    &&& e.meta == spec_meta_from_archive(f, i)
    &&& match le.block {
        None => e.stream is Empty,
        Some(b) => if whole {
            le.size matches Some(z) && e.stream == (PreservedEntryStream::Raw { folder_id: b, size: z, crc: le.crc })
        } else {
            ext matches DecodeResult::Data(d) && e.stream matches PreservedEntryStream::Data(v) && v@ == d
        },
    }
}

/// `es` and `raws` are what a rewrite of `archive` keeps, given its
/// listing `l`: the entries not marked in `drop` in order, then `append`;
/// and the folders that keep all their entries, in increasing order.
pub open spec fn rewritten(
    archive: &Archive,
    f: FilesInfoView,
    listing: &ArchiveListing,
    password: Option<Seq<char>>,
    drop: Seq<bool>,
    append: Seq<PreservedArchiveEntry>,
    es: Seq<PreservedArchiveEntry>,
    raws: Seq<RawFolderBlock>,
) -> bool {
    let l = listing.entries@;
    let ids = raw_ids(l, drop, listing.blocks as nat);
    let ks = kept_indices(drop, l.len());
    let st = spec_header_streams(archive.header_model())->Some_0;
    &&& raws.len() == ids.len()
    &&& (ids.len() > 0 ==> spec_header_streams(archive.header_model()) is Some && st.pack_info is Some
        && st.unpack_info is Some)
    &&& forall|q: int|
        0 <= q < ids.len() ==> raw_block_is(
            #[trigger] raws[q],
            archive.bytes(),
            archive.base(),
            st.pack_info->Some_0,
            st.unpack_info->Some_0,
            ids[q] as nat,
        )
    &&& es.len() == ks.len() + append.len()
    &&& forall|p: int|
        0 <= p < ks.len() ==> rewritten_entry(
            #[trigger] es[p],
            f,
            l[ks[p] as int],
            block_whole(l, drop, l[ks[p] as int].block->Some_0),
            spec_extract(archive.bytes(), archive.base(), archive.header_model(), ks[p], password),
            ks[p],
        )
    &&& es.subrange(ks.len() as int, es.len() as int) == append
}

proof fn lemma_kept_indices_bound(drop: Seq<bool>, n: nat)
    ensures
        kept_indices(drop, n).len() <= n,
        forall|p: int| 0 <= p < kept_indices(drop, n).len() ==> #[trigger] kept_indices(drop, n)[p] < n,
    decreases n,
{
    if n > 0 {
        lemma_kept_indices_bound(drop, (n - 1) as nat);
    }
}

/// A rewrite of `archive` with its listing `l` (of `nb` folders) can be
/// made: every folder kept whole is stored readably, every kept entry of a
/// folder kept whole has a size, and every kept entry of a folder that loses
/// entries decodes.
pub open spec fn rewrite_ready(
    archive: &Archive,
    l: Seq<ArchiveListingEntry>,
    nb: usize,
    password: Option<Seq<char>>,
    drop: Seq<bool>,
) -> bool {
    &&& forall|b: int|
        0 <= b < nb && block_used(l, b as usize) && block_whole(l, drop, b as usize) ==> #[trigger] raw_block_readable(
            archive.bytes(),
            archive.base(),
            archive.header_model(),
            b as nat,
        )
    &&& forall|i: int|
        0 <= i < l.len() && #[trigger] kept(drop, i) && l[i].block is Some ==> (if block_whole(
            l,
            drop,
            l[i].block->Some_0,
        ) {
            l[i].size is Some
        } else {
            spec_extract(archive.bytes(), archive.base(), archive.header_model(), i as nat, password) is Data
        })
}

/// Entry `i` of `archive`, kept: its name, kind and metadata from `files`,
/// and its data as `rewritten_entry` says.
fn kept_entry(
    archive: &Archive,
    files: &FilesInfo,
    le: &ArchiveListingEntry,
    whole: bool,
    i: usize,
    password: Option<&str>,
) -> (r: Result<PreservedArchiveEntry, CliError>)
    requires
        spec_header_files(archive.header_model()) == Some(files@),
    ensures
        r matches Ok(e) ==> rewritten_entry(
            e,
            files@,
            *le,
            whole,
            spec_extract(archive.bytes(), archive.base(), archive.header_model(), i as nat, opt_password(password)),
            i as nat,
        ),
        r matches Err(CliError::FatalMessage(m)) ==> le.block is Some && refused_with(
            archive,
            opt_password(password),
            i as nat,
            m@,
        ),
        !(r matches Err(CliError::Usage(_))),
        le.block is None ==> r is Ok,
        le.block is Some && whole ==> (r is Ok <==> le.size is Some),
        le.block is Some && !whole && spec_extract(
            archive.bytes(),
            archive.base(),
            archive.header_model(),
            i as nat,
            opt_password(password),
        ) is Data ==> r is Ok,
{
    let name = entry_path(Some(files), i);
    let meta = entry_meta_from_archive(files, i);
    let kind = preserved_entry_kind(files, i);
    let stream = match le.block {
        None => PreservedEntryStream::Empty,
        Some(bi) => {
            if whole {
                match le.size {
                    Some(z) => PreservedEntryStream::Raw { folder_id: bi, size: z, crc: le.crc },
                    None => {
                        return Err(CliError::Fatal(R7zError::Parse));
                    },
                }
            } else {
                match archive.extract_to_memory_with_password(i, password) {
                    Ok(d) => PreservedEntryStream::Data(d),
                    Err(e) => {
                        let refused = match &e {
                            R7zError::UnsupportedCodec(_) => true,
                            R7zError::PasswordRequired => true,
                            R7zError::Decompression => true,
                            R7zError::Crc => true,
                            _ => false,
                        };
                        if refused {
                            let why = e.message();
                            let mut t: Vec<char> = Vec::new();
                            push_str(&mut t, "operation would require decoding retained entry '");
                            push_str(&mut t, name.as_str());
                            push_str(&mut t, "' in a partially changed archive folder: ");
                            push_str(&mut t, why.as_str());
                            let m = string_from_chars(&t);
                            proof {
                                let ext = spec_extract(
                                    archive.bytes(),
                                    archive.base(),
                                    archive.header_model(),
                                    i as nat,
                                    opt_password(password),
                                );
                                assert(refusal_message(ext) == Some(why@));
                                assert(m@ =~= refusal_text(name@, why@));
                            }
                            return Err(CliError::FatalMessage(m));
                        }
                        return Err(CliError::Fatal(e));
                    },
                }
            }
        },
    };
    Ok(PreservedArchiveEntry { name, kind, meta, stream })
}

/// The entries and whole folders that a rewrite of `archive` keeps, given
/// its `listing`: the entries not marked in `drop` (by index), then
/// `append`. A folder all of whose entries are kept is carried over as it
/// is; a kept entry of a folder that loses some entries is decoded, and
/// the rewrite stops with a message when that needs a decoder that is
/// missing or fails.
#[verifier::rlimit(60)]
pub fn rewrite_with_listing(
    archive: &Archive,
    listing: &ArchiveListing,
    password: Option<&str>,
    drop: &Vec<bool>,
    append: Vec<PreservedArchiveEntry>,
) -> (r: Result<(Vec<PreservedArchiveEntry>, Vec<RawFolderBlock>), CliError>)
    requires
        listing_fits(archive, listing),
    ensures
        spec_header_files(archive.header_model()) is None ==> (r matches Ok((es, raws)) && es@ == append@
            && raws@.len() == 0),
        spec_header_files(archive.header_model()) matches Some(f) ==> (r matches Ok((es, raws)) ==> rewritten(
            archive,
            f,
            listing,
            opt_password(password),
            drop@,
            append@,
            es@,
            raws@,
        )),
        r matches Err(CliError::FatalMessage(m)) ==> exists|i: int|
            0 <= i < listing.entries@.len() && kept(drop@, i) && (#[trigger] listing.entries@[i]).block is Some
                && refused_with(archive, opt_password(password), i as nat, m@),
        !(r matches Err(CliError::Usage(_))),
        rewrite_ready(archive, listing.entries@, listing.blocks, opt_password(password), drop@) ==> r is Ok,
{
    let files = match archive.files_info() {
        None => {
            return Ok((append, Vec::new()));
        },
        Some(f) => f,
    };
    let ghost fv = files@;
    let n = archive.num_files();
    let nb = listing.blocks;
    let ghost lv = listing.entries@;
    let ghost dv = drop@;
    // Which folders hold listed data, and which keep all their entries.
    let mut used: Vec<bool> = Vec::new();
    let mut whole: Vec<bool> = Vec::new();
    let mut b: usize = 0;
    while b < nb
        invariant
            b <= nb,
            used@.len() == b,
            whole@.len() == b,
            forall|c: int| 0 <= c < b ==> !(#[trigger] used@[c]),
            forall|c: int| 0 <= c < b ==> #[trigger] whole@[c],
        decreases nb - b,
    {
        used.push(false);
        whole.push(true);
        b = b + 1;
    }
    let mut j: usize = 0;
    while j < n
        invariant
            j <= n,
            n == lv.len(),
            lv == listing.entries@,
            dv == drop@,
            listing_fits(archive, listing),
            nb == listing.blocks,
            used@.len() == nb,
            whole@.len() == nb,
            forall|c: int|
                0 <= c < nb ==> (#[trigger] used@[c] <==> exists|k: int| 0 <= k < j && #[trigger] lv[k].block == Some(
                    c as usize,
                )),
            forall|c: int|
                0 <= c < nb ==> (#[trigger] whole@[c] <==> forall|k: int|
                    0 <= k < j && #[trigger] lv[k].block == Some(c as usize) ==> kept(dv, k)),
        decreases n - j,
    {
        match listing.entries[j].block {
            Some(bj) => {
                proof {
                    assert(listing.entries@[j as int].block == Some(bj));
                }
                used.set(bj, true);
                let k = !(j < drop.len() && drop[j]);
                if !k {
                    whole.set(bj, false);
                }
                proof {
                    assert forall|c: int| 0 <= c < nb implies (#[trigger] used@[c] <==> exists|k2: int|
                        0 <= k2 < j + 1 && #[trigger] lv[k2].block == Some(c as usize)) by {
                        if c == bj {
                            assert(lv[j as int].block == Some(c as usize));
                        } else {
                            if exists|k2: int| 0 <= k2 < j + 1 && #[trigger] lv[k2].block == Some(c as usize) {
                                let k2 = choose|k2: int| 0 <= k2 < j + 1 && #[trigger] lv[k2].block == Some(c as usize);
                                assert(k2 != j);
                            }
                        }
                    }
                    assert forall|c: int| 0 <= c < nb implies (#[trigger] whole@[c] <==> forall|k2: int|
                        0 <= k2 < j + 1 && #[trigger] lv[k2].block == Some(c as usize) ==> kept(dv, k2)) by {
                        if c == bj {
                            if !kept(dv, j as int) {
                                assert(lv[j as int].block == Some(c as usize));
                            }
                        }
                    }
                }
            },
            None => {
                proof {
                    assert forall|c: int| 0 <= c < nb implies (#[trigger] used@[c] <==> exists|k2: int|
                        0 <= k2 < j + 1 && #[trigger] lv[k2].block == Some(c as usize)) by {
                        if exists|k2: int| 0 <= k2 < j + 1 && #[trigger] lv[k2].block == Some(c as usize) {
                            let k2 = choose|k2: int| 0 <= k2 < j + 1 && #[trigger] lv[k2].block == Some(c as usize);
                            assert(k2 != j);
                        }
                    }
                }
            },
        }
        j = j + 1;
    }
    // The folders kept whole, carried over as they are.
    let mut raws: Vec<RawFolderBlock> = Vec::new();
    let mut b: usize = 0;
    while b < nb
        invariant
            b <= nb,
            n == lv.len(),
            lv == listing.entries@,
            dv == drop@,
            fv == files@,
            spec_header_files(archive.header_model()) == Some(fv),
            nb == listing.blocks,
            used@.len() == nb,
            whole@.len() == nb,
            forall|c: int| 0 <= c < nb ==> (#[trigger] used@[c] <==> block_used(lv, c as usize)),
            forall|c: int| 0 <= c < nb ==> (#[trigger] whole@[c] <==> block_whole(lv, dv, c as usize)),
            raws@.len() == raw_ids(lv, dv, b as nat).len(),
            raw_ids(lv, dv, b as nat).len() > 0 ==> spec_header_streams(archive.header_model()) is Some
                && spec_header_streams(archive.header_model())->Some_0.pack_info is Some && spec_header_streams(
                archive.header_model(),
            )->Some_0.unpack_info is Some,
            forall|q: int|
                0 <= q < raws@.len() ==> raw_block_is(
                    #[trigger] raws@[q],
                    archive.bytes(),
                    archive.base(),
                    spec_header_streams(archive.header_model())->Some_0.pack_info->Some_0,
                    spec_header_streams(archive.header_model())->Some_0.unpack_info->Some_0,
                    raw_ids(lv, dv, b as nat)[q] as nat,
                ),
        decreases nb - b,
    {
        if used[b] && whole[b] {
            let rb = match archive.raw_folder_block(b) {
                Ok(rb) => rb,
                Err(e) => {
                    proof {
                        assert(!raw_block_readable(archive.bytes(), archive.base(), archive.header_model(), b as nat));
                    }
                    return Err(CliError::Fatal(e));
                },
            };
            raws.push(rb);
        }
        b = b + 1;
        proof {
            let prev = raw_ids(lv, dv, (b - 1) as nat);
            assert(raw_ids(lv, dv, b as nat) == (if block_used(lv, (b - 1) as usize) && block_whole(
                lv,
                dv,
                (b - 1) as usize,
            ) {
                prev.push((b - 1) as usize)
            } else {
                prev
            }));
        }
    }
    // The kept entries, in order.
    let mut es: Vec<PreservedArchiveEntry> = Vec::new();
    let mut i: usize = 0;
    while i < n
        invariant
            i <= n,
            n == lv.len(),
            lv == listing.entries@,
            dv == drop@,
            fv == files@,
            spec_header_files(archive.header_model()) == Some(fv),
            listing_fits(archive, listing),
            nb == listing.blocks,
            whole@.len() == nb,
            forall|c: int| 0 <= c < nb ==> (#[trigger] whole@[c] <==> block_whole(lv, dv, c as usize)),
            es@.len() == kept_indices(dv, i as nat).len(),
            forall|p: int|
                0 <= p < es@.len() ==> rewritten_entry(
                    #[trigger] es@[p],
                    fv,
                    lv[kept_indices(dv, i as nat)[p] as int],
                    block_whole(lv, dv, lv[kept_indices(dv, i as nat)[p] as int].block->Some_0),
                    spec_extract(
                        archive.bytes(),
                        archive.base(),
                        archive.header_model(),
                        kept_indices(dv, i as nat)[p],
                        opt_password(password),
                    ),
                    kept_indices(dv, i as nat)[p],
                ),
        decreases n - i,
    {
        proof {
            lemma_kept_indices_bound(dv, i as nat);
        }
        let keep = !(i < drop.len() && drop[i]);
        if keep {
            let w = match listing.entries[i].block {
                Some(bi) => {
                    proof {
                        assert(listing.entries@[i as int].block == Some(bi));
                    }
                    whole[bi]
                },
                None => false,
            };
            let e = kept_entry(archive, &files, &listing.entries[i], w, i, password);
            match e {
                Ok(e) => {
                    es.push(e);
                },
                Err(err) => {
                    proof {
                        if err is FatalMessage {
                            assert(listing.entries@[i as int].block is Some);
                        }
                        assert(kept(dv, i as int));
                    }
                    return Err(err);
                },
            }
        }
        i = i + 1;
        proof {
            let ks = kept_indices(dv, i as nat);
            let prev = kept_indices(dv, (i - 1) as nat);
            assert(ks == (if kept(dv, i - 1) { prev.push((i - 1) as nat) } else { prev }));
            assert forall|p: int| 0 <= p < es@.len() implies rewritten_entry(
                #[trigger] es@[p],
                fv,
                lv[ks[p] as int],
                block_whole(lv, dv, lv[ks[p] as int].block->Some_0),
                spec_extract(archive.bytes(), archive.base(), archive.header_model(), ks[p], opt_password(password)),
                ks[p],
            ) by {
                if p < prev.len() {
                    assert(ks[p] == prev[p]);
                }
            }
        }
    }
    let ghost kept_part = es@;
    let ghost added = append@;
    let mut append = append;
    es.append(&mut append);
    proof {
        assert(es@.subrange(kept_part.len() as int, es@.len() as int) =~= added);
        assert(forall|p: int| 0 <= p < kept_part.len() ==> es@[p] == kept_part[p]);
    }
    Ok((es, raws))
}


/// Whether `listing` lists the entries of `archive` in order, with their
/// folders below its number of folders.
pub fn check_listing(archive: &Archive, listing: &ArchiveListing) -> (r: bool)
    ensures
        r == listing_fits(archive, listing),
{
    if listing.entries.len() != archive.num_files() {
        return false;
    }
    let mut j: usize = 0;
    while j < listing.entries.len()
        invariant
            j <= listing.entries@.len(),
            forall|k: int| 0 <= k < j ==> (#[trigger] listing.entries@[k]).index == k,
            forall|k: int|
                0 <= k < j ==> ((#[trigger] listing.entries@[k]).block matches Some(b) ==> b < listing.blocks),
        decreases listing.entries.len() - j,
    {
        if listing.entries[j].index != j {
            return false;
        }
        match listing.entries[j].block {
            Some(b) => {
                if b >= listing.blocks {
                    return false;
                }
            },
            None => {},
        }
        j = j + 1;
    }
    true
}

/// The entries and whole folders that a rewrite of `archive` keeps: as
/// `rewrite_with_listing` says, over the archive's own listing. Without a
/// file listing only `append` is kept; a listing that does not list the
/// entries in order is refused as malformed.
pub fn rewrite_entries(
    archive: &Archive,
    password: Option<&str>,
    drop: &Vec<bool>,
    append: Vec<PreservedArchiveEntry>,
) -> (r: Result<(Vec<PreservedArchiveEntry>, Vec<RawFolderBlock>), CliError>)
    ensures
        spec_header_files(archive.header_model()) is None ==> (r matches Ok((es, raws)) && es@ == append@
            && raws@.len() == 0),
        spec_header_files(archive.header_model()) matches Some(f) ==> (r matches Ok((es, raws)) ==> exists|
            l: ArchiveListing,
        |
            listing_fits(archive, &l) && #[trigger] rewritten(
                archive,
                f,
                &l,
                opt_password(password),
                drop@,
                append@,
                es@,
                raws@,
            )),
        r matches Err(CliError::FatalMessage(m)) ==> exists|i: int|
            0 <= i < archive.file_count() && kept(drop@, i) && #[trigger] refused_with(
                archive,
                opt_password(password),
                i as nat,
                m@,
            ),
        !(r matches Err(CliError::Usage(_))),
        listing_ready(archive) && (forall|l: ArchiveListing|
            #[trigger] listing_matches(archive, &l) ==> rewrite_ready(
                archive,
                l.entries@,
                l.blocks,
                opt_password(password),
                drop@,
            )) ==> r is Ok,
{
    match archive.files_info() {
        None => {
            return Ok((append, Vec::new()));
        },
        Some(_) => {},
    }
    let listing = match archive.listing(None) {
        Ok(l) => l,
        Err(e) => {
            return Err(CliError::Fatal(e));
        },
    };
    proof {
        if listing_matches(archive, &listing) {
            assert(listing_fits(archive, &listing));
        }
    }
    if !check_listing(archive, &listing) {
        return Err(CliError::Fatal(R7zError::Parse));
    }
    let r = rewrite_with_listing(archive, &listing, password, drop, append);
    proof {
        match &r {
            Ok((es, raws)) => {
                match spec_header_files(archive.header_model()) {
                    Some(f) => {
                        assert(rewritten(archive, f, &listing, opt_password(password), drop@, append@, es@, raws@));
                    },
                    None => {},
                }
            },
            Err(CliError::FatalMessage(m)) => {
                let i = choose|i: int|
                    0 <= i < listing.entries@.len() && kept(drop@, i) && (#[trigger] listing.entries@[i]).block is Some
                        && refused_with(archive, opt_password(password), i as nat, m@);
                assert(refused_with(archive, opt_password(password), i as nat, m@));
            },
            _ => {},
        }
    }
    r
}

/// Which entries of `archive` are dropped because a wildcard of `patterns`
/// selects their names (all of them when there are no patterns).
pub fn drop_selected(archive: &Archive, patterns: &Vec<String>) -> (r: Vec<bool>)
    ensures
        r@.len() == archive.file_count(),
        forall|i: int|
            0 <= i < r@.len() ==> #[trigger] r@[i] == spec_selected(
                spec_entry_path(spec_header_files(archive.header_model()), i as nat),
                patterns@,
            ),
{
    let files = archive.files_info();
    let fi = files.as_ref();
    let n = archive.num_files();
    let mut r: Vec<bool> = Vec::new();
    let mut i: usize = 0;
    while i < n
        invariant
            i <= n,
            n == archive.file_count(),
            crate::archive::fi_view(fi) == spec_header_files(archive.header_model()),
            r@.len() == i,
            forall|k: int|
                0 <= k < i ==> #[trigger] r@[k] == spec_selected(
                    spec_entry_path(spec_header_files(archive.header_model()), k as nat),
                    patterns@,
                ),
        decreases n - i,
    {
        let name = entry_path(fi, i);
        r.push(entry_is_selected(name.as_str(), patterns));
        i = i + 1;
    }
    r
}

/// `name` is one of `names`.
pub open spec fn named_in(name: Seq<char>, names: Seq<String>) -> bool {
    exists|k: int| 0 <= k < names.len() && (#[trigger] names[k])@ == name
}

/// Which entries of `archive` are dropped because their names are among
/// `names`: the entries that new ones replace.
pub fn drop_named(archive: &Archive, names: &Vec<String>) -> (r: Vec<bool>)
    ensures
        r@.len() == archive.file_count(),
        forall|i: int|
            0 <= i < r@.len() ==> #[trigger] r@[i] == named_in(
                spec_entry_path(spec_header_files(archive.header_model()), i as nat),
                names@,
            ),
{
    let files = archive.files_info();
    let fi = files.as_ref();
    let n = archive.num_files();
    let mut r: Vec<bool> = Vec::new();
    let mut i: usize = 0;
    while i < n
        invariant
            i <= n,
            n == archive.file_count(),
            crate::archive::fi_view(fi) == spec_header_files(archive.header_model()),
            r@.len() == i,
            forall|k: int|
                0 <= k < i ==> #[trigger] r@[k] == named_in(
                    spec_entry_path(spec_header_files(archive.header_model()), k as nat),
                    names@,
                ),
        decreases n - i,
    {
        let name = entry_path(fi, i);
        let mut found = false;
        let mut k: usize = 0;
        while k < names.len()
            invariant
                k <= names@.len(),
                found == exists|q: int| 0 <= q < k && (#[trigger] names@[q])@ == name@,
            decreases names.len() - k,
        {
            if names[k] == name {
                found = true;
            }
            k = k + 1;
        }
        r.push(found);
        i = i + 1;
    }
    r
}


// ---------------------------------------------------------------------------
// New entries read from disk.
// ---------------------------------------------------------------------------

/// What a path read from disk holds.
#[derive(Clone, Debug)]
pub enum PendingKind {
    /// A file with at least one byte.
    File(Vec<u8>),
    /// A file without bytes.
    EmptyFile,
    /// A directory.
    Directory,
    /// A symbolic link to the target.
    Symlink(String),
}

/// A path read from disk, under the name it gets in the archive.
#[derive(Clone, Debug)]
pub struct PendingEntry {
    pub name: String,
    pub kind: PendingKind,
    pub meta: EntryMeta,
}

/// A file read from disk: an empty one when it has no bytes.
pub fn pending_file(name: String, data: Vec<u8>, meta: EntryMeta) -> (r: PendingEntry)
    ensures
        r.name == name,
        r.meta == meta,
        data@.len() == 0 ==> r.kind is EmptyFile,
        data@.len() > 0 ==> (r.kind matches PendingKind::File(d) && d@ == data@),
{
    let kind = if data.len() == 0 { PendingKind::EmptyFile } else { PendingKind::File(data) };
    PendingEntry { name, kind, meta }
}

/// The entry of a rewritten archive that a path read from disk becomes: a
/// symbolic link is stored as a file holding its target.
pub fn pending_to_preserved_entry(entry: PendingEntry) -> (r: PreservedArchiveEntry)
    ensures
        r.name == entry.name,
        r.meta == entry.meta,
        match entry.kind {
            PendingKind::File(d) => r.kind == EntryKind::File && (r.stream matches PreservedEntryStream::Data(v)
                && v@ == d@),
            PendingKind::EmptyFile => r.kind == EntryKind::File && r.stream is Empty,
            PendingKind::Directory => r.kind == EntryKind::Directory && r.stream is Empty,
            PendingKind::Symlink(t) => r.kind == EntryKind::File && (r.stream matches PreservedEntryStream::Data(v)
                && v@ == vstd::utf8::encode_utf8(t@)),
        },
{
    let PendingEntry { name, kind, meta } = entry;
    let (kind, stream) = match kind {
        PendingKind::File(data) => (EntryKind::File, PreservedEntryStream::Data(data)),
        PendingKind::EmptyFile => (EntryKind::File, PreservedEntryStream::Empty),
        PendingKind::Directory => (EntryKind::Directory, PreservedEntryStream::Empty),
        PendingKind::Symlink(target) => {
            let b = target.as_str().as_bytes();
            let v = vstd::slice::slice_to_vec(b);
            (EntryKind::File, PreservedEntryStream::Data(v))
        },
    };
    PreservedArchiveEntry { name, kind, meta, stream }
}

/// The entries of a rewritten archive that paths read from disk become, in
/// order.
pub fn pending_to_preserved_entries(entries: Vec<PendingEntry>) -> (r: Vec<PreservedArchiveEntry>)
    ensures
        r@.len() == entries@.len(),
        forall|p: int| 0 <= p < r@.len() ==> (#[trigger] r@[p]).name == entries@[p].name && r@[p].meta == entries@[p].meta,
{
    let ghost all = entries@;
    let mut r: Vec<PreservedArchiveEntry> = Vec::new();
    for e in it: entries.into_iter()
        invariant
            it.seq() == all,
            r@.len() == it.index(),
            forall|p: int| 0 <= p < r@.len() ==> (#[trigger] r@[p]).name == all[p].name && r@[p].meta == all[p].meta,
    {
        let x = pending_to_preserved_entry(e);
        r.push(x);
    }
    r
}

/// `w` is the entry the builder records for the path `e` read from disk.
pub open spec fn pending_recorded(w: WriteEntry, e: PendingEntry) -> bool {
    match e.kind {
        PendingKind::File(d) => entry_is(w, e.name@, EntryKind::File, e.meta, non_empty(d@)),
        PendingKind::EmptyFile => entry_is(w, e.name@, EntryKind::File, e.meta, None),
        PendingKind::Directory => entry_is(w, e.name@, EntryKind::Directory, e.meta, None),
        PendingKind::Symlink(t) => {
            &&& w.name@ == e.name@
            &&& w.kind == EntryKind::File
            &&& w.meta == (if e.meta.attributes is None {
                EntryMeta { attributes: Some((SYMLINK_UNIX_MODE << 16u32) | FILE_ATTRIBUTE_ARCHIVE), ..e.meta }
            } else {
                e.meta
            })
            &&& w.has_stream
            &&& w.data matches Some(v) && v@ == vstd::utf8::encode_utf8(t@)
            &&& w.folder_id == 0
        },
    }
}

/// An archive of the paths `entries` read from disk, written with
/// `options`. It fails as `ArchiveBuilder::build` fails on the entries the
/// builder records for them.
pub fn build_archive_bytes(entries: Vec<PendingEntry>, options: ArchiveOptions) -> (r: Result<Vec<u8>, R7zError>)
    requires
        crate::write::encode::encoder_dict_fits(options),
    ensures
        exists|ws: Seq<WriteEntry>|
            {
                &&& ws.len() == entries@.len()
                &&& forall|p: int| 0 <= p < ws.len() ==> pending_recorded(#[trigger] ws[p], entries@[p])
                &&& (spec_solid_plan(ws, options.compression.solid) matches Err(e) ==> r == Err::<Vec<u8>, R7zError>(e))
                &&& (spec_solid_plan(ws, options.compression.solid) is Ok && ws.len() < (usize::MAX - 64) / 16 ==> (
                crate::write::encode::spec_validate_archive(options) matches Err(e) ==> r == Err::<Vec<u8>, R7zError>(
                    e,
                )))
            },
        r matches Ok(a) ==> a@.len() >= 32 && a@.subrange(0, 6) == seq![0x37u8, 0x7au8, 0xbcu8, 0xafu8, 0x27u8, 0x1cu8],
{
    let ghost opts = options;
    let mut builder = ArchiveBuilder::new().options(options);
    let ghost all = entries@;
    let mut i: usize = 0;
    let n = entries.len();
    while i < n
        invariant
            i <= n == all.len(),
            all == entries@,
            builder.opts() == opts,
            builder.pending().len() == i,
            forall|p: int| 0 <= p < i ==> pending_recorded(#[trigger] builder.pending()[p], all[p]),
        decreases n - i,
    {
        let e = &entries[i];
        let ghost before = builder.pending();
        builder = match &e.kind {
            PendingKind::File(data) => builder.add_file_entry(e.name.as_str(), data.as_slice(), e.meta),
            PendingKind::EmptyFile => builder.add_empty_file(e.name.as_str(), e.meta),
            PendingKind::Directory => builder.add_directory(e.name.as_str(), e.meta),
            PendingKind::Symlink(target) => builder.add_symlink(e.name.as_str(), target.as_str(), e.meta),
        };
        proof {
            assert forall|p: int| 0 <= p < i + 1 implies pending_recorded(#[trigger] builder.pending()[p], all[p]) by {
                if p < i {
                    assert(builder.pending()[p] == builder.pending().drop_last()[p]);
                }
            }
        }
        i = i + 1;
    }
    builder.build()
}

// ---------------------------------------------------------------------------
// Testing and extracting.
// ---------------------------------------------------------------------------

/// Entry `i` of a listing `fi` has data to test or extract: it is not a
/// directory, an anti-item or an empty file.
pub open spec fn has_data(fi: Option<FilesInfoView>, i: nat) -> bool {
    !(fi matches Some(f) && (spec_is_directory(f, i) || spec_is_anti(f, i) || crate::files_info::spec_is_empty_file(
        f,
        i,
    )))
}

/// The number of entries below `n` whose paths `patterns` select.
pub open spec fn selected_count(fi: Option<FilesInfoView>, patterns: Seq<String>, n: nat) -> nat
    decreases n,
{
    if n == 0 {
        0
    } else {
        selected_count(fi, patterns, (n - 1) as nat) + if spec_selected(
            spec_entry_path(fi, (n - 1) as nat),
            patterns,
        ) {
            1nat
        } else {
            0nat
        }
    }
}

/// The selected entries below `n` with data whose extraction fails, in
/// order.
pub open spec fn failed_entries(archive: &Archive, patterns: Seq<String>, password: Option<Seq<char>>, n: nat) -> Seq<
    nat,
>
    decreases n,
{
    if n == 0 {
        Seq::empty()
    } else {
        let prev = failed_entries(archive, patterns, password, (n - 1) as nat);
        let i = (n - 1) as nat;
        let fi = spec_header_files(archive.header_model());
        if spec_selected(spec_entry_path(fi, i), patterns) && has_data(fi, i) && !(spec_extract(
            archive.bytes(),
            archive.base(),
            archive.header_model(),
            i,
            password,
        ) is Data) {
            prev.push(i)
        } else {
            prev
        }
    }
}

/// What testing an archive found: how many entries the patterns selected,
/// and the entries whose data failed to decode, with the failure.
pub struct TestReport {
    pub matched: usize,
    pub failures: Vec<(usize, R7zError)>,
}

/// Tests the entries of `archive` that `patterns` select (all of them when
/// there are none) by decoding their data with `password`.
pub fn test_entries(archive: &Archive, patterns: &Vec<String>, password: Option<&str>) -> (r: TestReport)
    ensures
        r.matched == selected_count(spec_header_files(archive.header_model()), patterns@, archive.file_count()),
        r.failures@.len() == failed_entries(archive, patterns@, opt_password(password), archive.file_count()).len(),
        forall|p: int|
            0 <= p < r.failures@.len() ==> {
                let i = failed_entries(archive, patterns@, opt_password(password), archive.file_count())[p];
                &&& (#[trigger] r.failures@[p]).0 == i
                &&& crate::codec::result_is(
                    Err(r.failures@[p].1),
                    spec_extract(archive.bytes(), archive.base(), archive.header_model(), i, opt_password(password)),
                )
            },
{
    let files = archive.files_info();
    let fi = files.as_ref();
    let n = archive.num_files();
    let mut matched: usize = 0;
    let mut failures: Vec<(usize, R7zError)> = Vec::new();
    let mut i: usize = 0;
    while i < n
        invariant
            i <= n,
            n == archive.file_count(),
            crate::archive::fi_view(fi) == spec_header_files(archive.header_model()),
            matched == selected_count(spec_header_files(archive.header_model()), patterns@, i as nat),
            matched <= i,
            failures@.len() == failed_entries(archive, patterns@, opt_password(password), i as nat).len(),
            forall|p: int|
                0 <= p < failures@.len() ==> {
                    let k = failed_entries(archive, patterns@, opt_password(password), i as nat)[p];
                    &&& (#[trigger] failures@[p]).0 == k
                    &&& crate::codec::result_is(
                        Err(failures@[p].1),
                        spec_extract(
                            archive.bytes(),
                            archive.base(),
                            archive.header_model(),
                            k,
                            opt_password(password),
                        ),
                    )
                },
        decreases n - i,
    {
        let name = entry_path(fi, i);
        if entry_is_selected(name.as_str(), patterns) {
            matched = matched + 1;
            let skip = match fi {
                Some(f) => f.is_directory(i) || f.is_anti(i) || f.is_empty_file(i),
                None => false,
            };
            if !skip {
                match archive.extract_to_memory_with_password(i, password) {
                    Ok(_) => {},
                    Err(e) => {
                        failures.push((i, e));
                    },
                }
            }
        }
        i = i + 1;
    }
    TestReport { matched, failures }
}

/// What extracting one entry does.
pub enum ExtractStep {
    /// The patterns do not select the entry.
    Unselected,
    /// The entry is selected but nothing is written for it.
    Skipped,
    /// A directory made at these path components below the output
    /// directory.
    Directory(Vec<String>),
    /// A file written at these path components; `empty` when it has no
    /// bytes.
    File { parts: Vec<String>, empty: bool },
}

/// The path components an entry called `name` is written at.
pub open spec fn spec_target(name: Seq<char>, flat: bool) -> Option<Seq<Seq<char>>> {
    if flat {
        match spec_flat_name(name) {
            Some(n) => Some(seq![n]),
            None => None,
        }
    } else {
        spec_safe_parts(name)
    }
}

/// What extracting entry `i` of `archive` does, when the wildcard
/// `patterns` pick the entries (all of them when there are none) and
/// `flat` drops the directories of the names. An entry whose name cannot
/// be written below the output directory stops the extraction.
pub fn extract_step(archive: &Archive, i: usize, patterns: &Vec<String>, flat: bool) -> (r: Result<ExtractStep, CliError>)
    ensures
        ({
            let fi = spec_header_files(archive.header_model());
            let name = spec_entry_path(fi, i as nat);
            if !spec_selected(name, patterns@) {
                r matches Ok(ExtractStep::Unselected)
            } else if fi is None || spec_is_anti(fi->Some_0, i as nat) {
                r matches Ok(ExtractStep::Skipped)
            } else {
                match spec_target(name, flat) {
                    None => r matches Err(CliError::Fatal(R7zError::UnsafePath(s))) && s@ == name,
                    Some(ps) => if spec_is_directory(fi->Some_0, i as nat) {
                        if flat {
                            r matches Ok(ExtractStep::Skipped)
                        } else {
                            r matches Ok(ExtractStep::Directory(v)) && views(v@) == ps
                        }
                    } else {
                        r matches Ok(ExtractStep::File { parts, empty }) && views(parts@) == ps && empty
                            == crate::files_info::spec_is_empty_file(fi->Some_0, i as nat)
                    },
                }
            }
        }),
{
    let files = archive.files_info();
    let fi = files.as_ref();
    let name = entry_path(fi, i);
    if !entry_is_selected(name.as_str(), patterns) {
        return Ok(ExtractStep::Unselected);
    }
    let f = match fi {
        None => {
            return Ok(ExtractStep::Skipped);
        },
        Some(f) => f,
    };
    if f.is_anti(i) {
        return Ok(ExtractStep::Skipped);
    }
    let parts = if flat {
        let n = flat_name(name.as_str())?;
        let mut v: Vec<String> = Vec::new();
        v.push(n);
        proof {
            assert(views(v@) =~= seq![v@[0]@]);
        }
        v
    } else {
        safe_parts(name.as_str())?
    };
    if f.is_directory(i) {
        if flat {
            return Ok(ExtractStep::Skipped);
        }
        return Ok(ExtractStep::Directory(parts));
    }
    Ok(ExtractStep::File { parts, empty: f.is_empty_file(i) })
}

/// The pieces of `total` bytes written to volumes of the given `sizes`:
/// each volume takes the next size, the last size repeating.
pub open spec fn volume_pieces(total: nat, sizes: Seq<u64>, offset: nat, idx: nat) -> Seq<(nat, nat)>
    decreases total - offset,
{
    if offset >= total || sizes.len() == 0 {
        Seq::empty()
    } else {
        let size = sizes[if idx < sizes.len() { idx as int } else { sizes.len() - 1 }];
        let end: int = if offset + size < total { offset + size } else { total as int };
        if end <= offset {
            Seq::empty()
        } else {
            seq![(offset, end as nat)] + volume_pieces(total, sizes, end as nat, idx + 1)
        }
    }
}

/// Where each volume of a split archive of `total` bytes starts and ends.
/// A volume size of zero would never finish, so it is refused.
pub fn volume_bounds(total: usize, sizes: &Vec<u64>) -> (r: Result<Vec<(usize, usize)>, CliError>)
    requires
        sizes@.len() > 0,
    ensures
        (forall|k: int| 0 <= k < sizes@.len() ==> sizes@[k] > 0) ==> (r matches Ok(v) && v@.len() == volume_pieces(
            total as nat,
            sizes@,
            0,
            0,
        ).len() && forall|p: int|
            0 <= p < v@.len() ==> (#[trigger] v@[p]).0 as nat == volume_pieces(total as nat, sizes@, 0, 0)[p].0
                && v@[p].1 as nat == volume_pieces(total as nat, sizes@, 0, 0)[p].1),
        r matches Err(CliError::Usage(m)) ==> m@ == "volume size must be positive"@,
{
    let mut k: usize = 0;
    while k < sizes.len()
        invariant
            k <= sizes@.len(),
            forall|j: int| 0 <= j < k ==> sizes@[j] > 0,
        decreases sizes.len() - k,
    {
        if sizes[k] == 0 {
            return Err(CliError::Usage("volume size must be positive".to_owned()));
        }
        k = k + 1;
    }
    let mut out: Vec<(usize, usize)> = Vec::new();
    let mut offset: usize = 0;
    let mut idx: usize = 0;
    while offset < total
        invariant
            offset <= total,
            sizes@.len() > 0,
            forall|j: int| 0 <= j < sizes@.len() ==> sizes@[j] > 0,
            out@.len() + volume_pieces(total as nat, sizes@, offset as nat, idx as nat).len() == volume_pieces(
                total as nat,
                sizes@,
                0,
                0,
            ).len(),
            forall|p: int|
                0 <= p < out@.len() ==> (#[trigger] out@[p]).0 as nat == volume_pieces(total as nat, sizes@, 0, 0)[p].0
                    && out@[p].1 as nat == volume_pieces(total as nat, sizes@, 0, 0)[p].1,
            forall|p: int|
                0 <= p < volume_pieces(total as nat, sizes@, offset as nat, idx as nat).len() ==> #[trigger]
                volume_pieces(total as nat, sizes@, offset as nat, idx as nat)[p] == volume_pieces(
                    total as nat,
                    sizes@,
                    0,
                    0,
                )[out@.len() + p],
            idx <= offset,
        decreases total - offset,
    {
        let j = if idx < sizes.len() { idx } else { sizes.len() - 1 };
        let size = sizes[j];
        let room = (total - offset) as u64;
        let end = if size < room { offset + size as usize } else { total };
        let ghost rest = volume_pieces(total as nat, sizes@, end as nat, (idx + 1) as nat);
        proof {
            assert(volume_pieces(total as nat, sizes@, offset as nat, idx as nat) == seq![(offset as nat, end as nat)]
                + rest);
            assert(volume_pieces(total as nat, sizes@, offset as nat, idx as nat)[0] == volume_pieces(
                total as nat,
                sizes@,
                0,
                0,
            )[out@.len() as int]);
        }
        out.push((offset, end));
        proof {
            assert forall|p: int| 0 <= p < rest.len() implies #[trigger] rest[p] == volume_pieces(
                total as nat,
                sizes@,
                0,
                0,
            )[out@.len() + p] by {
                assert(rest[p] == (seq![(offset as nat, end as nat)] + rest)[p + 1]);
            }
        }
        offset = end;
        idx = idx + 1;
    }
    Ok(out)
}


// ---------------------------------------------------------------------------
// The texts of a listing.
// ---------------------------------------------------------------------------

/// A size as a listing shows it: its decimal digits, or nothing.
pub open spec fn spec_size_text(size: Option<u64>) -> Seq<char> {
    match size {
        Some(n) => decimal(n as nat),
        None => Seq::empty(),
    }
}

/// A size as a listing shows it: its decimal digits, or nothing.
pub fn size_text(size: Option<u64>) -> (r: String)
    ensures
        r@ == spec_size_text(size),
{
    let mut v: Vec<char> = Vec::new();
    match size {
        Some(n) => push_decimal(&mut v, n),
        None => {},
    }
    proof {
        assert(v@ =~= spec_size_text(size));
    }
    string_from_chars(&v)
}

/// The packed size shown on an entry's row: none for a directory or an
/// empty entry, else the packed size of its folder when the entry is the
/// first of it.
pub open spec fn spec_packed_for_row(e: ArchiveListingEntry) -> Option<u64> {
    if e.kind == ListingEntryKind::Directory || e.size == Some(0u64) {
        Some(0)
    } else {
        e.packed_size
    }
}

/// The packed size shown on an entry's row.
pub fn entry_packed_for_row(e: &ArchiveListingEntry) -> (r: Option<u64>)
    ensures
        r == spec_packed_for_row(*e),
{
    let zero = match e.size {
        Some(z) => z == 0,
        None => false,
    };
    if e.kind == ListingEntryKind::Directory || zero {
        Some(0)
    } else {
        e.packed_size
    }
}

/// What an entry adds to the packed total of a listing.
pub open spec fn spec_packed_for_summary(e: ArchiveListingEntry) -> u64 {
    if e.kind == ListingEntryKind::Anti {
        0
    } else {
        match spec_packed_for_row(e) {
            Some(p) => p,
            None => 0,
        }
    }
}

/// What an entry adds to the packed total of a listing.
pub fn entry_packed_for_summary(e: &ArchiveListingEntry) -> (r: u64)
    ensures
        r == spec_packed_for_summary(*e),
{
    if e.kind == ListingEntryKind::Anti {
        0
    } else {
        match entry_packed_for_row(e) {
            Some(p) => p,
            None => 0,
        }
    }
}

/// The time shown for a FILETIME: none before 1970.
pub fn listing_time(t: Option<u64>) -> (r: Option<u64>)
    ensures
        r == kept_time(match t {
            Some(x) => Some(x as nat),
            None => None,
        }),
{
    kept_filetime(t)
}

/// The later of two times, or the one that is known.
pub open spec fn spec_newest(a: Option<u64>, b: Option<u64>) -> Option<u64> {
    match (a, b) {
        (Some(x), Some(y)) => Some(if x >= y { x } else { y }),
        (Some(x), None) => Some(x),
        (None, Some(y)) => Some(y),
        (None, None) => None,
    }
}

/// The later of two times, or the one that is known.
pub fn newest_time(a: Option<u64>, b: Option<u64>) -> (r: Option<u64>)
    ensures
        r == spec_newest(a, b),
{
    match (a, b) {
        (Some(x), Some(y)) => Some(if x >= y { x } else { y }),
        (Some(x), None) => Some(x),
        (None, Some(y)) => Some(y),
        (None, None) => None,
    }
}

/// The attribute column of a listing row.
pub open spec fn spec_human_attributes(e: ArchiveListingEntry) -> Seq<char> {
    if e.attributes is None {
        "....."@
    } else {
        match e.kind {
            ListingEntryKind::Directory => "D...."@,
            ListingEntryKind::File | ListingEntryKind::Symlink => "....A"@,
            ListingEntryKind::Anti => "....."@,
        }
    }
}

/// The attribute column of a listing row.
pub fn human_attributes(e: &ArchiveListingEntry) -> (r: &'static str)
    ensures
        r@ == spec_human_attributes(*e),
{
    if e.attributes.is_none() {
        return ".....";
    }
    match e.kind {
        ListingEntryKind::Directory => "D....",
        ListingEntryKind::File | ListingEntryKind::Symlink => "....A",
        ListingEntryKind::Anti => ".....",
    }
}

/// `c` when bit `bit` of `mode` is set, else `-`.
pub open spec fn mode_char(mode: u32, bit: u32, c: char) -> char {
    if mode & bit != 0 {
        c
    } else {
        '-'
    }
}

/// A Unix mode as `ls -l` shows it: its kind (`d`, `l` or `-`), then read,
/// write and execute for owner, group and others.
pub open spec fn spec_unix_mode_text(mode: u32) -> Seq<char> {
    let kind = if mode & 0o170000 == 0o040000 {
        'd'
    } else if mode & 0o170000 == 0o120000 {
        'l'
    } else {
        '-'
    };
    seq![
        kind,
        mode_char(mode, 0o400, 'r'),
        mode_char(mode, 0o200, 'w'),
        mode_char(mode, 0o100, 'x'),
        mode_char(mode, 0o040, 'r'),
        mode_char(mode, 0o020, 'w'),
        mode_char(mode, 0o010, 'x'),
        mode_char(mode, 0o004, 'r'),
        mode_char(mode, 0o002, 'w'),
        mode_char(mode, 0o001, 'x'),
    ]
}

fn mode_bit(mode: u32, bit: u32, c: char) -> (r: char)
    ensures
        r == mode_char(mode, bit, c),
{
    if mode & bit != 0 {
        c
    } else {
        '-'
    }
}

/// A Unix mode as `ls -l` shows it.
pub fn unix_mode_text(mode: u32) -> (r: String)
    ensures
        r@ == spec_unix_mode_text(mode),
{
    let kind = if mode & 0o170000 == 0o040000 {
        'd'
    } else if mode & 0o170000 == 0o120000 {
        'l'
    } else {
        '-'
    };
    let mut v: Vec<char> = Vec::new();
    v.push(kind);
    v.push(mode_bit(mode, 0o400, 'r'));
    v.push(mode_bit(mode, 0o200, 'w'));
    v.push(mode_bit(mode, 0o100, 'x'));
    v.push(mode_bit(mode, 0o040, 'r'));
    v.push(mode_bit(mode, 0o020, 'w'));
    v.push(mode_bit(mode, 0o010, 'x'));
    v.push(mode_bit(mode, 0o004, 'r'));
    v.push(mode_bit(mode, 0o002, 'w'));
    v.push(mode_bit(mode, 0o001, 'x'));
    proof {
        assert(v@ =~= spec_unix_mode_text(mode));
    }
    string_from_chars(&v)
}

/// The attributes of an entry as a technical listing shows them: its class
/// (`D` or `A`), then its Unix mode when the high half holds one, else the
/// attribute word in hexadecimal. Anti-items and entries without
/// attributes show none.
pub open spec fn spec_technical_attributes(e: ArchiveListingEntry) -> Option<Seq<char>> {
    if e.kind == ListingEntryKind::Anti || e.attributes is None {
        None
    } else {
        let class = if e.kind == ListingEntryKind::Directory { 'D' } else { 'A' };
        let a = e.attributes->Some_0;
        let mode = a >> 16u32;
        if mode == 0 {
            Some(seq![class, ' '] + hex_digits(a as nat, 8, false))
        } else if e.kind == ListingEntryKind::Symlink {
            Some(seq![class, ' '] + spec_unix_mode_text(mode))
        } else {
            Some(seq![class, '_', ' '] + spec_unix_mode_text(mode))
        }
    }
}

/// The attributes of an entry as a technical listing shows them.
pub fn technical_attributes(e: &ArchiveListingEntry) -> (r: Option<String>)
    ensures
        match spec_technical_attributes(*e) {
            Some(t) => r matches Some(s) && s@ == t,
            None => r is None,
        },
{
    if e.kind == ListingEntryKind::Anti {
        return None;
    }
    let a = match e.attributes {
        Some(a) => a,
        None => {
            return None;
        },
    };
    let class = if e.kind == ListingEntryKind::Directory { 'D' } else { 'A' };
    let mode = a >> 16;
    let mut v: Vec<char> = Vec::new();
    v.push(class);
    if mode == 0 {
        v.push(' ');
        push_hex(&mut v, a, 8, false);
    } else {
        if e.kind != ListingEntryKind::Symlink {
            v.push('_');
        }
        v.push(' ');
        let m = unix_mode_text(mode);
        push_str(&mut v, m.as_str());
    }
    proof {
        assert(v@ =~= spec_technical_attributes(*e)->Some_0);
    }
    Some(string_from_chars(&v))
}

/// The closing words of a listing: how many files and folders it showed.
pub open spec fn spec_summary_text(files: usize, folders: usize) -> Seq<char> {
    if folders == 0 {
        decimal(files as nat) + " files"@
    } else if files == 0 {
        decimal(folders as nat) + " folders"@
    } else {
        decimal(files as nat) + " files, "@ + decimal(folders as nat) + " folders"@
    }
}

/// The closing words of a listing: how many files and folders it showed.
pub fn summary_text(files: usize, folders: usize) -> (r: String)
    ensures
        r@ == spec_summary_text(files, folders),
{
    let mut v: Vec<char> = Vec::new();
    if folders == 0 {
        push_decimal(&mut v, files as u64);
        push_str(&mut v, " files");
    } else if files == 0 {
        push_decimal(&mut v, folders as u64);
        push_str(&mut v, " folders");
    } else {
        push_decimal(&mut v, files as u64);
        push_str(&mut v, " files, ");
        push_decimal(&mut v, folders as u64);
        push_str(&mut v, " folders");
    }
    proof {
        assert(v@ =~= spec_summary_text(files, folders));
    }
    string_from_chars(&v)
}

/// The positions of the listed entries whose paths `patterns` select.
pub open spec fn selected_rows(l: Seq<ArchiveListingEntry>, patterns: Seq<String>, n: nat) -> Seq<nat>
    decreases n,
{
    if n == 0 {
        Seq::empty()
    } else {
        let prev = selected_rows(l, patterns, (n - 1) as nat);
        if spec_selected(l[n - 1].path@, patterns) {
            prev.push((n - 1) as nat)
        } else {
            prev
        }
    }
}

/// The positions, in order, of the entries of `listing` whose paths the
/// wildcard `patterns` select (all of them when there are none).
pub fn listing_rows(listing: &ArchiveListing, patterns: &Vec<String>) -> (r: Vec<usize>)
    ensures
        r@.len() == selected_rows(listing.entries@, patterns@, listing.entries@.len()).len(),
        forall|p: int|
            0 <= p < r@.len() ==> #[trigger] r@[p] as nat == selected_rows(
                listing.entries@,
                patterns@,
                listing.entries@.len(),
            )[p],
{
    let mut r: Vec<usize> = Vec::new();
    let mut i: usize = 0;
    while i < listing.entries.len()
        invariant
            i <= listing.entries@.len(),
            r@.len() == selected_rows(listing.entries@, patterns@, i as nat).len(),
            forall|p: int|
                0 <= p < r@.len() ==> #[trigger] r@[p] as nat == selected_rows(listing.entries@, patterns@, i as nat)[p],
        decreases listing.entries.len() - i,
    {
        if entry_is_selected(listing.entries[i].path.as_str(), patterns) {
            r.push(i);
        }
        i = i + 1;
    }
    r
}

/// The closing line of a listing.
pub struct ListingTotals {
    pub size: u64,
    pub packed: u64,
    pub files: usize,
    pub folders: usize,
    pub newest: Option<u64>,
}

/// The totals over the entries at the positions `rows`, anti-items left
/// out: sizes and packed sizes (capped at the largest `u64`), files,
/// folders, and the latest time shown.
pub open spec fn spec_totals(l: Seq<ArchiveListingEntry>, rows: Seq<usize>, k: nat) -> (int, int, nat, nat, Option<u64>)
    decreases k,
{
    if k == 0 {
        (0, 0, 0, 0, None)
    } else {
        let (s, p, f, d, t) = spec_totals(l, rows, (k - 1) as nat);
        let e = l[rows[k - 1] as int];
        if e.kind == ListingEntryKind::Anti {
            (s, p, f, d, t)
        } else {
            let size = match e.size {
                Some(z) => z as int,
                None => 0,
            };
            let shown = kept_time(
                match e.modified {
                    Some(x) => Some(x as nat),
                    None => None,
                },
            );
            (
                s + size,
                p + spec_packed_for_summary(e),
                if e.kind == ListingEntryKind::Directory { f } else { f + 1 },
                if e.kind == ListingEntryKind::Directory { d + 1 } else { d },
                spec_newest(t, shown),
            )
        }
    }
}

/// `x` capped at the largest `u64`.
pub open spec fn capped(x: int) -> int {
    if x > u64::MAX { u64::MAX as int } else { x }
}

/// The totals of a listing over the entries at the positions `rows`.
pub fn listing_totals(listing: &ArchiveListing, rows: &Vec<usize>) -> (r: ListingTotals)
    requires
        forall|p: int| 0 <= p < rows@.len() ==> #[trigger] rows@[p] < listing.entries@.len(),
    ensures
        ({
            let (s, p, f, d, t) = spec_totals(listing.entries@, rows@, rows@.len());
            &&& r.size as int == capped(s)
            &&& r.packed as int == capped(p)
            &&& r.files as nat == f
            &&& r.folders as nat == d
            &&& r.newest == t
        }),
{
    let mut size: u64 = 0;
    let mut packed: u64 = 0;
    let mut files: usize = 0;
    let mut folders: usize = 0;
    let mut newest: Option<u64> = None;
    let mut k: usize = 0;
    while k < rows.len()
        invariant
            k <= rows@.len(),
            forall|p: int| 0 <= p < rows@.len() ==> #[trigger] rows@[p] < listing.entries@.len(),
            ({
                let (s, p, f, d, t) = spec_totals(listing.entries@, rows@, k as nat);
                &&& size as int == capped(s)
                &&& packed as int == capped(p)
                &&& files as nat == f
                &&& folders as nat == d
                &&& newest == t
                &&& s >= 0 && p >= 0
                &&& f + d <= k
            }),
        decreases rows.len() - k,
    {
        let e = &listing.entries[rows[k]];
        if e.kind != ListingEntryKind::Anti {
            if e.kind == ListingEntryKind::Directory {
                folders = folders + 1;
            } else {
                files = files + 1;
            }
            let z = match e.size {
                Some(z) => z,
                None => 0,
            };
            size = size.saturating_add(z);
            packed = packed.saturating_add(entry_packed_for_summary(e));
            newest = newest_time(newest, listing_time(e.modified));
        }
        k = k + 1;
    }
    ListingTotals { size, packed, files, folders, newest }
}


/// Each piece of a split starts before it ends, within the total, from
/// the offset on.
pub proof fn lemma_volume_pieces_bounds(total: nat, sizes: Seq<u64>, offset: nat, idx: nat)
    ensures
        forall|p: int|
            0 <= p < volume_pieces(total, sizes, offset, idx).len() ==> offset <= (#[trigger] volume_pieces(
                total,
                sizes,
                offset,
                idx,
            )[p]).0 < volume_pieces(total, sizes, offset, idx)[p].1 <= total,
    decreases total - offset,
{
    if offset < total && sizes.len() > 0 {
        let size = sizes[if idx < sizes.len() { idx as int } else { sizes.len() - 1 }];
        let end: int = if offset + size < total { offset + size } else { total as int };
        if end > offset {
            lemma_volume_pieces_bounds(total, sizes, end as nat, idx + 1);
            let rest = volume_pieces(total, sizes, end as nat, idx + 1);
            assert(volume_pieces(total, sizes, offset, idx) == seq![(offset, end as nat)] + rest);
            assert forall|p: int| 0 <= p < volume_pieces(total, sizes, offset, idx).len() implies offset <= (
            #[trigger] volume_pieces(total, sizes, offset, idx)[p]).0 < volume_pieces(total, sizes, offset, idx)[p].1
                <= total by {
                if p > 0 {
                    assert(volume_pieces(total, sizes, offset, idx)[p] == rest[p - 1]);
                }
            }
        }
    }
}


// ---------------------------------------------------------------------------
// Extracting a whole archive below a directory.
// ---------------------------------------------------------------------------

/// The name entry `i` is extracted under: its name, or `unknown`.
pub open spec fn spec_extract_name(fi: Option<FilesInfoView>, i: nat) -> Seq<char> {
    match fi {
        Some(f) => match crate::files_info::spec_name(f, i) {
            Some(s) => s,
            None => "unknown"@,
        },
        None => "unknown"@,
    }
}

/// The name entry `i` of a listing is extracted under.
pub fn extract_name(fi: Option<&FilesInfo>, i: usize) -> (r: String)
    ensures
        r@ == spec_extract_name(crate::archive::fi_view(fi), i as nat),
{
    match fi {
        Some(f) => match f.name(i) {
            Some(n) => n,
            None => "unknown".to_owned(),
        },
        None => "unknown".to_owned(),
    }
}

/// What extracting one entry of a whole archive makes.
#[derive(Clone, Copy, Debug, PartialEq, Eq)]
pub enum ExtractAllStep {
    /// Nothing (an anti-item).
    Skip,
    /// A directory.
    Directory,
    /// An empty file.
    EmptyFile,
    /// A file with the entry's data.
    File,
}

/// What extracting entry `i` of a whole archive makes, when its name is
/// safe.
pub open spec fn spec_extract_all_step(fi: Option<FilesInfoView>, i: nat) -> ExtractAllStep {
    match fi {
        Some(f) => if spec_is_anti(f, i) {
            ExtractAllStep::Skip
        } else if spec_is_directory(f, i) {
            ExtractAllStep::Directory
        } else if crate::files_info::spec_is_empty_stream(f, i) && crate::files_info::spec_is_empty_file(f, i) {
            ExtractAllStep::EmptyFile
        } else {
            ExtractAllStep::File
        },
        None => ExtractAllStep::File,
    }
}

/// What extracting entry `i` (extracted under `name`) of a whole archive
/// makes. A name that could leave the destination directory is refused.
pub fn extract_all_step(fi: Option<&FilesInfo>, i: usize, name: &str) -> (r: Result<ExtractAllStep, R7zError>)
    ensures
        crate::archive::spec_safe_name(name.spec_bytes()) ==> r == Ok::<ExtractAllStep, R7zError>(
            spec_extract_all_step(crate::archive::fi_view(fi), i as nat),
        ),
        !crate::archive::spec_safe_name(name.spec_bytes()) ==> (r matches Err(R7zError::UnsafePath(s)) && s@
            == name@),
{
    crate::archive::check_archive_path(name)?;
    match fi {
        Some(f) => {
            if f.is_anti(i) {
                Ok(ExtractAllStep::Skip)
            } else if f.is_directory(i) {
                Ok(ExtractAllStep::Directory)
            } else if f.is_empty_stream(i) && f.is_empty_file(i) {
                Ok(ExtractAllStep::EmptyFile)
            } else {
                Ok(ExtractAllStep::File)
            }
        },
        None => Ok(ExtractAllStep::File),
    }
}

} // verus!
