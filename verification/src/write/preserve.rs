//! Rewriting an archive while keeping some of its folders as they are: the
//! packed streams of a kept folder are copied without being decoded, and new
//! data goes into new folders after them.
use vstd::prelude::*;
use crate::error::R7zError;
use crate::write::model::{
    ArchiveOptions, CompletedFolder, EntryKind, EntryMeta, PreparedFolder, SolidMode, WriteEntry,
};
use crate::write::encode::{
    build_archive_from_prepared, concat_streams, spec_encoded_archive, encode_folder, spec_signature_bytes, file_crcs_of, file_sizes_of, indices_in_folder, lemma_valid_settings,
    folder_data, spec_payload, spec_should_encode, spec_validate_archive, stream_indices_of, validate_archive_options,
};

verus! {

/// A folder of an existing archive, kept as it is: its description and its
/// packed streams.
#[derive(Clone, Debug)]
pub struct RawFolderBlock {
    pub folder_index: usize,
    pub pack_sizes: Vec<u64>,
    pub folder_info: Vec<u8>,
    pub coder_unpack_sizes: Vec<u64>,
    pub folder_crc: Option<u32>,
    pub packed_streams: Vec<Vec<u8>>,
}

/// Where the data of a rewritten entry comes from.
#[derive(Clone, Debug)]
pub enum PreservedEntryStream {
    /// No data (an empty file, a directory or an anti-item).
    Empty,
    /// New data, compressed into a new folder.
    Data(Vec<u8>),
    /// A stream of `size` bytes inside the kept folder `folder_id`.
    Raw { folder_id: usize, size: u64, crc: Option<u32> },
}

/// An entry of a rewritten archive.
#[derive(Clone, Debug)]
pub struct PreservedArchiveEntry {
    pub name: String,
    pub kind: EntryKind,
    pub meta: EntryMeta,
    pub stream: PreservedEntryStream,
}

/// New-folder state: the next unused folder id, the folder being filled,
/// and its files and bytes so far.
pub type DataState = (usize, Option<usize>, u64, u64);

/// New data of `size` bytes arrives: the folder it goes into and the state
/// after it.
pub open spec fn spec_next_data_folder(solid: SolidMode, st: DataState, size: u64) -> Result<(usize, DataState), R7zError> {
    let (next, current, files, bytes) = st;
    let needs_new: Result<bool, R7zError> = match current {
        None => Ok(true),
        Some(_) => match solid {
            SolidMode::Solid => Ok(false),
            SolidMode::NonSolid => Ok(true),
            SolidMode::Limit { max_files, max_bytes } => {
                if files + 1 > u64::MAX || bytes + size > u64::MAX {
                    Err(R7zError::Parse)
                } else {
                    Ok((max_files matches Some(n) && files > 0 && files + 1 > n)
                        || (max_bytes matches Some(n) && files > 0 && bytes + size > n))
                }
            },
        },
    };
    match needs_new {
        Err(e) => Err(e),
        Ok(nn) => {
            if nn && next + 1 > usize::MAX {
                Err(R7zError::Parse)
            } else {
                let (next1, cur1, files1, bytes1): DataState = if nn {
                    ((next + 1) as usize, Some(next), 0u64, 0u64)
                } else {
                    (next, current, files, bytes)
                };
                match cur1 {
                    None => Err(R7zError::Parse),
                    Some(id) => if files1 + 1 > u64::MAX || bytes1 + size > u64::MAX {
                        Err(R7zError::Parse)
                    } else {
                        Ok((id, (next1, cur1, (files1 + 1) as u64, (bytes1 + size) as u64)))
                    },
                }
            }
        },
    }
}

fn next_data_folder_id(solid: &SolidMode, st: DataState, size: u64) -> (r: Result<(usize, DataState), R7zError>)
    ensures
        r == spec_next_data_folder(*solid, st, size),
{
    let (mut next, mut current, mut files, mut bytes) = st;
    let needs_new = match current {
        None => true,
        Some(_) => match solid {
            SolidMode::Solid => false,
            SolidMode::NonSolid => true,
            SolidMode::Limit { max_files, max_bytes } => {
                let next_files = files.checked_add(1).ok_or(R7zError::Parse)?;
                let next_bytes = bytes.checked_add(size).ok_or(R7zError::Parse)?;
                let files_hit = match max_files {
                    Some(n) => files > 0 && next_files > *n,
                    None => false,
                };
                let bytes_hit = match max_bytes {
                    Some(n) => files > 0 && next_bytes > *n,
                    None => false,
                };
                files_hit || bytes_hit
            },
        },
    };
    if needs_new {
        current = Some(next);
        next = next.checked_add(1).ok_or(R7zError::Parse)?;
        files = 0;
        bytes = 0;
    }
    let folder_id = current.ok_or(R7zError::Parse)?;
    files = files.checked_add(1).ok_or(R7zError::Parse)?;
    bytes = bytes.checked_add(size).ok_or(R7zError::Parse)?;
    Ok((folder_id, (next, current, files, bytes)))
}

/// The writer entries for `es` (new data placed by `solid`, starting from
/// `st0`), each with the size and digest of its kept stream, if any.
pub open spec fn spec_preserved_plan(es: Seq<PreservedArchiveEntry>, solid: SolidMode, st0: DataState) -> Result<
    (Seq<WriteEntry>, Seq<Option<(u64, Option<u32>)>>, DataState),
    R7zError,
>
    decreases es.len(),
{
    if es.len() == 0 {
        Ok((Seq::empty(), Seq::empty(), st0))
    } else {
        match spec_preserved_plan(es.drop_last(), solid, st0) {
            Err(e) => Err(e),
            Ok((ws, raws, st)) => {
                let e = es.last();
                let w = WriteEntry { name: e.name, kind: e.kind, meta: e.meta, has_stream: false, data: None, folder_id: 0 };
                match e.stream {
                    PreservedEntryStream::Empty => Ok((ws.push(w), raws.push(None), st)),
                    PreservedEntryStream::Raw { folder_id, size, crc } => Ok((
                        ws.push(WriteEntry { has_stream: true, folder_id, ..w }),
                        raws.push(Some((size, crc))),
                        (st.0, None, 0u64, 0u64),
                    )),
                    PreservedEntryStream::Data(d) => match spec_next_data_folder(solid, st, d@.len() as u64) {
                        Err(e) => Err(e),
                        Ok((id, st2)) => Ok((
                            ws.push(WriteEntry { has_stream: true, data: Some(d), folder_id: id, ..w }),
                            raws.push(None),
                            st2,
                        )),
                    },
                }
            },
        }
    }
}

/// The largest folder index of `raws`, or 0.
pub open spec fn max_folder_index(raws: Seq<RawFolderBlock>) -> usize
    decreases raws.len(),
{
    if raws.len() == 0 {
        0
    } else {
        let m = max_folder_index(raws.drop_last());
        if raws.last().folder_index > m { raws.last().folder_index } else { m }
    }
}

/// The folder ids of the entries with data, each once, in the order they
/// first occur.
pub open spec fn folder_order(es: Seq<WriteEntry>) -> Seq<usize>
    decreases es.len(),
{
    if es.len() == 0 {
        Seq::empty()
    } else {
        let o = folder_order(es.drop_last());
        let e = es.last();
        if e.has_stream && !o.contains(e.folder_id) { o.push(e.folder_id) } else { o }
    }
}

/// The position of the last block of `raws` for folder `id` (a later block
/// for the same folder replaces an earlier one).
pub open spec fn raw_position(raws: Seq<RawFolderBlock>, id: usize) -> Option<int>
    decreases raws.len(),
{
    if raws.len() == 0 {
        None
    } else if raws.last().folder_index == id {
        Some(raws.len() - 1)
    } else {
        raw_position(raws.drop_last(), id)
    }
}

proof fn lemma_plan_len(es: Seq<PreservedArchiveEntry>, solid: SolidMode, st0: DataState)
    ensures
        spec_preserved_plan(es, solid, st0) matches Ok((ws, raws, _)) ==> ws.len() == es.len() && raws.len() == es.len(),
    decreases es.len(),
{
    if es.len() > 0 {
        lemma_plan_len(es.drop_last(), solid, st0);
    }
}

/// The size of a stream: that of the kept stream, or of the new data.
pub open spec fn spec_stream_size(e: WriteEntry, raw: Option<(u64, Option<u32>)>) -> Result<u64, R7zError> {
    match raw {
        Some((size, _)) => Ok(size),
        None => match e.data {
            Some(d) => Ok(d@.len() as u64),
            None => Err(R7zError::Parse),
        },
    }
}

/// The digest of a stream: that of the kept stream, or of the new data.
pub open spec fn spec_stream_crc(e: WriteEntry, raw: Option<(u64, Option<u32>)>) -> Result<Option<u32>, R7zError> {
    match raw {
        Some((_, crc)) => Ok(crc),
        None => match e.data {
            Some(d) => Ok(Some(crate::crc::crc32(d@))),
            None => Err(R7zError::Parse),
        },
    }
}

/// A kept folder holding the streams `idx`: its description is the block's,
/// with the sizes and digests of those streams.
pub open spec fn kept_folder(
    f: PreparedFolder,
    raw: RawFolderBlock,
    ws: Seq<WriteEntry>,
    raws: Seq<Option<(u64, Option<u32>)>>,
    idx: Seq<usize>,
) -> bool {
    &&& f.metadata.file_indices@ == idx
    &&& f.metadata.pack_sizes@ == raw.pack_sizes@
    &&& f.metadata.coder_info@ == raw.folder_info@
    &&& f.metadata.coder_unpack_sizes@ == raw.coder_unpack_sizes@
    &&& f.metadata.folder_crc == raw.folder_crc
    &&& f.packed_streams.deep_view() == raw.packed_streams.deep_view()
    &&& f.metadata.file_sizes@.len() == idx.len()
    &&& f.metadata.file_crcs@.len() == idx.len()
    &&& forall|k: int| 0 <= k < idx.len() ==> spec_stream_size(ws[idx[k] as int], raws[idx[k] as int]) == Ok::<u64, R7zError>(
        #[trigger] f.metadata.file_sizes@[k],
    )
    &&& forall|k: int| 0 <= k < idx.len() ==> spec_stream_crc(ws[idx[k] as int], raws[idx[k] as int]) == Ok::<Option<u32>, R7zError>(
        #[trigger] f.metadata.file_crcs@[k],
    )
}

fn stream_size(e: &WriteEntry, raw: Option<(u64, Option<u32>)>) -> (r: Result<u64, R7zError>)
    ensures
        r == spec_stream_size(*e, raw),
{
    match raw {
        Some((size, _)) => Ok(size),
        None => match &e.data {
            Some(d) => Ok(d.len() as u64),
            None => Err(R7zError::Parse),
        },
    }
}

fn stream_crc(e: &WriteEntry, raw: Option<(u64, Option<u32>)>) -> (r: Result<Option<u32>, R7zError>)
    ensures
        r == spec_stream_crc(*e, raw),
{
    match raw {
        Some((_, crc)) => Ok(crc),
        None => match &e.data {
            Some(d) => Ok(Some(crate::crc::crc32_of(d.as_slice()))),
            None => Err(R7zError::Parse),
        },
    }
}

/// An error on a prefix of the entries is the error of the whole plan.
proof fn lemma_preserved_err_prefix(es: Seq<PreservedArchiveEntry>, solid: SolidMode, st0: DataState, j: int)
    requires
        0 <= j <= es.len(),
        spec_preserved_plan(es.take(j), solid, st0) is Err,
    ensures
        spec_preserved_plan(es, solid, st0) == spec_preserved_plan(es.take(j), solid, st0),
    decreases es.len(),
{
    if j < es.len() {
        assert(es.drop_last().take(j) =~= es.take(j));
        lemma_preserved_err_prefix(es.drop_last(), solid, st0, j);
    } else {
        assert(es.take(j) =~= es);
    }
}

fn plan_preserved(entries: Vec<PreservedArchiveEntry>, solid: &SolidMode, st0: DataState) -> (r: Result<
    (Vec<WriteEntry>, Vec<Option<(u64, Option<u32>)>>),
    R7zError,
>)
    ensures
        match spec_preserved_plan(entries@, *solid, st0) {
            Err(e) => r == Err::<(Vec<WriteEntry>, Vec<Option<(u64, Option<u32>)>>), R7zError>(e),
            Ok((ws, raws, _)) => r matches Ok((w, m)) && w@ == ws && m@ == raws,
        },
{
    let ghost orig = entries@;
    let mut ws: Vec<WriteEntry> = Vec::new();
    let mut raws: Vec<Option<(u64, Option<u32>)>> = Vec::new();
    let mut st = st0;
    for e in it: entries.into_iter()
        invariant
            it.seq() == orig,
            spec_preserved_plan(orig.take(it.index()), *solid, st0) == Ok::<
                (Seq<WriteEntry>, Seq<Option<(u64, Option<u32>)>>, DataState),
                R7zError,
            >((ws@, raws@, st)),
    {
        proof {
            assert(orig.take(it.index() + 1).drop_last() =~= orig.take(it.index()));
            assert(orig.take(it.index() + 1).last() == e);
        }
        let PreservedArchiveEntry { name, kind, meta, stream } = e;
        match stream {
            PreservedEntryStream::Empty => {
                ws.push(WriteEntry { name, kind, meta, has_stream: false, data: None, folder_id: 0 });
                raws.push(None);
            },
            PreservedEntryStream::Raw { folder_id, size, crc } => {
                ws.push(WriteEntry { name, kind, meta, has_stream: true, data: None, folder_id });
                raws.push(Some((size, crc)));
                st = (st.0, None, 0, 0);
            },
            PreservedEntryStream::Data(d) => {
                let size = d.len() as u64;
                match next_data_folder_id(solid, st, size) {
                    Err(err) => {
                        proof {
                            lemma_preserved_err_prefix(orig, *solid, st0, it.index() + 1);
                        }
                        return Err(err);
                    },
                    Ok((id, st2)) => {
                        ws.push(WriteEntry { name, kind, meta, has_stream: true, data: Some(d), folder_id: id });
                        raws.push(None);
                        st = st2;
                    },
                }
            },
        }
        proof {
            assert(ws@ =~= spec_preserved_plan(orig.take(it.index() + 1), *solid, st0)->Ok_0.0);
            assert(raws@ =~= spec_preserved_plan(orig.take(it.index() + 1), *solid, st0)->Ok_0.1);
        }
    }
    proof {
        assert(orig.take(orig.len() as int) =~= orig);
    }
    Ok((ws, raws))
}

fn max_raw_index(raws: &Vec<RawFolderBlock>) -> (r: usize)
    ensures
        r == max_folder_index(raws@),
{
    let mut m: usize = 0;
    let mut i: usize = 0;
    while i < raws.len()
        invariant
            i <= raws@.len(),
            m == max_folder_index(raws@.take(i as int)),
        decreases raws@.len() - i,
    {
        proof {
            assert(raws@.take(i + 1).drop_last() =~= raws@.take(i as int));
        }
        if raws[i].folder_index > m {
            m = raws[i].folder_index;
        }
        i = i + 1;
    }
    proof {
        assert(raws@.take(raws@.len() as int) =~= raws@);
    }
    m
}

fn order_of_folders(ws: &Vec<WriteEntry>) -> (r: Vec<usize>)
    ensures
        r@ == folder_order(ws@),
{
    let mut order: Vec<usize> = Vec::new();
    let mut i: usize = 0;
    while i < ws.len()
        invariant
            i <= ws@.len(),
            order@ == folder_order(ws@.take(i as int)),
        decreases ws@.len() - i,
    {
        proof {
            assert(ws@.take(i + 1).drop_last() =~= ws@.take(i as int));
        }
        if ws[i].has_stream {
            let id = ws[i].folder_id;
            let mut seen = false;
            let mut k: usize = 0;
            while k < order.len()
                invariant
                    k <= order@.len(),
                    seen <==> exists|j: int| 0 <= j < k && order@[j] == id,
                decreases order@.len() - k,
            {
                if order[k] == id {
                    seen = true;
                }
                k = k + 1;
            }
            proof {
                if seen {
                    let j = choose|j: int| 0 <= j < k && order@[j] == id;
                    assert(order@.contains(id));
                } else {
                    assert(!order@.contains(id));
                }
            }
            if !seen {
                order.push(id);
            }
        }
        i = i + 1;
    }
    proof {
        assert(ws@.take(ws@.len() as int) =~= ws@);
    }
    order
}

fn find_raw(raws: &Vec<RawFolderBlock>, id: usize) -> (r: Option<usize>)
    ensures
        r is None <==> raw_position(raws@, id) is None,
        r matches Some(p) ==> raw_position(raws@, id) == Some(p as int) && p < raws@.len(),
{
    let mut found: Option<usize> = None;
    let mut i: usize = 0;
    while i < raws.len()
        invariant
            i <= raws@.len(),
            found is None <==> raw_position(raws@.take(i as int), id) is None,
            found matches Some(p) ==> raw_position(raws@.take(i as int), id) == Some(p as int) && p < i,
        decreases raws@.len() - i,
    {
        proof {
            assert(raws@.take(i + 1).drop_last() =~= raws@.take(i as int));
        }
        if raws[i].folder_index == id {
            found = Some(i);
        }
        i = i + 1;
    }
    proof {
        assert(raws@.take(raws@.len() as int) =~= raws@);
    }
    found
}

fn kept_folder_from_raw(
    raw: &RawFolderBlock,
    ws: &Vec<WriteEntry>,
    raws: &Vec<Option<(u64, Option<u32>)>>,
    idx: Vec<usize>,
) -> (r: Result<PreparedFolder, R7zError>)
    requires
        ws@.len() == raws@.len(),
        forall|k: int| 0 <= k < idx@.len() ==> #[trigger] idx@[k] < ws@.len(),
    ensures
        r matches Ok(f) ==> kept_folder(f, *raw, ws@, raws@, idx@),
        (exists|k: int| 0 <= k < idx@.len() && (#[trigger] spec_stream_size(ws@[idx@[k] as int], raws@[idx@[k] as int])) is Err)
            ==> r is Err,
        r is Ok <==> forall|k: int|
            0 <= k < idx@.len() ==> (#[trigger] spec_stream_size(ws@[idx@[k] as int], raws@[idx@[k] as int])) is Ok
                && spec_stream_crc(ws@[idx@[k] as int], raws@[idx@[k] as int]) is Ok,
{
    let mut sizes: Vec<u64> = Vec::new();
    let mut crcs: Vec<Option<u32>> = Vec::new();
    let mut k: usize = 0;
    while k < idx.len()
        invariant
            k <= idx@.len(),
            ws@.len() == raws@.len(),
            forall|j: int| 0 <= j < idx@.len() ==> #[trigger] idx@[j] < ws@.len(),
            sizes@.len() == k,
            crcs@.len() == k,
            forall|j: int| 0 <= j < k ==> spec_stream_size(ws@[idx@[j] as int], raws@[idx@[j] as int]) == Ok::<u64, R7zError>(
                #[trigger] sizes@[j],
            ),
            forall|j: int| 0 <= j < k ==> spec_stream_crc(ws@[idx@[j] as int], raws@[idx@[j] as int]) == Ok::<Option<u32>, R7zError>(
                #[trigger] crcs@[j],
            ),
        decreases idx@.len() - k,
    {
        let i = idx[k];
        let s = stream_size(&ws[i], raws[i]);
        let c = stream_crc(&ws[i], raws[i]);
        match (s, c) {
            (Ok(s), Ok(c)) => {
                sizes.push(s);
                crcs.push(c);
            },
            (Err(e), _) => {
                return Err(e);
            },
            (_, Err(e)) => {
                return Err(e);
            },
        }
        k = k + 1;
    }
    proof {
        assert forall|j: int| 0 <= j < idx@.len() implies (#[trigger] spec_stream_size(ws@[idx@[j] as int], raws@[idx@[j] as int])) is Ok
            && spec_stream_crc(ws@[idx@[j] as int], raws@[idx@[j] as int]) is Ok by {
            assert(spec_stream_size(ws@[idx@[j] as int], raws@[idx@[j] as int]) == Ok::<u64, R7zError>(sizes@[j]));
            assert(spec_stream_crc(ws@[idx@[j] as int], raws@[idx@[j] as int]) == Ok::<Option<u32>, R7zError>(crcs@[j]));
        }
    }
    Ok(PreparedFolder {
        metadata: CompletedFolder {
            file_indices: idx,
            pack_sizes: raw.pack_sizes.clone(),
            coder_info: raw.folder_info.clone(),
            coder_unpack_sizes: raw.coder_unpack_sizes.clone(),
            folder_crc: raw.folder_crc,
            file_sizes: sizes,
            file_crcs: crcs,
        },
        packed_streams: raw.packed_streams.clone(),
    })
}

/// `f` is the folder that the plan gives the folder id `id`: the kept block
/// for `id` when there is one (its packed streams copied as they are), else
/// the new data of its streams, compressed as [`spec_payload`] says when
/// there is no encryption.
pub open spec fn prepared_as_planned(
    f: PreparedFolder,
    id: usize,
    ws: Seq<WriteEntry>,
    raws: Seq<Option<(u64, Option<u32>)>>,
    blocks: Seq<RawFolderBlock>,
    options: ArchiveOptions,
) -> bool {
    let idx = stream_indices_of(ws, id);
    match raw_position(blocks, id) {
        Some(p) => kept_folder(f, blocks[p], ws, raws, idx),
        None => {
            &&& f.metadata.file_indices@ == idx
            &&& f.metadata.file_sizes@ == file_sizes_of(ws, idx)
            &&& f.metadata.file_crcs@ == file_crcs_of(ws, idx)
            &&& f.packed_streams@.len() == 1
            &&& f.metadata.pack_sizes@ == seq![f.packed_streams@[0]@.len() as u64]
            &&& f.metadata.folder_crc is None
            &&& folder_data(ws, idx) matches Some(d) && spec_payload(d, options.codec, options.compression) matches Ok(
                (pack, info, sizes),
            ) && match options.encryption {
                None => f.packed_streams@[0]@ == pack && f.metadata.coder_info@ == info && f.metadata.coder_unpack_sizes@
                    == sizes,
                Some(e) => crate::write::encode::aes_layer(
                    f.packed_streams@[0]@,
                    f.metadata.coder_info@,
                    f.metadata.coder_unpack_sizes@,
                    pack,
                    info,
                    sizes,
                    e,
                ),
            }
        },
    }
}

/// The packed streams of the folders `fs`, in order.
pub open spec fn packed_of(fs: Seq<PreparedFolder>) -> Seq<Vec<u8>>
    decreases fs.len(),
{
    if fs.len() == 0 {
        Seq::empty()
    } else {
        packed_of(fs.drop_last()) + fs.last().packed_streams@
    }
}

/// The descriptions of the folders `fs`, in order.
pub open spec fn metadata_of(fs: Seq<PreparedFolder>) -> Seq<CompletedFolder> {
    fs.map_values(|f: PreparedFolder| f.metadata)
}

/// The state new data starts from: folder ids after the largest kept one.
pub open spec fn first_data_state(blocks: Seq<RawFolderBlock>) -> DataState {
    ((max_folder_index(blocks) + 1) as usize, None, 0u64, 0u64)
}

/// The folder `id` of the plan can be made: a kept one has the size and
/// digest of each of its streams, a new one has its data and that data
/// encodes.
pub open spec fn folder_ready(
    id: usize,
    ws: Seq<WriteEntry>,
    raws: Seq<Option<(u64, Option<u32>)>>,
    blocks: Seq<RawFolderBlock>,
    options: ArchiveOptions,
) -> bool {
    let idx = stream_indices_of(ws, id);
    match raw_position(blocks, id) {
        Some(p) => forall|j: int|
            0 <= j < idx.len() ==> (#[trigger] spec_stream_size(ws[idx[j] as int], raws[idx[j] as int])) is Ok
                && spec_stream_crc(ws[idx[j] as int], raws[idx[j] as int]) is Ok,
        None => match folder_data(ws, idx) {
            Some(d) => spec_payload(d, options.codec, options.compression) is Ok,
            None => false,
        },
    }
}

/// Every folder of the plan can be made.
pub open spec fn folders_ready(
    ws: Seq<WriteEntry>,
    raws: Seq<Option<(u64, Option<u32>)>>,
    blocks: Seq<RawFolderBlock>,
    options: ArchiveOptions,
) -> bool {
    forall|k: int| 0 <= k < folder_order(ws).len() ==> #[trigger] folder_ready(folder_order(ws)[k], ws, raws, blocks, options)
}

/// The writer entries and the folders, in the order their ids first occur,
/// for a rewrite that keeps the folders `raw_folders`.
pub fn prepare_preserved(
    entries: Vec<PreservedArchiveEntry>,
    raw_folders: &Vec<RawFolderBlock>,
    options: &ArchiveOptions,
) -> (r: Result<(Vec<WriteEntry>, Vec<PreparedFolder>), R7zError>)
    requires
        crate::write::encode::encoder_dict_fits(*options),
    ensures
        max_folder_index(raw_folders@) == usize::MAX ==> r == Err::<(Vec<WriteEntry>, Vec<PreparedFolder>), R7zError>(
            R7zError::Parse,
        ),
        max_folder_index(raw_folders@) < usize::MAX ==> match spec_preserved_plan(
            entries@,
            options.compression.solid,
            first_data_state(raw_folders@),
        ) {
            Err(e) => r == Err::<(Vec<WriteEntry>, Vec<PreparedFolder>), R7zError>(e),
            Ok((ws, raws, _)) => r matches Ok((w, fs)) ==> {
                &&& w@ == ws
                &&& fs@.len() == folder_order(ws).len()
                &&& forall|k: int| 0 <= k < fs@.len() ==> prepared_as_planned(
                    #[trigger] fs@[k],
                    folder_order(ws)[k],
                    ws,
                    raws,
                    raw_folders@,
                    *options,
                )
            },
        },
        max_folder_index(raw_folders@) < usize::MAX && options.encryption is None && spec_validate_archive(*options) is Ok
            && (spec_preserved_plan(entries@, options.compression.solid, first_data_state(raw_folders@)) matches Ok(
            (ws, raws, _),
        ) && folders_ready(ws, raws, raw_folders@, *options)) ==> r is Ok,
        max_folder_index(raw_folders@) < usize::MAX && options.encryption is Some && spec_validate_archive(*options) is Ok
            && (spec_preserved_plan(entries@, options.compression.solid, first_data_state(raw_folders@)) matches Ok(
            (ws, raws, _),
        ) && folders_ready(ws, raws, raw_folders@, *options)) ==> (r is Ok || r == Err::<
            (Vec<WriteEntry>, Vec<PreparedFolder>),
            R7zError,
        >(R7zError::Parse)),
{
    let max_raw = max_raw_index(raw_folders);
    let next = max_raw.checked_add(1).ok_or(R7zError::Parse)?;
    let (ws, raws) = plan_preserved(entries, &options.compression.solid, (next, None, 0, 0))?;
    let order = order_of_folders(&ws);
    proof {
        lemma_plan_len(entries@, options.compression.solid, first_data_state(raw_folders@));
    }
    let mut folders: Vec<PreparedFolder> = Vec::new();
    let mut k: usize = 0;
    while k < order.len()
        invariant
            k <= order@.len(),
            ws@.len() == raws@.len(),
            order@ == folder_order(ws@),
            crate::write::encode::encoder_dict_fits(*options),
            max_folder_index(raw_folders@) < usize::MAX,
            spec_preserved_plan(entries@, options.compression.solid, first_data_state(raw_folders@)) matches Ok((pw, pr, _))
                && pw == ws@ && pr == raws@,
            folders@.len() == k,
            forall|j: int| 0 <= j < k ==> prepared_as_planned(
                #[trigger] folders@[j],
                order@[j],
                ws@,
                raws@,
                raw_folders@,
                *options,
            ),
        decreases order@.len() - k,
    {
        let id = order[k];
        let idx = indices_in_folder(ws.as_slice(), id);
        proof {
            assert(folders_ready(ws@, raws@, raw_folders@, *options) ==> folder_ready(
                order@[k as int],
                ws@,
                raws@,
                raw_folders@,
                *options,
            ));
        }
        let f = match find_raw(raw_folders, id) {
            Some(p) => kept_folder_from_raw(&raw_folders[p], &ws, &raws, idx)?,
            None => {
                match validate_archive_options(options) {
                    Ok(()) => {},
                    Err(e) => {
                        return Err(e);
                    },
                }
                proof {
                    lemma_valid_settings(*options);
                }
                encode_folder(ws.as_slice(), idx, options)?
            },
        };
        folders.push(f);
        k = k + 1;
    }
    Ok((ws, folders))
}

/// `ws` and `fs` are the entries and folders that the plan of a rewrite
/// of `entries` keeping `blocks` makes, each folder prepared as planned.
pub open spec fn preserved_folders(
    ws: Seq<WriteEntry>,
    fs: Seq<PreparedFolder>,
    entries: Seq<PreservedArchiveEntry>,
    blocks: Seq<RawFolderBlock>,
    options: ArchiveOptions,
) -> bool {
    spec_preserved_plan(entries, options.compression.solid, first_data_state(blocks)) matches Ok((pw, pr, _))
        && pw == ws && fs.len() == folder_order(ws).len() && forall|k: int|
        0 <= k < fs.len() ==> prepared_as_planned(#[trigger] fs[k], folder_order(ws)[k], ws, pr, blocks, options)
}

/// The compressed header of the rewrite of `entries` keeping `blocks` did
/// not encode.
pub open spec fn preserved_header_refused(
    entries: Seq<PreservedArchiveEntry>,
    blocks: Seq<RawFolderBlock>,
    options: ArchiveOptions,
) -> bool {
    exists|ws: Seq<WriteEntry>, fs: Seq<PreparedFolder>|
        #[trigger] preserved_folders(ws, fs, entries, blocks, options) && crate::write::encode::lzma_encode(
            crate::write::header::spec_header_bytes(ws, metadata_of(fs)),
            6,
            None,
            None,
        ) is None
}

/// `a` is an archive the rewrite can give: `ws` and `fs` are the entries and
/// folders the plan makes; with a plain header `a` is the signature header,
/// the folders' packed streams in order, then the header, and with a
/// compressed one it is the packed streams followed by the header stream
/// that [`crate::write::encode::spec_header_stream`] describes (without
/// encryption, exactly [`spec_encoded_archive`] of them).
pub open spec fn preserved_archive(
    a: Seq<u8>,
    ws: Seq<WriteEntry>,
    fs: Seq<PreparedFolder>,
    entries: Seq<PreservedArchiveEntry>,
    blocks: Seq<RawFolderBlock>,
    options: ArchiveOptions,
) -> bool {
    &&& preserved_folders(ws, fs, entries, blocks, options)
    &&& !spec_should_encode(options, ws.len()) && crate::write::header::spec_name_data(ws).len() < u64::MAX ==> {
        let p = concat_streams(packed_of(fs));
        let h = crate::write::header::spec_header_bytes(ws, metadata_of(fs));
        a == spec_signature_bytes(p.len() as u64, h) + p + h
    }
    &&& spec_should_encode(options, ws.len()) && options.encryption is None
        && crate::write::header::spec_name_data(ws).len() < u64::MAX ==> a == spec_encoded_archive(
        concat_streams(packed_of(fs)),
        crate::write::header::spec_header_bytes(ws, metadata_of(fs)),
    )
    &&& spec_should_encode(options, ws.len()) && crate::write::header::spec_name_data(ws).len() < u64::MAX ==> exists|
        hp: Seq<u8>,
        hi: Seq<u8>,
        hs: Seq<u64>,
    |
        #[trigger] crate::write::encode::spec_header_stream(
            crate::write::header::spec_header_bytes(ws, metadata_of(fs)),
            options.encryption,
            hp,
            hi,
            hs,
        ) && a == crate::write::encode::spec_archive_with_header(concat_streams(packed_of(fs)), hp, hi, hs)
}

/// Rewrite an archive: keep the folders `raw_folders` as they are (their
/// packed streams are copied, not decoded) and compress new data into new
/// folders numbered after them.
pub fn build_archive_with_preserved_folders(
    entries: Vec<PreservedArchiveEntry>,
    raw_folders: Vec<RawFolderBlock>,
    options: &ArchiveOptions,
) -> (r: Result<Vec<u8>, R7zError>)
    requires
        crate::write::encode::encoder_dict_fits(*options),
    ensures
        max_folder_index(raw_folders@) == usize::MAX ==> r == Err::<Vec<u8>, R7zError>(R7zError::Parse),
        max_folder_index(raw_folders@) < usize::MAX ==> (spec_preserved_plan(
            entries@,
            options.compression.solid,
            first_data_state(raw_folders@),
        ) matches Err(e) ==> r == Err::<Vec<u8>, R7zError>(e)),
        r matches Ok(a) ==> a@.len() >= 32 && a@.subrange(0, 6) == seq![0x37u8, 0x7au8, 0xbcu8, 0xafu8, 0x27u8, 0x1cu8],
        max_folder_index(raw_folders@) < usize::MAX && options.encryption is None && spec_validate_archive(*options) is Ok
            && (spec_preserved_plan(entries@, options.compression.solid, first_data_state(raw_folders@)) matches Ok(
            (ws, raws, _),
        ) && folders_ready(ws, raws, raw_folders@, *options) && ws.len() < (usize::MAX - 64) / 16
            && crate::write::header::spec_name_data(ws).len() < u64::MAX) ==> (r is Ok || (spec_should_encode(
            *options,
            spec_preserved_plan(entries@, options.compression.solid, first_data_state(raw_folders@))->Ok_0.0.len(),
        ) && preserved_header_refused(entries@, raw_folders@, *options))),
        max_folder_index(raw_folders@) < usize::MAX && options.encryption is Some && spec_validate_archive(*options) is Ok
            && (spec_preserved_plan(entries@, options.compression.solid, first_data_state(raw_folders@)) matches Ok(
            (ws, raws, _),
        ) && folders_ready(ws, raws, raw_folders@, *options) && ws.len() < (usize::MAX - 64) / 16
            && crate::write::header::spec_name_data(ws).len() < u64::MAX) ==> (r is Ok || r == Err::<Vec<u8>, R7zError>(
            R7zError::Parse,
        ) || r == Err::<Vec<u8>, R7zError>(R7zError::Decompression)),
        r matches Ok(a) ==> exists|ws: Seq<WriteEntry>, fs: Seq<PreparedFolder>| #[trigger] preserved_archive(
            a@,
            ws,
            fs,
            entries@,
            raw_folders@,
            *options,
        ),
{
    let ghost ents = entries@;
    let (ws, folders) = prepare_preserved(entries, &raw_folders, options)?;
    let ghost fs = folders@;
    let mut metadata: Vec<CompletedFolder> = Vec::new();
    let mut packed: Vec<Vec<u8>> = Vec::new();
    for f in it: folders.into_iter()
        invariant
            it.seq() == fs,
            metadata@ == metadata_of(fs.take(it.index() as int)),
            packed@ == packed_of(fs.take(it.index() as int)),
    {
        let ghost i = it.index();
        let PreparedFolder { metadata: m, packed_streams: mut ps } = f;
        metadata.push(m);
        packed.append(&mut ps);
        proof {
            assert(fs.take(i + 1).drop_last() =~= fs.take(i as int));
            assert(metadata@ =~= metadata_of(fs.take(i + 1)));
        }
    }
    proof {
        assert(fs.take(fs.len() as int) =~= fs);
    }
    if ws.len() >= (usize::MAX - 64) / 16 {
        return Err(R7zError::LimitExceeded("too many entries"));
    }
    let r = build_archive_from_prepared(ws.as_slice(), metadata.as_slice(), packed.as_slice(), options);
    proof {
        if r is Ok {
            assert(preserved_archive(r->Ok_0@, ws@, fs, ents, raw_folders@, *options));
        } else {
            assert(preserved_folders(ws@, fs, ents, raw_folders@, *options));
        }
    }
    r
}

} // verus!
