//! Writing an archive entry by entry: files go into the current folder,
//! which is closed on request or when the solid-block limits are reached;
//! the archive is encoded when the writer finishes.
use vstd::prelude::*;
use vstd::string::StringSliceAdditionalSpecFns;
use crate::error::R7zError;
use crate::write::builder::{entry_is, non_empty};
use crate::write::encode::{build_archive, no_streams, spec_should_encode, spec_signature_bytes, spec_validate_archive, validate_archive_options};
use crate::write::model::{
    meta_with_attributes, ArchiveEntry, CompletedFolder, ArchiveOptions, Codec, EntryKind, EntryMeta, SolidMode, VolumeOptions,
    WriteEntry, FILE_ATTRIBUTE_ARCHIVE, SYMLINK_UNIX_MODE,
};

verus! {

/// Some recorded entry of folder `f` has data.
pub open spec fn folder_has_stream(es: Seq<WriteEntry>, f: nat) -> bool {
    exists|i: int| 0 <= i < es.len() && (#[trigger] es[i]).folder_id == f && es[i].has_stream
}

/// The current folder after a request for a new one: the next folder when
/// the current one holds data, else the same.
pub open spec fn next_folder(es: Seq<WriteEntry>, f: nat) -> nat {
    if folder_has_stream(es, f) {
        f + 1
    } else {
        f
    }
}

/// After a file of `size` bytes joined the current folder (which then
/// holds `files` files of `bytes` bytes before it): the new counts, and
/// whether the solid-block mode closes the folder. Counts that would pass
/// the largest `u64` are refused.
pub open spec fn spec_account(files: u64, bytes: u64, size: u64, solid: SolidMode) -> Result<(u64, u64, bool), R7zError> {
    if files + 1 > u64::MAX || bytes + size > u64::MAX {
        Err(R7zError::Parse)
    } else {
        let f = (files + 1) as u64;
        let b = (bytes + size) as u64;
        let close = match solid {
            SolidMode::Solid => false,
            SolidMode::NonSolid => true,
            SolidMode::Limit { max_files, max_bytes } => (max_files matches Some(n) && f >= n) || (
            max_bytes matches Some(n) && b >= n),
        };
        Ok((f, b, close))
    }
}

/// Builds an archive entry by entry. Every entry goes into the current
/// folder; [`new_folder`](ArchiveWriter::new_folder) closes it, and so do
/// the solid-block limits of the options.
pub struct ArchiveWriter {
    entries: Vec<WriteEntry>,
    options: ArchiveOptions,
    current_folder: usize,
    current_folder_files: u64,
    current_folder_bytes: u64,
}

impl ArchiveWriter {
    /// The current folder is at most the number of entries, and no entry
    /// is in a folder past its own position.
    pub closed spec fn wf(&self) -> bool {
        &&& self.current_folder <= self.entries@.len()
        &&& forall|i: int| 0 <= i < self.entries@.len() ==> (#[trigger] self.entries@[i]).folder_id <= i
    }

    /// The entries recorded so far.
    pub closed spec fn pending(&self) -> Seq<WriteEntry> {
        self.entries@
    }

    /// The options the archive is written with.
    pub closed spec fn opts(&self) -> ArchiveOptions {
        self.options
    }

    /// The folder new entries go into.
    pub closed spec fn folder(&self) -> nat {
        self.current_folder as nat
    }

    /// How many files with data the current folder holds.
    pub closed spec fn folder_files(&self) -> u64 {
        self.current_folder_files
    }

    /// How many bytes the current folder holds.
    pub closed spec fn folder_bytes(&self) -> u64 {
        self.current_folder_bytes
    }

    /// A writer with no entries, once `options` are found valid.
    pub fn new(options: ArchiveOptions) -> (r: Result<Self, R7zError>)
        ensures
            match spec_validate_archive(options) {
                Err(e) => r == Err::<Self, R7zError>(e),
                Ok(_) => r matches Ok(w) && w.wf() && w.pending() == Seq::<WriteEntry>::empty() && w.opts() == options
                    && w.folder() == 0 && w.folder_files() == 0 && w.folder_bytes() == 0,
            },
    {
        validate_archive_options(&options)?;
        Ok(ArchiveWriter {
            entries: Vec::new(),
            options,
            current_folder: 0,
            current_folder_files: 0,
            current_folder_bytes: 0,
        })
    }

    /// A writer with the default options.
    pub fn new_default() -> (r: Result<Self, R7zError>)
        ensures
            r is Ok,
            r matches Ok(w) ==> w.folder_files() == 0 && w.folder_bytes() == 0,
            r matches Ok(w) ==> w.wf() && w.pending() == Seq::<WriteEntry>::empty() && w.folder() == 0 && w.opts().codec
                == Codec::Lzma2 && w.opts().encryption is None && crate::write::model::is_default_compression(
                w.opts().compression,
            ),
    {
        Self::new(ArchiveOptions::default())
    }

    /// The same writer with the codec `codec`.
    #[must_use]
    pub fn compression(self, codec: Codec) -> (r: Self)
        requires
            self.wf(),
        ensures
            r.wf(),
            r.pending() == self.pending(),
            r.opts() == (ArchiveOptions { codec, ..self.opts() }),
            r.folder() == self.folder(),
            r.folder_files() == self.folder_files(),
            r.folder_bytes() == self.folder_bytes(),
    {
        let ArchiveWriter { entries, options, current_folder, current_folder_files, current_folder_bytes } = self;
        let mut options = options;
        options.codec = codec;
        ArchiveWriter { entries, options, current_folder, current_folder_files, current_folder_bytes }
    }

    fn record(&mut self, name: &str, kind: EntryKind, meta: EntryMeta, data: &[u8])
        requires
            old(self).wf(),
        ensures
            final(self).wf(),
            final(self).pending().drop_last() == old(self).pending(),
            final(self).pending().len() == old(self).pending().len() + 1,
            entry_is(
                WriteEntry { folder_id: 0, ..final(self).pending().last() },
                name@,
                kind,
                meta,
                non_empty(data@),
            ),
            final(self).pending().last().folder_id == old(self).folder(),
            final(self).opts() == old(self).opts(),
            final(self).folder() == old(self).folder(),
            final(self).folder_files() == old(self).folder_files(),
            final(self).folder_bytes() == old(self).folder_bytes(),
    {
        let owned: Option<Vec<u8>> = if data.len() == 0 {
            None
        } else {
            Some(vstd::slice::slice_to_vec(data))
        };
        let e = WriteEntry {
            name: name.to_owned(),
            kind,
            meta,
            has_stream: data.len() > 0,
            data: owned,
            folder_id: self.current_folder,
        };
        self.entries.push(e);
        proof {
            assert(self.entries@.drop_last() =~= old(self).entries@);
        }
    }

    /// Closes the current folder when it holds data; the next entries go
    /// into a new one.
    pub fn new_folder(&mut self) -> (r: Result<(), R7zError>)
        requires
            old(self).wf(),
        ensures
            final(self).wf(),
            r is Ok,
            final(self).pending() == old(self).pending(),
            final(self).opts() == old(self).opts(),
            final(self).folder() == next_folder(old(self).pending(), old(self).folder()),
            final(self).folder_files() == 0,
            final(self).folder_bytes() == 0,
    {
        let mut found = false;
        let mut i: usize = 0;
        while i < self.entries.len()
            invariant
                i <= self.entries@.len(),
                found == exists|k: int|
                    0 <= k < i && (#[trigger] self.entries@[k]).folder_id == self.current_folder
                        && self.entries@[k].has_stream,
            decreases self.entries@.len() - i,
        {
            if self.entries[i].folder_id == self.current_folder && self.entries[i].has_stream {
                found = true;
            }
            i = i + 1;
        }
        if found {
            proof {
                let k = choose|k: int|
                    0 <= k < self.entries@.len() && (#[trigger] self.entries@[k]).folder_id == self.current_folder
                        && self.entries@[k].has_stream;
                assert(self.entries@[k].folder_id <= k);
            }
            self.current_folder = self.current_folder + 1;
        }
        self.current_folder_files = 0;
        self.current_folder_bytes = 0;
        Ok(())
    }

    /// Adds a file. A file with data joins the current folder, which the
    /// solid-block mode may then close.
    pub fn append_file(&mut self, name: &str, data: &[u8], meta: EntryMeta) -> (r: Result<(), R7zError>)
        requires
            old(self).wf(),
        ensures
            final(self).wf(),
            final(self).pending().drop_last() == old(self).pending(),
            final(self).pending().len() == old(self).pending().len() + 1,
            entry_is(
                WriteEntry { folder_id: 0, ..final(self).pending().last() },
                name@,
                EntryKind::File,
                meta,
                non_empty(data@),
            ),
            final(self).pending().last().folder_id == old(self).folder(),
            final(self).opts() == old(self).opts(),
            data@.len() == 0 ==> r is Ok && final(self).folder() == old(self).folder() && final(self).folder_files()
                == old(self).folder_files() && final(self).folder_bytes() == old(self).folder_bytes(),
            data@.len() > 0 ==> match spec_account(
                old(self).folder_files(),
                old(self).folder_bytes(),
                data@.len() as u64,
                old(self).opts().compression.solid,
            ) {
                Err(e) => r == Err::<(), R7zError>(e),
                Ok((f, b, close)) => r is Ok && if close {
                    final(self).folder() == old(self).folder() + 1 && final(self).folder_files() == 0
                        && final(self).folder_bytes() == 0
                } else {
                    final(self).folder() == old(self).folder() && final(self).folder_files() == f
                        && final(self).folder_bytes() == b
                },
            },
    {
        self.record(name, EntryKind::File, meta, data);
        if data.len() == 0 {
            return Ok(());
        }
        let size = data.len() as u64;
        let files = match self.current_folder_files.checked_add(1) {
            Some(f) => f,
            None => {
                return Err(R7zError::Parse);
            },
        };
        self.current_folder_files = files;
        let bytes = match self.current_folder_bytes.checked_add(size) {
            Some(b) => b,
            None => {
                return Err(R7zError::Parse);
            },
        };
        self.current_folder_bytes = bytes;
        let close = match &self.options.compression.solid {
            SolidMode::Solid => false,
            SolidMode::NonSolid => true,
            SolidMode::Limit { max_files, max_bytes } => {
                let files_hit = match max_files {
                    Some(n) => files >= *n,
                    None => false,
                };
                let bytes_hit = match max_bytes {
                    Some(n) => bytes >= *n,
                    None => false,
                };
                files_hit || bytes_hit
            },
        };
        if close {
            proof {
                let k = (self.entries@.len() - 1) as int;
                assert(self.entries@[k].folder_id == self.current_folder && self.entries@[k].has_stream);
                assert(folder_has_stream(self.entries@, self.current_folder as nat));
            }
            self.new_folder()
        } else {
            Ok(())
        }
    }

    /// Adds a file with default metadata.
    pub fn append(&mut self, name: &str, data: &[u8]) -> (r: Result<(), R7zError>)
        requires
            old(self).wf(),
        ensures
            final(self).wf(),
            final(self).pending().drop_last() == old(self).pending(),
            final(self).pending().len() == old(self).pending().len() + 1,
            entry_is(
                WriteEntry { folder_id: 0, ..final(self).pending().last() },
                name@,
                EntryKind::File,
                meta_with_attributes(None),
                non_empty(data@),
            ),
            final(self).pending().last().folder_id == old(self).folder(),
            final(self).opts() == old(self).opts(),
            data@.len() == 0 ==> r is Ok,
            data@.len() > 0 ==> (spec_account(
                old(self).folder_files(),
                old(self).folder_bytes(),
                data@.len() as u64,
                old(self).opts().compression.solid,
            ) is Ok <==> r is Ok),
    {
        self.append_file(name, data, EntryMeta::default())
    }

    /// Adds a file with the given metadata (as `append_file`).
    pub fn append_entry(&mut self, name: &str, data: &[u8], meta: EntryMeta) -> (r: Result<(), R7zError>)
        requires
            old(self).wf(),
        ensures
            final(self).wf(),
            final(self).pending().drop_last() == old(self).pending(),
            final(self).pending().len() == old(self).pending().len() + 1,
            entry_is(
                WriteEntry { folder_id: 0, ..final(self).pending().last() },
                name@,
                EntryKind::File,
                meta,
                non_empty(data@),
            ),
            final(self).pending().last().folder_id == old(self).folder(),
            data@.len() == 0 ==> r is Ok,
            data@.len() > 0 ==> (spec_account(
                old(self).folder_files(),
                old(self).folder_bytes(),
                data@.len() as u64,
                old(self).opts().compression.solid,
            ) is Ok <==> r is Ok),
    {
        self.append_file(name, data, meta)
    }

    /// Adds the file `entry` with its data; only file entries carry data.
    pub fn append_archive_entry(&mut self, entry: ArchiveEntry, data: &[u8]) -> (r: Result<(), R7zError>)
        requires
            old(self).wf(),
        ensures
            final(self).wf(),
            entry.kind != EntryKind::File ==> r == Err::<(), R7zError>(
                R7zError::InvalidOptions("only file entries can have stream data"),
            ) && final(self).pending() == old(self).pending(),
            entry.kind == EntryKind::File ==> {
                &&& final(self).pending().drop_last() == old(self).pending()
                &&& final(self).pending().len() == old(self).pending().len() + 1
                &&& entry_is(
                    WriteEntry { folder_id: 0, ..final(self).pending().last() },
                    entry.name@,
                    EntryKind::File,
                    entry.meta,
                    non_empty(data@),
                )
            },
    {
        if entry.kind != EntryKind::File {
            return Err(R7zError::InvalidOptions("only file entries can have stream data"));
        }
        self.append_file(entry.name.as_str(), data, entry.meta)
    }

    /// Adds a symbolic link: a file holding the target, with the link's
    /// Unix mode when the metadata has no attributes.
    pub fn append_symlink(&mut self, name: &str, target: &str, meta: EntryMeta) -> (r: Result<(), R7zError>)
        requires
            old(self).wf(),
        ensures
            final(self).wf(),
            final(self).pending().drop_last() == old(self).pending(),
            final(self).pending().len() == old(self).pending().len() + 1,
            entry_is(
                WriteEntry { folder_id: 0, ..final(self).pending().last() },
                name@,
                EntryKind::File,
                if meta.attributes is None {
                    EntryMeta { attributes: Some((SYMLINK_UNIX_MODE << 16u32) | FILE_ATTRIBUTE_ARCHIVE), ..meta }
                } else {
                    meta
                },
                non_empty(target.spec_bytes()),
            ),
    {
        self.append_file(name, target.as_bytes(), meta.with_symlink_default())
    }

    /// Adds an empty file.
    pub fn append_empty_file(&mut self, name: &str, meta: EntryMeta) -> (r: Result<(), R7zError>)
        requires
            old(self).wf(),
        ensures
            final(self).wf(),
            r is Ok,
            final(self).pending().drop_last() == old(self).pending(),
            final(self).pending().len() == old(self).pending().len() + 1,
            entry_is(WriteEntry { folder_id: 0, ..final(self).pending().last() }, name@, EntryKind::File, meta, None),
            final(self).pending().last().folder_id == old(self).folder(),
            final(self).folder() == old(self).folder(),
    {
        self.record(name, EntryKind::File, meta, &[]);
        Ok(())
    }

    /// Adds a directory.
    pub fn append_directory(&mut self, name: &str, meta: EntryMeta) -> (r: Result<(), R7zError>)
        requires
            old(self).wf(),
        ensures
            final(self).wf(),
            r is Ok,
            final(self).pending().drop_last() == old(self).pending(),
            final(self).pending().len() == old(self).pending().len() + 1,
            entry_is(
                WriteEntry { folder_id: 0, ..final(self).pending().last() },
                name@,
                EntryKind::Directory,
                meta,
                None,
            ),
            final(self).pending().last().folder_id == old(self).folder(),
            final(self).folder() == old(self).folder(),
    {
        self.record(name, EntryKind::Directory, meta, &[]);
        Ok(())
    }

    /// Adds an anti-item (a deletion marker).
    pub fn append_anti_item(&mut self, name: &str, meta: EntryMeta) -> (r: Result<(), R7zError>)
        requires
            old(self).wf(),
        ensures
            final(self).wf(),
            r is Ok,
            final(self).pending().drop_last() == old(self).pending(),
            final(self).pending().len() == old(self).pending().len() + 1,
            entry_is(WriteEntry { folder_id: 0, ..final(self).pending().last() }, name@, EntryKind::Anti, meta, None),
            final(self).pending().last().folder_id == old(self).folder(),
            final(self).folder() == old(self).folder(),
    {
        self.record(name, EntryKind::Anti, meta, &[]);
        Ok(())
    }

    /// Adds the entry `entry` without data, by its kind.
    pub fn append_empty_entry(&mut self, entry: ArchiveEntry) -> (r: Result<(), R7zError>)
        requires
            old(self).wf(),
        ensures
            final(self).wf(),
            r is Ok,
            final(self).pending().drop_last() == old(self).pending(),
            final(self).pending().len() == old(self).pending().len() + 1,
            entry_is(
                WriteEntry { folder_id: 0, ..final(self).pending().last() },
                entry.name@,
                entry.kind,
                entry.meta,
                None,
            ),
            final(self).folder() == old(self).folder(),
    {
        match entry.kind {
            EntryKind::File => self.append_empty_file(entry.name.as_str(), entry.meta),
            EntryKind::Directory => self.append_directory(entry.name.as_str(), entry.meta),
            EntryKind::Anti => self.append_anti_item(entry.name.as_str(), entry.meta),
        }
    }

    /// Encodes the archive of the recorded entries, in their folders.
    pub fn finish(self) -> (r: Result<Vec<u8>, R7zError>)
        requires
            crate::write::encode::encoder_dict_fits(self.opts()),
            self.wf(),
        ensures
            self.pending().len() >= (usize::MAX - 64) / 16 ==> r == Err::<Vec<u8>, R7zError>(
                R7zError::LimitExceeded("too many entries"),
            ),
            self.pending().len() < (usize::MAX - 64) / 16 ==> (spec_validate_archive(self.opts()) matches Err(e)
                ==> r == Err::<Vec<u8>, R7zError>(e)),
            r matches Ok(a) ==> a@.len() >= 32 && a@.subrange(0, 6) == seq![0x37u8, 0x7au8, 0xbcu8, 0xafu8, 0x27u8, 0x1cu8],
            self.pending().len() < (usize::MAX - 64) / 16 && spec_validate_archive(self.opts()) is Ok
                && !spec_should_encode(self.opts(), self.pending().len()) && no_streams(self.pending())
                && crate::write::header::spec_name_data(self.pending()).len() < u64::MAX ==> ({
                let h = crate::write::header::spec_header_bytes(self.pending(), Seq::<CompletedFolder>::empty());
                r matches Ok(a) && a@ == spec_signature_bytes(0, h) + h
            }),
            r matches Ok(a) ==> crate::write::encode::built_archive(a@, self.pending(), self.opts()),
            self.pending().len() < (usize::MAX - 64) / 16 && spec_validate_archive(self.opts()) is Ok
                && self.opts().encryption is None && crate::write::encode::folders_encodable(self.pending(), self.opts())
                && crate::write::header::spec_name_data(self.pending()).len() < u64::MAX ==> (r is Ok || (
            spec_should_encode(self.opts(), self.pending().len()) && crate::write::encode::header_refused(
                self.pending(),
                self.opts(),
            ))),
            self.pending().len() < (usize::MAX - 64) / 16 && spec_validate_archive(self.opts()) is Ok
                && self.opts().encryption is Some && crate::write::encode::folders_encodable(self.pending(), self.opts())
                && crate::write::header::spec_name_data(self.pending()).len() < u64::MAX ==> (r is Ok || r == Err::<
                Vec<u8>,
                R7zError,
            >(R7zError::Parse) || (spec_should_encode(self.opts(), self.pending().len()) && r == Err::<Vec<u8>, R7zError>(
                R7zError::Decompression,
            ))),
    {
        if self.entries.len() >= (usize::MAX - 64) / 16 {
            return Err(R7zError::LimitExceeded("too many entries"));
        }
        build_archive(self.entries.as_slice(), &self.options)
    }
}

/// The writer entries `es` are the named files `items`, in order: each a
/// file of that name, with that data (none when it is empty) and default
/// metadata, in whichever folder the writer put it.
pub open spec fn streamed_entries(es: Seq<WriteEntry>, items: Seq<(String, Vec<u8>)>) -> bool {
    &&& es.len() == items.len()
    &&& forall|k: int|
        0 <= k < items.len() ==> entry_is(
            WriteEntry { folder_id: 0, ..#[trigger] es[k] },
            items[k].0@,
            EntryKind::File,
            meta_with_attributes(None),
            non_empty(items[k].1@),
        )
}

/// An archive of the named files, each with its data, written one after
/// another with `options`.
pub fn build_streaming_with_options(entries: Vec<(String, Vec<u8>)>, options: ArchiveOptions) -> (r: Result<
    Vec<u8>,
    R7zError,
>)
    requires
        crate::write::encode::encoder_dict_fits(options),
    ensures
        spec_validate_archive(options) matches Err(e) ==> r == Err::<Vec<u8>, R7zError>(e),
        r matches Ok(a) ==> a@.len() >= 32 && a@.subrange(0, 6) == seq![0x37u8, 0x7au8, 0xbcu8, 0xafu8, 0x27u8, 0x1cu8],
        entries@.len() == 0 && spec_validate_archive(options) is Ok && !spec_should_encode(options, 0) ==> (r matches Ok(a)
            && a@ == empty_archive_bytes()),
        r matches Ok(a) ==> exists|es: Seq<WriteEntry>|
            streamed_entries(es, entries@) && #[trigger] crate::write::encode::built_archive(a@, es, options),
{
    let ghost opts = options;
    let ghost items = entries@;
    let mut writer = ArchiveWriter::new(options)?;
    for item in it: entries.into_iter()
        invariant
            it.seq() == items,
            writer.pending().len() == it.index(),
            writer.wf(),
            writer.opts() == opts,
            opts == options,
            spec_validate_archive(opts) is Ok,
            crate::write::encode::encoder_dict_fits(opts),
            streamed_entries(writer.pending(), items.take(it.index() as int)),
    {
        let ghost before = writer.pending();
        let ghost k = it.index();
        let (name, data) = item;
        writer.append(name.as_str(), data.as_slice())?;
        proof {
            assert(items.take(k + 1).drop_last() =~= items.take(k as int));
            assert(items.take(k + 1)[k as int] == items[k as int]);
            assert forall|q: int| 0 <= q < k + 1 implies entry_is(
                WriteEntry { folder_id: 0, ..#[trigger] writer.pending()[q] },
                items.take(k + 1)[q].0@,
                EntryKind::File,
                meta_with_attributes(None),
                non_empty(items.take(k + 1)[q].1@),
            ) by {
                if q < k {
                    assert(writer.pending()[q] == before[q]);
                    assert(items.take(k + 1)[q] == items.take(k as int)[q]);
                }
            }
        }
    }
    proof {
        assert(items.take(items.len() as int) =~= items);
    }
    proof {
        if items.len() == 0 {
            assert(writer.pending() =~= Seq::<WriteEntry>::empty());
            assert(crate::write::header::spec_name_data(writer.pending()) =~= Seq::<u8>::empty());
        }
    }
    let ghost es = writer.pending();
    let r = writer.finish();
    proof {
        if r is Ok {
            assert(streamed_entries(es, items));
        }
    }
    r
}

/// The bytes of an archive with no entries: the signature header, then
/// the plain header of nothing.
pub open spec fn empty_archive_bytes() -> Seq<u8> {
    let h = crate::write::header::spec_header_bytes(Seq::<WriteEntry>::empty(), Seq::<CompletedFolder>::empty());
    spec_signature_bytes(0, h) + h
}

/// An archive of the named files with the default options.
pub fn build_streaming(entries: Vec<(String, Vec<u8>)>) -> (r: Result<Vec<u8>, R7zError>)
    ensures
        entries@.len() == 0 ==> (r matches Ok(a) && a@ == empty_archive_bytes()),
        r matches Ok(a) ==> a@.len() >= 32 && a@.subrange(0, 6) == seq![0x37u8, 0x7au8, 0xbcu8, 0xafu8, 0x27u8, 0x1cu8],
        r matches Ok(a) ==> exists|es: Seq<WriteEntry>, o: ArchiveOptions|
            o.codec == Codec::Lzma2 && streamed_entries(es, entries@) && #[trigger] crate::write::encode::built_archive(
                a@,
                es,
                o,
            ),
{
    build_streaming_with_options(entries, ArchiveOptions::default())
}

/// An archive of the named files, for a sink that cannot seek: the options
/// are checked first, then the archive is written as by
/// [`build_streaming_with_options`].
pub fn build_streaming_to_writer(entries: Vec<(String, Vec<u8>)>, options: ArchiveOptions) -> (r: Result<
    Vec<u8>,
    R7zError,
>)
    requires
        crate::write::encode::encoder_dict_fits(options),
    ensures
        spec_validate_archive(options) matches Err(e) ==> r == Err::<Vec<u8>, R7zError>(e),
        r matches Ok(a) ==> a@.len() >= 32 && a@.subrange(0, 6) == seq![0x37u8, 0x7au8, 0xbcu8, 0xafu8, 0x27u8, 0x1cu8],
        entries@.len() == 0 && spec_validate_archive(options) is Ok && !spec_should_encode(options, 0) ==> (r matches Ok(a)
            && a@ == empty_archive_bytes()),
        r matches Ok(a) ==> exists|es: Seq<WriteEntry>|
            streamed_entries(es, entries@) && #[trigger] crate::write::encode::built_archive(a@, es, options),
{
    validate_archive_options(&options)?;
    build_streaming_with_options(entries, options)
}

/// The pieces of a split archive of `total` bytes: each volume takes the
/// next size of `sizes`, the last size repeating; an empty archive still
/// makes one (empty) volume.
pub open spec fn split_pieces(total: nat, sizes: Seq<u64>) -> Seq<(nat, nat)> {
    if total == 0 {
        seq![(0nat, 0nat)]
    } else {
        crate::commands::volume_pieces(total, sizes, 0, 0)
    }
}

/// The volumes of the archive `bytes` split by `sizes`.
pub fn split_volumes(bytes: &Vec<u8>, sizes: &Vec<u64>) -> (r: Vec<Vec<u8>>)
    requires
        sizes@.len() > 0,
        forall|k: int| 0 <= k < sizes@.len() ==> sizes@[k] > 0,
    ensures
        r@.len() == split_pieces(bytes@.len(), sizes@).len(),
        forall|p: int|
            0 <= p < r@.len() ==> (#[trigger] r@[p])@ == bytes@.subrange(
                split_pieces(bytes@.len(), sizes@)[p].0 as int,
                split_pieces(bytes@.len(), sizes@)[p].1 as int,
            ),
{
    let mut out: Vec<Vec<u8>> = Vec::new();
    if bytes.len() == 0 {
        out.push(Vec::new());
        proof {
            assert(out@[0]@ =~= bytes@.subrange(0, 0));
        }
        return out;
    }
    let bounds = match crate::commands::volume_bounds(bytes.len(), sizes) {
        Ok(b) => b,
        Err(_) => {
            return out;
        },
    };
    proof {
        crate::commands::lemma_volume_pieces_bounds(bytes@.len(), sizes@, 0, 0);
    }
    let mut k: usize = 0;
    while k < bounds.len()
        invariant
            k <= bounds@.len(),
            bytes@.len() > 0,
            bounds@.len() == split_pieces(bytes@.len(), sizes@).len(),
            forall|p: int|
                0 <= p < bounds@.len() ==> (#[trigger] bounds@[p]).0 as nat == split_pieces(bytes@.len(), sizes@)[p].0
                    && bounds@[p].1 as nat == split_pieces(bytes@.len(), sizes@)[p].1,
            forall|p: int| 0 <= p < bounds@.len() ==> (#[trigger] bounds@[p]).0 <= bounds@[p].1 <= bytes@.len(),
            out@.len() == k,
            forall|p: int|
                0 <= p < k ==> (#[trigger] out@[p])@ == bytes@.subrange(
                    split_pieces(bytes@.len(), sizes@)[p].0 as int,
                    split_pieces(bytes@.len(), sizes@)[p].1 as int,
                ),
        decreases bounds@.len() - k,
    {
        let (s, e) = bounds[k];
        let piece = vstd::slice::slice_to_vec(vstd::slice::slice_subrange(bytes.as_slice(), s, e));
        out.push(piece);
        k = k + 1;
    }
    out
}

/// A split archive of the named files: its volumes, by the sizes of
/// `volume_options` (at least one is needed).
pub fn build_streaming_volumes(
    entries: Vec<(String, Vec<u8>)>,
    archive_options: ArchiveOptions,
    volume_options: &VolumeOptions,
) -> (r: Result<Vec<Vec<u8>>, R7zError>)
    requires
        crate::write::encode::encoder_dict_fits(archive_options),
        forall|k: int| 0 <= k < volume_options.sizes@.len() ==> volume_options.sizes@[k] > 0,
    ensures
        volume_options.sizes@.len() == 0 ==> r == Err::<Vec<Vec<u8>>, R7zError>(
            R7zError::InvalidOptions("volume options require at least one size"),
        ),
        volume_options.sizes@.len() > 0 ==> (spec_validate_archive(archive_options) matches Err(e) ==> r == Err::<
            Vec<Vec<u8>>,
            R7zError,
        >(e)),
        r matches Ok(vs) ==> vs@.len() > 0 && vs@[0]@.len() > 0,
        r matches Ok(w) ==> split_archive(w@, volume_options.sizes@),
        r matches Ok(w) ==> exists|a: Seq<u8>, es: Seq<WriteEntry>|
            volumes_of(w@, a, volume_options.sizes@) && streamed_entries(es, entries@)
                && #[trigger] crate::write::encode::built_archive(a, es, archive_options),
        volume_options.sizes@.len() > 0 && entries@.len() == 0 && spec_validate_archive(archive_options) is Ok
            && !spec_should_encode(archive_options, 0) ==> (r matches Ok(vs) && volumes_of(
            vs@,
            empty_archive_bytes(),
            volume_options.sizes@,
        )),
{
    if volume_options.sizes.len() == 0 {
        return Err(R7zError::InvalidOptions("volume options require at least one size"));
    }
    let archive = build_streaming_to_writer(entries, archive_options)?;
    let vs = split_volumes(&archive, &volume_options.sizes);
    proof {
        lemma_first_piece(archive@.len(), volume_options.sizes@);
        assert(volumes_of(vs@, archive@, volume_options.sizes@));
        assert(split_archive(vs@, volume_options.sizes@));
    }
    Ok(vs)
}

/// The bytes of `a` over the pieces `ps`, one after another.
pub open spec fn joined(a: Seq<u8>, ps: Seq<(nat, nat)>) -> Seq<u8>
    decreases ps.len(),
{
    if ps.len() == 0 {
        Seq::empty()
    } else {
        a.subrange(ps[0].0 as int, ps[0].1 as int) + joined(a, ps.skip(1))
    }
}

/// `vs` are the volumes of the archive `a` split by `sizes`.
pub open spec fn volumes_of(vs: Seq<Vec<u8>>, a: Seq<u8>, sizes: Seq<u64>) -> bool {
    &&& a.len() >= 32
    &&& a.subrange(0, 6) == seq![0x37u8, 0x7au8, 0xbcu8, 0xafu8, 0x27u8, 0x1cu8]
    &&& vs.len() == split_pieces(a.len(), sizes).len()
    &&& forall|p: int|
        0 <= p < vs.len() ==> (#[trigger] vs[p])@ == a.subrange(
            split_pieces(a.len(), sizes)[p].0 as int,
            split_pieces(a.len(), sizes)[p].1 as int,
        )
}

/// `vs` are the volumes of some archive split by `sizes`.
pub open spec fn split_archive(vs: Seq<Vec<u8>>, sizes: Seq<u64>) -> bool {
    exists|a: Seq<u8>| #[trigger] volumes_of(vs, a, sizes)
}

proof fn lemma_pieces_join(a: Seq<u8>, sizes: Seq<u64>, offset: nat, idx: nat)
    requires
        offset <= a.len(),
        forall|k: int| 0 <= k < sizes.len() ==> sizes[k] > 0,
        sizes.len() > 0,
    ensures
        joined(a, crate::commands::volume_pieces(a.len(), sizes, offset, idx)) == a.subrange(offset as int, a.len() as int),
    decreases a.len() - offset,
{
    let ps = crate::commands::volume_pieces(a.len(), sizes, offset, idx);
    if offset >= a.len() {
        assert(a.subrange(offset as int, a.len() as int) =~= Seq::<u8>::empty());
    } else {
        let size = sizes[if idx < sizes.len() { idx as int } else { sizes.len() - 1 }];
        let end: int = if offset + size < a.len() { offset + size } else { a.len() as int };
        lemma_pieces_join(a, sizes, end as nat, idx + 1);
        let rest = crate::commands::volume_pieces(a.len(), sizes, end as nat, idx + 1);
        assert(ps == seq![(offset, end as nat)] + rest);
        assert(ps.skip(1) =~= rest);
        assert(a.subrange(offset as int, end) + a.subrange(end, a.len() as int) =~= a.subrange(
            offset as int,
            a.len() as int,
        ));
    }
}

/// The volumes of a split archive, one after another, are the archive: the
/// pieces cover its bytes in order, without gaps or overlaps.
pub proof fn lemma_volumes_join(a: Seq<u8>, sizes: Seq<u64>)
    requires
        sizes.len() > 0,
        forall|k: int| 0 <= k < sizes.len() ==> sizes[k] > 0,
    ensures
        joined(a, split_pieces(a.len(), sizes)) == a,
{
    if a.len() == 0 {
        let ps = split_pieces(a.len(), sizes);
        assert(ps.skip(1) =~= Seq::<(nat, nat)>::empty());
        assert(joined(a, ps.skip(1)) == Seq::<u8>::empty());
        assert(a.subrange(0, 0) + Seq::<u8>::empty() =~= a);
    } else {
        lemma_pieces_join(a, sizes, 0, 0);
        assert(a.subrange(0, a.len() as int) =~= a);
    }
}

proof fn lemma_first_piece(total: nat, sizes: Seq<u64>)
    requires
        total > 0,
        sizes.len() > 0,
        forall|k: int| 0 <= k < sizes.len() ==> sizes[k] > 0,
    ensures
        split_pieces(total, sizes).len() > 0,
        split_pieces(total, sizes)[0].1 > split_pieces(total, sizes)[0].0,
{
}

} // verus!
