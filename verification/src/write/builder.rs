//! The in-memory archive builder and the assignment of files to folders.
use vstd::prelude::*;
use crate::error::R7zError;
use crate::write::model::{ArchiveEntry, ArchiveOptions, Codec, EntryKind, EntryMeta, SolidMode, WriteEntry};
use crate::write::encode::build_archive;
use crate::write::header::push_bytes;

verus! {

/// Folder-filling state: the current folder id, and how many files and bytes
/// it holds so far.
pub type FolderState = (usize, u64, u64);

/// One data stream of `size` bytes arrives: the folder it goes into and the
/// state after it, or the overflow error.
pub open spec fn spec_solid_step(solid: SolidMode, st: FolderState, size: u64) -> Result<(usize, FolderState), R7zError> {
    let (fid, files, bytes) = st;
    let exceed: Result<bool, R7zError> = match solid {
        SolidMode::Solid | SolidMode::NonSolid => Ok(false),
        SolidMode::Limit { max_files, max_bytes } => {
            if files + 1 > u64::MAX || bytes + size > u64::MAX {
                Err(R7zError::Parse)
            } else {
                let files_hit = max_files matches Some(n) && files > 0 && files + 1 > n;
                let bytes_hit = max_bytes matches Some(n) && files > 0 && bytes + size > n;
                Ok(files_hit || bytes_hit)
            }
        },
    };
    match exceed {
        Err(e) => Err(e),
        Ok(ex) => {
            if ex && fid + 1 > usize::MAX {
                Err(R7zError::Parse)
            } else {
                let (fid1, files1, bytes1) = if ex { ((fid + 1) as usize, 0u64, 0u64) } else { (fid, files, bytes) };
                if files1 + 1 > u64::MAX || bytes1 + size > u64::MAX {
                    Err(R7zError::Parse)
                } else if solid == SolidMode::NonSolid {
                    if fid1 + 1 > usize::MAX {
                        Err(R7zError::Parse)
                    } else {
                        Ok((fid1, ((fid1 + 1) as usize, 0u64, 0u64)))
                    }
                } else {
                    Ok((fid1, (fid1, (files1 + 1) as u64, (bytes1 + size) as u64)))
                }
            }
        },
    }
}

/// The folder ids given to `es` in order (entries without data get the id
/// of the folder being filled), with the final state; the error of the
/// first entry that fails.
pub open spec fn spec_solid_plan(es: Seq<WriteEntry>, solid: SolidMode) -> Result<(Seq<usize>, FolderState), R7zError>
    decreases es.len(),
{
    if es.len() == 0 {
        Ok((Seq::empty(), (0usize, 0u64, 0u64)))
    } else {
        match spec_solid_plan(es.drop_last(), solid) {
            Err(e) => Err(e),
            Ok((ids, st)) => {
                let e = es.last();
                if !e.has_stream {
                    Ok((ids.push(st.0), st))
                } else {
                    match e.data {
                        None => Err(R7zError::Parse),
                        Some(d) => match spec_solid_step(solid, st, d@.len() as u64) {
                            Err(e) => Err(e),
                            Ok((id, st2)) => Ok((ids.push(id), st2)),
                        },
                    }
                }
            },
        }
    }
}

/// An error on a prefix is the error of the whole plan.
proof fn lemma_plan_err_prefix(es: Seq<WriteEntry>, solid: SolidMode, j: int)
    requires
        0 <= j <= es.len(),
        spec_solid_plan(es.take(j), solid) is Err,
    ensures
        spec_solid_plan(es, solid) == spec_solid_plan(es.take(j), solid),
    decreases es.len(),
{
    if j < es.len() {
        assert(es.drop_last().take(j) =~= es.take(j));
        lemma_plan_err_prefix(es.drop_last(), solid, j);
    } else {
        assert(es.take(j) =~= es);
    }
}

/// How many of the first `k` entries of `es` have data in folder `f`, by
/// the folder ids `ids`.
pub open spec fn folder_count(es: Seq<WriteEntry>, ids: Seq<usize>, f: usize, k: nat) -> nat
    decreases k,
{
    if k == 0 {
        0
    } else {
        folder_count(es, ids, f, (k - 1) as nat) + if es[k - 1].has_stream && ids[k - 1] == f {
            1nat
        } else {
            0nat
        }
    }
}

/// The bytes of data that the first `k` entries of `es` put in folder `f`.
pub open spec fn folder_size(es: Seq<WriteEntry>, ids: Seq<usize>, f: usize, k: nat) -> nat
    decreases k,
{
    if k == 0 {
        0
    } else {
        folder_size(es, ids, f, (k - 1) as nat) + if es[k - 1].has_stream && ids[k - 1] == f {
            match es[k - 1].data {
                Some(d) => d@.len(),
                None => 0,
            }
        } else {
            0nat
        }
    }
}

/// A folder of `cnt` files and `size` bytes keeps the limits, when it holds
/// more than one file.
pub open spec fn within_limits(cnt: nat, size: nat, max_files: Option<u64>, max_bytes: Option<u64>) -> bool {
    cnt >= 2 ==> (max_files matches Some(m) ==> cnt <= m) && (max_bytes matches Some(m) ==> size <= m)
}

proof fn lemma_folder_counts_prefix(es: Seq<WriteEntry>, ids: Seq<usize>, f: usize, k: nat)
    requires
        es.len() > 0,
        ids.len() == es.len(),
        k < es.len(),
    ensures
        folder_count(es, ids, f, k) == folder_count(es.drop_last(), ids.drop_last(), f, k),
        folder_size(es, ids, f, k) == folder_size(es.drop_last(), ids.drop_last(), f, k),
    decreases k,
{
    if k > 0 {
        lemma_folder_counts_prefix(es, ids, f, (k - 1) as nat);
        assert(es.drop_last()[k - 1] == es[k - 1]);
        assert(ids.drop_last()[k - 1] == ids[k - 1]);
    }
}

/// What the plan keeps of the folders made so far with limits: every data
/// entry is in a folder up to the current one, the current folder's file
/// count and bytes are those of the state, and every folder keeps the
/// limits.
pub open spec fn limits_kept(
    es: Seq<WriteEntry>,
    ids: Seq<usize>,
    st: FolderState,
    max_files: Option<u64>,
    max_bytes: Option<u64>,
) -> bool {
    &&& ids.len() == es.len()
    &&& forall|i: int| 0 <= i < es.len() && (#[trigger] es[i]).has_stream ==> ids[i] <= st.0
    &&& folder_count(es, ids, st.0, es.len()) == st.1
    &&& folder_size(es, ids, st.0, es.len()) == st.2
    &&& forall|f: usize| #[trigger] within_limits(
        folder_count(es, ids, f, es.len()),
        folder_size(es, ids, f, es.len()),
        max_files,
        max_bytes,
    )
}

proof fn lemma_folder_count_above(es: Seq<WriteEntry>, ids: Seq<usize>, f: usize, top: usize, k: nat)
    requires
        k <= es.len(),
        ids.len() == es.len(),
        forall|i: int| 0 <= i < es.len() && (#[trigger] es[i]).has_stream ==> ids[i] <= top,
        f > top,
    ensures
        folder_count(es, ids, f, k) == 0,
        folder_size(es, ids, f, k) == 0,
    decreases k,
{
    if k > 0 {
        lemma_folder_count_above(es, ids, f, top, (k - 1) as nat);
    }
}

#[verifier::rlimit(80)]
proof fn lemma_plan_keeps_limits(es: Seq<WriteEntry>, max_files: Option<u64>, max_bytes: Option<u64>)
    ensures
        spec_solid_plan(es, SolidMode::Limit { max_files, max_bytes }) matches Ok((ids, st)) ==> limits_kept(
            es,
            ids,
            st,
            max_files,
            max_bytes,
        ),
    decreases es.len(),
{
    let solid = SolidMode::Limit { max_files, max_bytes };
    if es.len() == 0 {
        assert forall|f: usize| #[trigger] within_limits(
            folder_count(es, Seq::<usize>::empty(), f, 0),
            folder_size(es, Seq::<usize>::empty(), f, 0),
            max_files,
            max_bytes,
        ) by {}
    } else {
        let p = es.drop_last();
        let n = es.len();
        lemma_plan_keeps_limits(p, max_files, max_bytes);
        match spec_solid_plan(p, solid) {
            Err(_) => {},
            Ok((pids, pst)) => {
                let e = es.last();
                match spec_solid_plan(es, solid) {
                    Err(_) => {},
                    Ok((ids, st)) => {
                        assert(ids.drop_last() =~= pids);
                        assert forall|f: usize| #[trigger] folder_count(es, ids, f, (n - 1) as nat) == folder_count(
                            p,
                            pids,
                            f,
                            (n - 1) as nat,
                        ) && folder_size(es, ids, f, (n - 1) as nat) == folder_size(p, pids, f, (n - 1) as nat) by {
                            lemma_folder_counts_prefix(es, ids, f, (n - 1) as nat);
                        }
                        if !e.has_stream {
                            assert(st == pst);
                            assert forall|f: usize| #[trigger] within_limits(
                                folder_count(es, ids, f, n),
                                folder_size(es, ids, f, n),
                                max_files,
                                max_bytes,
                            ) by {
                                lemma_folder_counts_prefix(es, ids, f, (n - 1) as nat);
                                assert(within_limits(
                                    folder_count(p, pids, f, p.len()),
                                    folder_size(p, pids, f, p.len()),
                                    max_files,
                                    max_bytes,
                                ));
                            }
                            lemma_folder_counts_prefix(es, ids, st.0, (n - 1) as nat);
                            assert forall|i: int| 0 <= i < es.len() && (#[trigger] es[i]).has_stream implies ids[i]
                                <= st.0 by {
                                assert(p[i] == es[i]);
                            }
                        } else {
                            let d = e.data->Some_0;
                            assert(d.len() == d@.len());
                            let size = d@.len() as u64;
                            let (fid, files, bytes) = pst;
                            let id = ids[n - 1];
                            assert(spec_solid_step(solid, pst, size) == Ok::<(usize, FolderState), R7zError>((id, st)));
                            let files_hit = max_files matches Some(m) && files > 0 && files + 1 > m;
                            let bytes_hit = max_bytes matches Some(m) && files > 0 && bytes + size > m;
                            let ex = files_hit || bytes_hit;
                            assert(id == (if ex { fid + 1 } else { fid as int }));
                            assert(id == st.0);
                            if ex {
                                lemma_folder_count_above(p, pids, id, fid, p.len());
                                assert(st == ((fid + 1) as usize, 1u64, size));
                            } else {
                                assert(st == (fid, (files + 1) as u64, (bytes + size) as u64));
                            }
                            lemma_folder_counts_prefix(es, ids, id, (n - 1) as nat);
                            assert(folder_count(es, ids, id, n) == folder_count(p, pids, id, p.len()) + 1);
                            assert(folder_size(es, ids, id, n) == folder_size(p, pids, id, p.len()) + size);
                            assert forall|f: usize| #[trigger] within_limits(
                                folder_count(es, ids, f, n),
                                folder_size(es, ids, f, n),
                                max_files,
                                max_bytes,
                            ) by {
                                lemma_folder_counts_prefix(es, ids, f, (n - 1) as nat);
                                assert(within_limits(
                                    folder_count(p, pids, f, p.len()),
                                    folder_size(p, pids, f, p.len()),
                                    max_files,
                                    max_bytes,
                                ));
                            }
                            assert forall|i: int| 0 <= i < es.len() && (#[trigger] es[i]).has_stream implies ids[i]
                                <= st.0 by {
                                if i < n - 1 {
                                    assert(p[i] == es[i]);
                                }
                            }
                        }
                    },
                }
            },
        }
    }
}

/// With limits on the files or the bytes of a folder, every folder the plan
/// makes that holds more than one file keeps them: at most `max_files`
/// files and at most `max_bytes` bytes of data.
pub proof fn lemma_solid_limits_hold(es: Seq<WriteEntry>, max_files: Option<u64>, max_bytes: Option<u64>, f: usize)
    ensures
        spec_solid_plan(es, SolidMode::Limit { max_files, max_bytes }) matches Ok((ids, _)) ==> within_limits(
            folder_count(es, ids, f, es.len()),
            folder_size(es, ids, f, es.len()),
            max_files,
            max_bytes,
        ),
{
    lemma_plan_keeps_limits(es, max_files, max_bytes);
}

/// Entry `i` starts folder `ids[i] > 0` only when its data would have
/// passed a limit of the folder before it: that folder then holds some
/// file, and one more file or this entry's bytes would have been too many.
pub open spec fn split_needed(
    es: Seq<WriteEntry>,
    ids: Seq<usize>,
    i: int,
    max_files: Option<u64>,
    max_bytes: Option<u64>,
) -> bool {
    (es[i].has_stream && ids[i] > 0 && folder_count(es, ids, ids[i], i as nat) == 0) ==> {
        let f = (ids[i] - 1) as usize;
        let c = folder_count(es, ids, f, i as nat);
        let z = folder_size(es, ids, f, i as nat);
        let d = match es[i].data {
            Some(v) => v@.len(),
            None => 0,
        };
        &&& c >= 1
        &&& (max_files matches Some(m) && c + 1 > m) || (max_bytes matches Some(m) && z + d > m)
    }
}

#[verifier::rlimit(80)]
proof fn lemma_plan_splits_needed(es: Seq<WriteEntry>, max_files: Option<u64>, max_bytes: Option<u64>)
    ensures
        spec_solid_plan(es, SolidMode::Limit { max_files, max_bytes }) matches Ok((ids, st)) ==> (st.0 > 0 ==> st.1 > 0)
            && forall|i: int| 0 <= i < es.len() ==> #[trigger] split_needed(es, ids, i, max_files, max_bytes),
    decreases es.len(),
{
    let solid = SolidMode::Limit { max_files, max_bytes };
    if es.len() > 0 {
        let p = es.drop_last();
        let n = es.len();
        lemma_plan_splits_needed(p, max_files, max_bytes);
        lemma_plan_keeps_limits(p, max_files, max_bytes);
        match spec_solid_plan(p, solid) {
            Err(_) => {},
            Ok((pids, pst)) => {
                match spec_solid_plan(es, solid) {
                    Err(_) => {},
                    Ok((ids, st)) => {
                        let e = es.last();
                        assert(ids.drop_last() =~= pids);
                        assert forall|i: int| 0 <= i < n - 1 implies #[trigger] split_needed(
                            es,
                            ids,
                            i,
                            max_files,
                            max_bytes,
                        ) by {
                            assert(split_needed(p, pids, i, max_files, max_bytes));
                            assert(p[i] == es[i]);
                            assert(pids[i] == ids[i]);
                            lemma_folder_counts_prefix(es, ids, ids[i], i as nat);
                            if ids[i] > 0 {
                                lemma_folder_counts_prefix(es, ids, (ids[i] - 1) as usize, i as nat);
                            }
                        }
                        let i = n - 1;
                        lemma_folder_counts_prefix(es, ids, ids[i], i as nat);
                        if ids[i] > 0 {
                            lemma_folder_counts_prefix(es, ids, (ids[i] - 1) as usize, i as nat);
                        }
                        if e.has_stream {
                            let d = e.data->Some_0;
                            assert(d.len() == d@.len());
                            let size = d@.len() as u64;
                            let (fid, files, bytes) = pst;
                            let id = ids[i];
                            let files_hit = max_files matches Some(m) && files > 0 && files + 1 > m;
                            let bytes_hit = max_bytes matches Some(m) && files > 0 && bytes + size > m;
                            let ex = files_hit || bytes_hit;
                            assert(id == (if ex { fid + 1 } else { fid as int }));
                            if ex {
                                assert(st == ((fid + 1) as usize, 1u64, size));
                            } else {
                                assert(st == (fid, (files + 1) as u64, (bytes + size) as u64));
                            }
                        } else {
                            assert(st == pst);
                        }
                        assert(split_needed(es, ids, i, max_files, max_bytes));
                    },
                }
            },
        }
    }
}

/// With limits, a folder is closed only when needed: an entry whose data
/// opens a new folder would have passed a limit of the folder before it,
/// which holds at least one file.
pub proof fn lemma_solid_splits_only_when_needed(
    es: Seq<WriteEntry>,
    max_files: Option<u64>,
    max_bytes: Option<u64>,
    i: int,
)
    requires
        0 <= i < es.len(),
    ensures
        spec_solid_plan(es, SolidMode::Limit { max_files, max_bytes }) matches Ok((ids, _)) ==> split_needed(
            es,
            ids,
            i,
            max_files,
            max_bytes,
        ),
{
    lemma_plan_splits_needed(es, max_files, max_bytes);
}

/// In solid mode every entry goes into the one folder 0.
pub proof fn lemma_solid_one_folder(es: Seq<WriteEntry>)
    ensures
        spec_solid_plan(es, SolidMode::Solid) matches Ok((ids, st)) ==> ids.len() == es.len() && st.0 == 0 && forall|
            i: int,
        |
            0 <= i < es.len() ==> #[trigger] ids[i] == 0,
    decreases es.len(),
{
    if es.len() > 0 {
        let p = es.drop_last();
        lemma_solid_one_folder(p);
        match spec_solid_plan(p, SolidMode::Solid) {
            Err(_) => {},
            Ok((pids, pst)) => match spec_solid_plan(es, SolidMode::Solid) {
                Err(_) => {},
                Ok((ids, st)) => {
                    let n = es.len();
                    assert(ids.drop_last() =~= pids);
                    if es.last().has_stream {
                        let d = es.last().data->Some_0;
                        assert(spec_solid_step(SolidMode::Solid, pst, d@.len() as u64) == Ok::<
                            (usize, FolderState),
                            R7zError,
                        >((ids[n - 1], st)));
                    }
                    assert forall|i: int| 0 <= i < es.len() implies #[trigger] ids[i] == 0 by {
                        if i < n - 1 {
                            assert(ids.drop_last()[i] == ids[i]);
                        }
                    }
                },
            },
        }
    }
}

/// Without solid blocks every entry with data gets a folder of its own:
/// two entries with data never share one.
pub proof fn lemma_non_solid_own_folders(es: Seq<WriteEntry>)
    ensures
        spec_solid_plan(es, SolidMode::NonSolid) matches Ok((ids, st)) ==> ids.len() == es.len() && (forall|i: int|
            0 <= i < es.len() && (#[trigger] es[i]).has_stream ==> ids[i] < st.0) && forall|i: int, j: int|
            0 <= i < j < es.len() && (#[trigger] es[i]).has_stream && (#[trigger] es[j]).has_stream ==> ids[i] < ids[j],
    decreases es.len(),
{
    if es.len() > 0 {
        let p = es.drop_last();
        lemma_non_solid_own_folders(p);
        match spec_solid_plan(p, SolidMode::NonSolid) {
            Err(_) => {},
            Ok((pids, pst)) => match spec_solid_plan(es, SolidMode::NonSolid) {
                Err(_) => {},
                Ok((ids, st)) => {
                    let n = es.len();
                    assert(ids.drop_last() =~= pids);
                    if es.last().has_stream {
                        let d = es.last().data->Some_0;
                        assert(spec_solid_step(SolidMode::NonSolid, pst, d@.len() as u64) == Ok::<
                            (usize, FolderState),
                            R7zError,
                        >((ids[n - 1], st)));
                        assert(ids[n - 1] == pst.0);
                        assert(st.0 == pst.0 + 1);
                    } else {
                        assert(st == pst);
                    }
                    assert forall|i: int| 0 <= i < es.len() && (#[trigger] es[i]).has_stream implies ids[i] < st.0 by {
                        if i < n - 1 {
                            assert(p[i] == es[i]);
                            assert(ids.drop_last()[i] == ids[i]);
                        }
                    }
                    assert forall|i: int, j: int|
                        0 <= i < j < es.len() && (#[trigger] es[i]).has_stream && (#[trigger] es[j]).has_stream implies ids[i]
                            < ids[j] by {
                        assert(p[i] == es[i]);
                        assert(ids.drop_last()[i] == ids[i]);
                        if j < n - 1 {
                            assert(p[j] == es[j]);
                            assert(ids.drop_last()[j] == ids[j]);
                        }
                    }
                },
            },
        }
    }
}

/// `es` with folder ids `ids`.
pub open spec fn with_folder_ids(es: Seq<WriteEntry>, ids: Seq<usize>) -> Seq<WriteEntry> {
    Seq::new(es.len(), |i: int| WriteEntry { folder_id: ids[i], ..es[i] })
}

fn solid_step(solid: &SolidMode, st: FolderState, size: u64) -> (r: Result<(usize, FolderState), R7zError>)
    ensures
        r == spec_solid_step(*solid, st, size),
{
    let (fid, files, bytes) = st;
    let ex = match solid {
        SolidMode::Solid | SolidMode::NonSolid => false,
        SolidMode::Limit { max_files, max_bytes } => {
            let next_files = files.checked_add(1).ok_or(R7zError::Parse)?;
            let next_bytes = bytes.checked_add(size).ok_or(R7zError::Parse)?;
            let files_hit = match max_files {
                Some(n) => files > 0 && next_files > *n,
                None => false,
            };
            let bytes_hit = match max_bytes {
                Some(n) => files > 0 && next_bytes > *n,
                None => false,
            };
            files_hit || bytes_hit
        },
    };
    let (mut fid1, mut files1, mut bytes1) = (fid, files, bytes);
    if ex {
        fid1 = fid.checked_add(1).ok_or(R7zError::Parse)?;
        files1 = 0;
        bytes1 = 0;
    }
    let id = fid1;
    files1 = files1.checked_add(1).ok_or(R7zError::Parse)?;
    bytes1 = bytes1.checked_add(size).ok_or(R7zError::Parse)?;
    let non_solid = match solid {
        SolidMode::NonSolid => true,
        _ => false,
    };
    if non_solid {
        fid1 = fid1.checked_add(1).ok_or(R7zError::Parse)?;
        files1 = 0;
        bytes1 = 0;
    }
    Ok((id, (fid1, files1, bytes1)))
}

/// Give each entry the folder its data goes into: one folder for all
/// (`Solid`), one per file (`NonSolid`), or a new folder whenever adding a
/// file would pass a limit on the files or bytes of the current one.
pub fn entries_with_solid_folders(entries: Vec<WriteEntry>, solid: &SolidMode) -> (r: Result<Vec<WriteEntry>, R7zError>)
    ensures
        match spec_solid_plan(entries@, *solid) {
            Err(e) => r == Err::<Vec<WriteEntry>, R7zError>(e),
            Ok((ids, _)) => r matches Ok(v) && v@ == with_folder_ids(entries@, ids),
        },
{
    let mut out = entries;
    let ghost orig = out@;
    let mut st: FolderState = (0, 0, 0);
    let mut i: usize = 0;
    let ghost mut ids: Seq<usize> = Seq::empty();
    while i < out.len()
        invariant
            i <= out@.len(),
            out@.len() == orig.len(),
            orig == entries@,
            spec_solid_plan(orig.take(i as int), *solid) == Ok::<(Seq<usize>, FolderState), R7zError>((ids, st)),
            ids.len() == i,
            forall|k: int| i <= k < orig.len() ==> #[trigger] out@[k] == orig[k],
            forall|k: int| 0 <= k < i ==> #[trigger] out@[k] == (WriteEntry { folder_id: ids[k], ..orig[k] }),
        decreases orig.len() - i,
    {
        proof {
            assert(orig.take(i + 1).drop_last() =~= orig.take(i as int));
            assert(orig.take(i + 1).last() == orig[i as int]);
        }
        if !out[i].has_stream {
            out[i].folder_id = st.0;
            proof {
                ids = ids.push(st.0);
            }
        } else {
            let size: u64 = match &out[i].data {
                Some(d) => d.len() as u64,
                None => {
                    proof {
                        assert(orig[i as int].data is None);
                        assert(spec_solid_plan(orig.take(i + 1), *solid) is Err);
                        lemma_plan_err_prefix(orig, *solid, i + 1);
                    }
                    return Err(R7zError::Parse);
                },
            };
            match solid_step(solid, st, size) {
                Err(e) => {
                    proof {
                        assert(orig[i as int].data matches Some(d) && d@.len() == size);
                        assert(spec_solid_plan(orig.take(i + 1), *solid) == Err::<(Seq<usize>, FolderState), R7zError>(e));
                        lemma_plan_err_prefix(orig, *solid, i + 1);
                    }
                    return Err(e);
                },
                Ok((id, st2)) => {
                    out[i].folder_id = id;
                    st = st2;
                    proof {
                        ids = ids.push(id);
                    }
                },
            }
        }
        i = i + 1;
    }
    proof {
        assert(orig.take(orig.len() as int) =~= orig);
        assert(out@ =~= with_folder_ids(orig, ids));
    }
    Ok(out)
}

/// `e` is the entry `name` of kind `kind` with metadata `meta` and data
/// `data` (a stream exactly when there is data), not yet given a folder.
pub open spec fn entry_is(e: WriteEntry, name: Seq<char>, kind: EntryKind, meta: EntryMeta, data: Option<Seq<u8>>) -> bool {
    &&& e.name@ == name
    &&& e.kind == kind
    &&& e.meta == meta
    &&& e.has_stream == (data is Some)
    &&& match data {
        Some(d) => e.data matches Some(v) && v@ == d,
        None => e.data is None,
    }
    &&& e.folder_id == 0
}

/// Data that is stored only when it is non-empty.
pub open spec fn non_empty(d: Seq<u8>) -> Option<Seq<u8>> {
    if d.len() == 0 { None } else { Some(d) }
}

fn new_entry(name: &str, kind: EntryKind, meta: EntryMeta, data: &[u8]) -> (r: WriteEntry)
    ensures
        entry_is(r, name@, kind, meta, non_empty(data@)),
{
    if data.len() == 0 {
        WriteEntry { name: name.to_string(), kind, meta, has_stream: false, data: None, folder_id: 0 }
    } else {
        let mut v: Vec<u8> = Vec::new();
        push_bytes(&mut v, data);
        WriteEntry { name: name.to_string(), kind, meta, has_stream: true, data: Some(v), folder_id: 0 }
    }
}

/// An entry for the writer: only a file may carry data, and only non-empty
/// data makes a stream.
pub fn write_entry_from_archive_entry(entry: ArchiveEntry, data: Option<Vec<u8>>, folder_id: usize) -> (r: Result<
    WriteEntry,
    R7zError,
>)
    ensures
        entry.kind != EntryKind::File && (data matches Some(d) && d@.len() > 0) ==> r == Err::<WriteEntry, R7zError>(
            R7zError::InvalidOptions("only file entries can have stream data"),
        ),
        !(entry.kind != EntryKind::File && (data matches Some(d) && d@.len() > 0)) ==> (r matches Ok(w) && {
            let has = entry.kind == EntryKind::File && (data matches Some(d) && d@.len() > 0);
            &&& w.name@ == entry.name@
            &&& w.kind == entry.kind
            &&& w.meta == entry.meta
            &&& w.has_stream == has
            &&& (if has { w.data == data } else { w.data is None })
            &&& w.folder_id == folder_id
        }),
{
    let non_empty = match &data {
        Some(d) => d.len() > 0,
        None => false,
    };
    let is_file = match entry.kind {
        EntryKind::File => true,
        _ => false,
    };
    if !is_file && non_empty {
        return Err(R7zError::InvalidOptions("only file entries can have stream data"));
    }
    let has_stream = is_file && non_empty;
    let data = if has_stream { data } else { None };
    Ok(WriteEntry { name: entry.name, kind: entry.kind, meta: entry.meta, has_stream, data, folder_id })
}

/// Collects entries in memory and writes them as one archive.
pub struct ArchiveBuilder {
    entries: Vec<WriteEntry>,
    options: ArchiveOptions,
}

impl ArchiveBuilder {
    /// The entries added so far, in order.
    pub closed spec fn pending(&self) -> Seq<WriteEntry> {
        self.entries@
    }

    /// The options the archive will be written with.
    pub closed spec fn opts(&self) -> ArchiveOptions {
        self.options
    }

    /// An empty builder with the default options (LZMA2, solid, header
    /// compressed as p7zip does).
    #[must_use]
    pub fn new() -> (r: Self)
        ensures
            r.pending() == Seq::<WriteEntry>::empty(),
            r.opts().codec == Codec::Lzma2,
            r.opts().header_mode == crate::write::model::HeaderMode::P7zipDefault,
            r.opts().encryption is None,
            crate::write::model::is_default_compression(r.opts().compression),
            r.opts().streaming.buffer_size == 8192,
            r.opts().streaming.spool == (crate::write::model::SpoolMode::Auto { memory_threshold: 0x100_0000u64, dir: None }),
    {
        ArchiveBuilder { entries: Vec::new(), options: ArchiveOptions::default() }
    }

    /// The same builder with `options`.
    #[must_use]
    pub fn options(self, options: ArchiveOptions) -> (r: Self)
        ensures
            r.pending() == self.pending(),
            r.opts() == options,
    {
        let mut b = self;
        b.options = options;
        b
    }

    /// The same builder with codec `codec`.
    #[must_use]
    pub fn compression(self, codec: Codec) -> (r: Self)
        ensures
            r.pending() == self.pending(),
            r.opts() == (ArchiveOptions { codec, ..self.opts() }),
    {
        let mut b = self;
        b.options.codec = codec;
        b
    }

    fn push(self, e: WriteEntry) -> (r: Self)
        ensures
            r.pending() == self.pending().push(e),
            r.opts() == self.opts(),
    {
        let mut b = self;
        b.entries.push(e);
        b
    }

    /// Add a file with default metadata; empty data is stored as an empty file.
    #[must_use]
    pub fn add_file(self, name: &str, data: &[u8]) -> (r: Self)
        ensures
            r.opts() == self.opts(),
            r.pending().drop_last() == self.pending(),
            r.pending().len() == self.pending().len() + 1,
            entry_is(r.pending().last(), name@, EntryKind::File, crate::write::model::meta_with_attributes(None), non_empty(data@)),
    {
        let e = new_entry(name, EntryKind::File, EntryMeta::default(), data);
        let r = self.push(e);
        proof {
            assert(r.pending().drop_last() =~= self.pending());
        }
        r
    }

    /// Add a file with metadata `meta`.
    #[must_use]
    pub fn add_file_entry(self, name: &str, data: &[u8], meta: EntryMeta) -> (r: Self)
        ensures
            r.opts() == self.opts(),
            r.pending().drop_last() == self.pending(),
            r.pending().len() == self.pending().len() + 1,
            entry_is(r.pending().last(), name@, EntryKind::File, meta, non_empty(data@)),
    {
        let e = new_entry(name, EntryKind::File, meta, data);
        let r = self.push(e);
        proof {
            assert(r.pending().drop_last() =~= self.pending());
        }
        r
    }

    /// Add a symbolic link to `target`: a file whose data is the target's
    /// UTF-8 bytes, with the link attributes unless `meta` has attributes.
    #[must_use]
    pub fn add_symlink(self, name: &str, target: &str, meta: EntryMeta) -> (r: Self)
        ensures
            r.opts() == self.opts(),
            r.pending().drop_last() == self.pending(),
            r.pending().len() == self.pending().len() + 1,
            ({
                let e = r.pending().last();
                &&& e.name@ == name@
                &&& e.kind == EntryKind::File
                &&& e.meta == (if meta.attributes is None {
                    EntryMeta { attributes: Some((crate::write::model::SYMLINK_UNIX_MODE << 16u32) | crate::write::model::FILE_ATTRIBUTE_ARCHIVE), ..meta }
                } else {
                    meta
                })
                &&& e.has_stream
                &&& e.data matches Some(v) && v@ == vstd::utf8::encode_utf8(target@)
                &&& e.folder_id == 0
            }),
    {
        let mut bytes: Vec<u8> = Vec::new();
        push_bytes(&mut bytes, target.as_bytes());
        let e = WriteEntry {
            name: name.to_string(),
            kind: EntryKind::File,
            meta: meta.with_symlink_default(),
            has_stream: true,
            data: Some(bytes),
            folder_id: 0,
        };
        let r = self.push(e);
        proof {
            assert(r.pending().drop_last() =~= self.pending());
        }
        r
    }

    /// Add `entry` with optional data; only a file may carry data.
    pub fn add_entry(self, entry: ArchiveEntry, data: Option<&[u8]>) -> (r: Result<Self, R7zError>)
        ensures
            entry.kind != EntryKind::File && (data matches Some(d) && d@.len() > 0) ==> r == Err::<Self, R7zError>(
                R7zError::InvalidOptions("only file entries can have stream data"),
            ),
            !(entry.kind != EntryKind::File && (data matches Some(d) && d@.len() > 0)) ==> (r matches Ok(b) && {
                let has = entry.kind == EntryKind::File && (data matches Some(d) && d@.len() > 0);
                let w = b.pending().last();
                &&& b.opts() == self.opts()
                &&& b.pending().drop_last() == self.pending()
                &&& b.pending().len() == self.pending().len() + 1
                &&& w.name@ == entry.name@
                &&& w.kind == entry.kind
                &&& w.meta == entry.meta
                &&& w.has_stream == has
                &&& (if has { w.data matches Some(v) && data matches Some(d) && v@ == d@ } else { w.data is None })
                &&& w.folder_id == 0
            }),
    {
        let owned: Option<Vec<u8>> = match data {
            Some(d) => {
                let mut v: Vec<u8> = Vec::new();
                push_bytes(&mut v, d);
                Some(v)
            },
            None => None,
        };
        let e = match write_entry_from_archive_entry(entry, owned, 0) {
            Ok(e) => e,
            Err(err) => {
                return Err(err);
            },
        };
        let r = self.push(e);
        proof {
            assert(r.pending().drop_last() =~= self.pending());
        }
        Ok(r)
    }

    /// Add an empty file.
    #[must_use]
    pub fn add_empty_file(self, name: &str, meta: EntryMeta) -> (r: Self)
        ensures
            r.opts() == self.opts(),
            r.pending().drop_last() == self.pending(),
            r.pending().len() == self.pending().len() + 1,
            entry_is(r.pending().last(), name@, EntryKind::File, meta, None),
    {
        let e = new_entry(name, EntryKind::File, meta, &[]);
        let r = self.push(e);
        proof {
            assert(r.pending().drop_last() =~= self.pending());
        }
        r
    }

    /// Add a directory.
    #[must_use]
    pub fn add_directory(self, name: &str, meta: EntryMeta) -> (r: Self)
        ensures
            r.opts() == self.opts(),
            r.pending().drop_last() == self.pending(),
            r.pending().len() == self.pending().len() + 1,
            entry_is(r.pending().last(), name@, EntryKind::Directory, meta, None),
    {
        let e = new_entry(name, EntryKind::Directory, meta, &[]);
        let r = self.push(e);
        proof {
            assert(r.pending().drop_last() =~= self.pending());
        }
        r
    }

    /// Add an anti-item (a deletion marker).
    #[must_use]
    pub fn add_anti_item(self, name: &str, meta: EntryMeta) -> (r: Self)
        ensures
            r.opts() == self.opts(),
            r.pending().drop_last() == self.pending(),
            r.pending().len() == self.pending().len() + 1,
            entry_is(r.pending().last(), name@, EntryKind::Anti, meta, None),
    {
        let e = new_entry(name, EntryKind::Anti, meta, &[]);
        let r = self.push(e);
        proof {
            assert(r.pending().drop_last() =~= self.pending());
        }
        r
    }

    /// Assign folders and write the archive.
    pub fn build(self) -> (r: Result<Vec<u8>, R7zError>)
        requires
            crate::write::encode::encoder_dict_fits(self.opts()),
        ensures
            spec_solid_plan(self.pending(), self.opts().compression.solid) matches Err(e) ==> r == Err::<Vec<u8>, R7zError>(e),
            spec_solid_plan(self.pending(), self.opts().compression.solid) is Ok
                && self.pending().len() < (usize::MAX - 64) / 16 ==> (crate::write::encode::spec_validate_archive(
                self.opts(),
            ) matches Err(e) ==> r == Err::<Vec<u8>, R7zError>(e)),
            r matches Ok(a) ==> a@.len() >= 32 && a@.subrange(0, 6) == seq![0x37u8, 0x7au8, 0xbcu8, 0xafu8, 0x27u8, 0x1cu8],
            r matches Ok(a) ==> (spec_solid_plan(self.pending(), self.opts().compression.solid) matches Ok((ids, _))
                && crate::write::encode::built_archive(a@, with_folder_ids(self.pending(), ids), self.opts())),
            ({
                let es = with_folder_ids(self.pending(), spec_solid_plan(self.pending(), self.opts().compression.solid)->Ok_0.0);
                spec_solid_plan(self.pending(), self.opts().compression.solid) is Ok && self.pending().len() < (usize::MAX
                    - 64) / 16 && crate::write::encode::spec_validate_archive(self.opts()) is Ok && self.opts().encryption
                    is None && crate::write::encode::folders_encodable(es, self.opts())
                    && crate::write::header::spec_name_data(es).len() < u64::MAX ==> (r is Ok || (
                crate::write::encode::spec_should_encode(self.opts(), self.pending().len())
                    && crate::write::encode::header_refused(es, self.opts())))
            }),
            ({
                let es = with_folder_ids(self.pending(), spec_solid_plan(self.pending(), self.opts().compression.solid)->Ok_0.0);
                spec_solid_plan(self.pending(), self.opts().compression.solid) is Ok && self.pending().len() < (usize::MAX
                    - 64) / 16 && crate::write::encode::spec_validate_archive(self.opts()) is Ok && self.opts().encryption
                    is Some && crate::write::encode::folders_encodable(es, self.opts())
                    && crate::write::header::spec_name_data(es).len() < u64::MAX ==> (r is Ok || r == Err::<
                    Vec<u8>,
                    R7zError,
                >(R7zError::Parse) || (crate::write::encode::spec_should_encode(self.opts(), self.pending().len())
                    && r == Err::<Vec<u8>, R7zError>(R7zError::Decompression)))
            }),
    {
        let ArchiveBuilder { entries, options } = self;
        let entries = entries_with_solid_folders(entries, &options.compression.solid)?;
        if entries.len() >= (usize::MAX - 64) / 16 {
            return Err(R7zError::LimitExceeded("too many entries"));
        }
        build_archive(entries.as_slice(), &options)
    }
}

impl Default for ArchiveBuilder {
    fn default() -> (r: Self)
        ensures
            r.pending() == Seq::<WriteEntry>::empty(),
            r.opts().codec == Codec::Lzma2,
    {
        Self::new()
    }
}

} // verus!
