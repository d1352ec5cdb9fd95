//! What a session does to the manifest: storing blocks into archives, making new files
//! files of the manifest, collecting what nothing refers to any more, and planning
//! what a restore has to fetch and write.

use crate::bytes::{append_bytes, bytes_equal, copy_bytes};
use crate::codec::{decode_changes, decoded, encode_changes, encoded};
use crate::config::Config;
use crate::database::{
    apply_change, block_ids, clear_tables, delete_archive, delete_mappings, delete_new_file,
    delete_patchset, delete_unused_blocks, delete_unvisited_directories, delete_unvisited_files,
    delete_unvisited_symbolic_links, delete_visited_objects, get_file, get_new_file,
    insert_archive, insert_block, insert_def_patchset, insert_directory, insert_file,
    insert_mappings, insert_new_file, insert_new_mapping, insert_patchset, insert_symbolic_link,
    insert_visited_directory, insert_visited_file, insert_visited_symbolic_link,
    mappings_have_blocks, pair_ids, recorded_changes, reserve_archive_id, select_archive,
    select_block, select_blocks_by_archive, select_closed_new_files, select_directory, select_file,
    select_small_archives, select_small_patchsets, select_symbolic_link, select_unused_archives,
    start_recording, update_archive, update_block, update_directory, update_file, update_new_file,
    update_patchset, update_symbolic_link, without_first, Database,
};
use crate::digest::{blake3_hash, block_digest};
use crate::error::Error;
use crate::names::{decimal, manifest_prefix, patchset_name};
use crate::rows::{
    copy_mappings, opt_bytes, same_mappings, ArchiveView, BlockView, DirectoryView, FileView,
    Mapping, NewFileView, PatchsetView, SymbolicLinkView,
};
use crate::table::id_seq;
use crate::tables::{
    archive_blocks_length, length_in,
    archive_mapped, archive_used, block_mapped, blocks_exist, blocks_outside, change_views,
    empty_tables, has_digest, has_directory_path, has_file_path, has_new_file_path, has_offset,
    has_symbolic_link_path, log_extended, mapped_blocks, names_archive, names_block, noted,
    promotable, recorded, replay, small_archive, small_patchset, state_wf, tables_wf, Change,
    ChangeView, LastIds, State, Tables,
};
use vstd::prelude::*;
use vstd::slice::slice_subrange;

verus! {

/// The file that a new file becomes, under the id `id`.
pub open spec fn file_of(nf: NewFileView, id: int) -> FileView {
    FileView { id, path: nf.path, size: nf.size, mode: nf.mode, mappings: nf.mappings }
}

/// The database once the new file with id `new_file_id` has become the file with id
/// `file_id`: the file holds what the new file held and counts as seen, and the new
/// file is gone. The recorded changes are those of `log`.
pub open spec fn promoted(s: State, new_file_id: int, file_id: int, log: Seq<ChangeView>) -> State {
    State {
        tables: Tables {
            files: s.tables.files.insert(file_id, file_of(s.new_files[new_file_id], file_id)),
            ..s.tables
        },
        new_files: s.new_files.remove(new_file_id),
        visited_files: s.visited_files.insert(file_id),
        last: LastIds { file: crate::tables::higher(s.last.file, file_id), ..s.last },
        log,
        ..s
    }
}

/// Makes the new file with id `new_file_id` a file of the manifest: the file with its
/// path takes its size, mode and mappings, or a file is added if none has the path.
/// Returns the id of the file.
fn promote(db: &mut Database, new_file_id: i64) -> (r: Result<i64, Error>)
    requires
        old(db).wf(),
        old(db)@.new_files.contains_key(new_file_id as int),
        blocks_exist(old(db)@.tables, old(db)@.new_files[new_file_id as int].mappings),
    ensures
        final(db).wf(),
        match r {
            Ok(file_id) => {
                &&& final(db)@ == promoted(
                    old(db)@,
                    new_file_id as int,
                    file_id as int,
                    final(db)@.log,
                )
                &&& log_extended(old(db)@, final(db)@)
                &&& if has_file_path(
                    old(db)@.tables,
                    old(db)@.new_files[new_file_id as int].path,
                ) {
                    old(db)@.tables.files.contains_key(file_id as int)
                        && old(db)@.tables.files[file_id as int].path
                        == old(db)@.new_files[new_file_id as int].path
                } else {
                    file_id == old(db)@.last.file + 1
                }
            },
            Err(e) => e == Error::IdsExhausted && final(db)@ == old(db)@ && old(db)@.last.file
                == i64::MAX,
        },
{
    let ghost s0 = db@;
    let ghost nf = s0.new_files[new_file_id as int];
    proof {
        db.lemma_wf();
        assert(s0.log.take(s0.log.len() as int) =~= s0.log);
    }
    let (path, size, mode, mappings) = match get_new_file(db, new_file_id) {
        Some(f) => (copy_bytes(f.path.as_slice()), f.size, f.mode, copy_mappings(&f.mappings)),
        None => {
            return Err(Error::IdsExhausted);
        },
    };
    let file_id = match select_file(db, path.as_slice()) {
        Some(file_id) => {
            let unchanged = match get_file(db, file_id) {
                Some(f) => f.size == size && f.mode == mode
                    && same_mappings(&f.mappings, &mappings),
                None => false,
            };
            if !unchanged {
                match update_file(db, file_id, new_file_id) {
                    Ok(()) => {},
                    Err(e) => {
                        return Err(Error::IdsExhausted);
                    },
                }
                let ghost s1 = db@;
                delete_mappings(db, file_id);
                let ghost s2 = db@;
                proof {
                    assert(s2.tables.blocks == s0.tables.blocks);
                    assert(s2.new_files == s0.new_files);
                    assert(s2.tables.files[file_id as int].mappings =~= Seq::<Mapping>::empty());
                    assert(blocks_exist(s2.tables, nf.mappings));
                    assert(log_extended(s0, s1)) by {
                        assert(s1.log.take(s0.log.len() as int) =~= s0.log);
                    }
                    assert(log_extended(s0, s2)) by {
                        assert(s2.log.take(s0.log.len() as int) =~= s0.log);
                    }
                }
                match insert_mappings(db, file_id, new_file_id) {
                    Ok(()) => {},
                    Err(e) => {
                        return Err(Error::IdsExhausted);
                    },
                }
                proof {
                    let s3 = db@;
                    assert(Seq::<Mapping>::empty() + nf.mappings =~= nf.mappings);
                    assert(log_extended(s0, s3)) by {
                        assert(s3.log.take(s0.log.len() as int) =~= s0.log);
                    }
                    assert(s3.tables.files =~= s0.tables.files.insert(
                        file_id as int,
                        file_of(nf, file_id as int),
                    ));
                }
            } else {
                proof {
                    assert(s0.tables.files[file_id as int] == file_of(nf, file_id as int));
                    assert(s0.tables.files =~= s0.tables.files.insert(
                        file_id as int,
                        file_of(nf, file_id as int),
                    ));
                }
            }
            file_id
        },
        None => {
            let file_id = match insert_file(db, new_file_id) {
                Ok(file_id) => file_id,
                Err(e) => {
                    return Err(Error::IdsExhausted);
                },
            };
            let ghost s1 = db@;
            proof {
                assert(blocks_exist(s1.tables, nf.mappings));
                assert(log_extended(s0, s1)) by {
                    assert(s1.log.take(s0.log.len() as int) =~= s0.log);
                }
            }
            match insert_mappings(db, file_id, new_file_id) {
                Ok(()) => {},
                Err(e) => {
                    return Err(Error::IdsExhausted);
                },
            }
            proof {
                let s2 = db@;
                assert(Seq::<Mapping>::empty() + nf.mappings =~= nf.mappings);
                assert(log_extended(s0, s2)) by {
                    assert(s2.log.take(s0.log.len() as int) =~= s0.log);
                }
                assert(s2.tables.files =~= s0.tables.files.insert(
                    file_id as int,
                    file_of(nf, file_id as int),
                ));
            }
            file_id
        },
    };
    insert_visited_file(db, file_id);
    delete_new_file(db, new_file_id);
    Ok(file_id)
}

/// The new file with id `id` is ready to become a file of the manifest: it is closed,
/// and its blocks are all there and lie in uploaded archives.
pub open spec fn ready(s: State, id: int) -> bool {
    promotable(s, id) && blocks_exist(s.tables, s.new_files[id].mappings)
}

/// Some file that counts as seen holds what the new file `nf` held.
pub open spec fn became(s: State, nf: NewFileView) -> bool {
    exists|f: int| #[trigger]
        s.tables.files.contains_key(f) && s.tables.files[f] == file_of(nf, f)
            && s.visited_files.contains(f)
}

/// The file `row` holds what a new file held that was ready in `old`.
pub open spec fn stems_from(old: State, row: FileView) -> bool {
    exists|id: int| #[trigger] ready(old, id) && row == file_of(old.new_files[id], row.id)
}

/// The file `row` holds what one of the first `k` new files of `ids` held.
pub open spec fn stems_from_first(old: State, ids: Seq<i64>, k: int, row: FileView) -> bool {
    exists|j: int| 0 <= j < k && row == file_of(old.new_files[#[trigger] ids[j] as int], row.id)
}

/// What holds of the database while new files become files: only files, new files,
/// the files seen and the recorded changes differ from `old`; no file is lost; and
/// every file is as it was or holds what a ready new file held.
pub open spec fn promotion_kept(old: State, new: State) -> bool {
    &&& new.tables == (Tables { files: new.tables.files, ..old.tables })
    &&& new.last == (LastIds { file: new.last.file, ..old.last })
    &&& new.patchsets == old.patchsets
    &&& new.visited_directories == old.visited_directories
    &&& new.visited_symbolic_links == old.visited_symbolic_links
    &&& old.visited_files.subset_of(new.visited_files)
    &&& log_extended(old, new)
    &&& forall|f: int| #[trigger] old.tables.files.contains_key(f) ==>
        new.tables.files.contains_key(f)
    &&& forall|f: int| #[trigger]
        new.tables.files.contains_key(f) ==> (old.tables.files.contains_key(f)
            && new.tables.files[f] == old.tables.files[f]) || stems_from(old, new.tables.files[f])
}

/// How many new files are ready.
pub open spec fn ready_count(s: State) -> nat {
    Set::new(|id: int| ready(s, id)).len()
}

/// Every new file that was ready in `old` has become a file in `new`, the others are
/// new files as they were, and none is ready any more.
pub open spec fn promotion_done(old: State, new: State) -> bool {
    &&& promotion_kept(old, new)
    &&& forall|id: int| #[trigger]
        new.new_files.contains_key(id) <==> old.new_files.contains_key(id) && !ready(old, id)
    &&& forall|id: int| #[trigger]
        new.new_files.contains_key(id) ==> new.new_files[id] == old.new_files[id]
    &&& forall|id: int| #[trigger] ready(old, id) ==> became(new, old.new_files[id])
    &&& forall|id: int| !#[trigger] ready(new, id)
}

/// Makes every new file that is ready a file of the manifest.
///
/// A new file is ready once it is closed and all its blocks lie in uploaded archives.
/// The file with its path takes its size, mode and mappings and keeps its id; if no
/// file has the path, one is added. The file counts as seen, and the new file is gone.
/// Fails only when the ids of files are used up.
pub fn collect_closed_new_files(db: &mut Database) -> (r: Result<(), Error>)
    requires
        old(db).wf(),
    ensures
        final(db).wf(),
        promotion_kept(old(db)@, final(db)@),
        match r {
            Ok(()) => promotion_done(old(db)@, final(db)@),
            Err(e) => e == Error::IdsExhausted && old(db)@.last.file + ready_count(old(db)@)
                > i64::MAX,
        },
{
    let ghost s0 = db@;
    let closed = select_closed_new_files(db);
    let mut ids: Vec<i64> = Vec::new();
    let mut i: usize = 0;
    while i < closed.len()
        invariant
            db.wf(),
            db@ == s0,
            i <= closed@.len(),
            pair_ids(closed@).no_duplicates(),
            forall|id: int| pair_ids(closed@).contains(id) <==> #[trigger] promotable(s0, id),
            id_seq(ids@).no_duplicates(),
            forall|k: int| 0 <= k < ids@.len() ==>
                ready(s0, #[trigger] ids@[k] as int) && exists|j: int| 0 <= j < i
                    && pair_ids(closed@)[j] == ids@[k],
            forall|j: int| 0 <= j < i && ready(s0, #[trigger] pair_ids(closed@)[j]) ==>
                id_seq(ids@).contains(pair_ids(closed@)[j]),
        decreases closed@.len() - i,
    {
        let id = closed[i].0;
        proof {
            assert(pair_ids(closed@)[i as int] == id);
            assert(pair_ids(closed@).contains(id as int));
        }
        let complete = match get_new_file(db, id) {
            Some(f) => mappings_have_blocks(db, &f.mappings),
            None => false,
        };
        if complete {
            let ghost before = ids@;
            ids.push(id);
            proof {
                let now = id_seq(ids@);
                assert(now =~= id_seq(before).push(id as int));
                assert forall|a: int, b: int| 0 <= a < now.len() && 0 <= b < now.len()
                    && a != b implies now[a] != now[b] by {
                    if a < before.len() && b < before.len() {
                        assert(id_seq(before)[a] != id_seq(before)[b]);
                    } else if a < before.len() {
                        let j = choose|j: int| 0 <= j < i && pair_ids(closed@)[j] == before[a];
                        assert(pair_ids(closed@)[j] != pair_ids(closed@)[i as int]);
                    } else if b < before.len() {
                        let j = choose|j: int| 0 <= j < i && pair_ids(closed@)[j] == before[b];
                        assert(pair_ids(closed@)[j] != pair_ids(closed@)[i as int]);
                    }
                }
                assert forall|k: int| 0 <= k < ids@.len() implies ready(s0,
                    #[trigger] ids@[k] as int) && exists|j: int| 0 <= j < i + 1
                        && pair_ids(closed@)[j] == ids@[k] by {
                    if k < before.len() {
                        assert(ids@[k] == before[k]);
                        let j = choose|j: int| 0 <= j < i && pair_ids(closed@)[j] == before[k];
                        assert(0 <= j < i + 1 && pair_ids(closed@)[j] == ids@[k]);
                    } else {
                        assert(pair_ids(closed@)[i as int] == ids@[k]);
                    }
                }
                assert forall|j: int| 0 <= j < i + 1
                    && ready(s0,
                        #[trigger] pair_ids(closed@)[j]) implies now.contains(pair_ids(closed@)[j]) by {
                    if j < i {
                        let k = id_seq(before).index_of(pair_ids(closed@)[j]);
                        assert(now[k] == pair_ids(closed@)[j]);
                    } else {
                        assert(now[now.len() - 1] == id);
                    }
                }
            }
        }
        i += 1;
    }
    proof {
        assert forall|id: int| id_seq(ids@).contains(id) <==> #[trigger] ready(s0, id) by {
            if id_seq(ids@).contains(id) {
                let k = id_seq(ids@).index_of(id);
                assert(ready(s0, ids@[k] as int));
            }
            if ready(s0, id) {
                assert(promotable(s0, id));
                let j = pair_ids(closed@).index_of(id);
                assert(ready(s0, pair_ids(closed@)[j]));
            }
        }
        db.lemma_wf();
        assert(without_first(s0.new_files, ids@, 0) =~= s0.new_files);
        assert(s0.log.take(s0.log.len() as int) =~= s0.log);
        assert(id_seq(ids@).to_set() =~= Set::new(|id: int| ready(s0, id)));
        id_seq(ids@).unique_seq_to_set();
    }
    let mut k: usize = 0;
    while k < ids.len()
        invariant
            db.wf(),
            state_wf(s0),
            s0 == old(db)@,
            k <= ids@.len(),
            ids@.len() == ready_count(s0),
            db@.last.file <= s0.last.file + k,
            id_seq(ids@).no_duplicates(),
            forall|id: int| id_seq(ids@).contains(id) <==> #[trigger] ready(s0, id),
            db@.new_files == without_first(s0.new_files, ids@, k as int),
            db@.tables == (Tables { files: db@.tables.files, ..s0.tables }),
            db@.last == (LastIds { file: db@.last.file, ..s0.last }),
            db@.patchsets == s0.patchsets,
            db@.visited_directories == s0.visited_directories,
            db@.visited_symbolic_links == s0.visited_symbolic_links,
            s0.visited_files.subset_of(db@.visited_files),
            log_extended(s0, db@),
            forall|f: int| #[trigger] s0.tables.files.contains_key(f) ==>
                db@.tables.files.contains_key(f),
            forall|f: int| #[trigger]
                db@.tables.files.contains_key(f) ==> (s0.tables.files.contains_key(f)
                    && db@.tables.files[f] == s0.tables.files[f]) || stems_from_first(
                    s0,
                    ids@,
                    k as int,
                    db@.tables.files[f],
                ),
            forall|j: int| 0 <= j < k ==> became(db@, s0.new_files[#[trigger] ids@[j] as int]),
        decreases ids@.len() - k,
    {
        let id = ids[k];
        let ghost cur = db@;
        let ghost nf = s0.new_files[id as int];
        proof {
            assert(id_seq(ids@)[k as int] == id);
            assert(id_seq(ids@).contains(id as int));
            assert(ready(s0, id as int));
            assert(cur.new_files.contains_key(id as int)) by {
                if exists|j: int| 0 <= j < k && #[trigger] ids@[j] == id as int {
                    let j = choose|j: int| 0 <= j < k && #[trigger] ids@[j] == id as int;
                    assert(id_seq(ids@)[j] == id_seq(ids@)[k as int]);
                }
            }
            assert(cur.new_files[id as int] == nf);
            assert(blocks_exist(cur.tables, nf.mappings));
            db.lemma_wf();
        }
        let file_id = match promote(db, id) {
            Ok(file_id) => file_id,
            Err(e) => {
                proof {
                    lemma_stems(s0, ids@, k as int, db@);
                }
                return Err(e);
            },
        };
        proof {
            let now = db@;
            db.lemma_wf();
            assert(now.new_files =~= without_first(s0.new_files, ids@, k + 1));
            assert(log_extended(s0, now)) by {
                assert(now.log.take(s0.log.len() as int) =~= cur.log.take(s0.log.len() as int));
            }
            // the file that was written is none of those written before
            assert forall|j: int| 0 <= j < k implies became(now,
                s0.new_files[#[trigger] ids@[j] as int]) by {
                let other = s0.new_files[ids@[j] as int];
                assert(became(cur, other));
                let f = choose|f: int| #[trigger]
                    cur.tables.files.contains_key(f) && cur.tables.files[f] == file_of(other, f)
                        && cur.visited_files.contains(f);
                assert(id_seq(ids@)[j] != id_seq(ids@)[k as int]);
                assert(ready(s0, ids@[j] as int)) by {
                    assert(id_seq(ids@)[j] == ids@[j]);
                    assert(id_seq(ids@).contains(ids@[j] as int));
                }
                assert(s0.new_files.contains_key(ids@[j] as int));
                assert(other.path != nf.path);
                assert(f != file_id) by {
                    if has_file_path(cur.tables, nf.path) {
                        assert(cur.tables.files[file_id as int].path == nf.path);
                    } else {
                        assert(cur.tables.files.contains_key(f));
                    }
                }
                assert(now.tables.files.contains_key(f));
            }
            assert(became(now, nf)) by {
                assert(now.tables.files.contains_key(file_id as int));
            }
            assert forall|f: int| #[trigger] now.tables.files.contains_key(f) implies (
            s0.tables.files.contains_key(f) && now.tables.files[f] == s0.tables.files[f])
                || stems_from_first(s0, ids@, k + 1, now.tables.files[f]) by {
                if f == file_id {
                    assert(now.tables.files[f]
                        == file_of(s0.new_files[ids@[k as int] as int], now.tables.files[f].id));
                } else {
                    assert(cur.tables.files.contains_key(f));
                    if stems_from_first(s0, ids@, k as int, cur.tables.files[f]) {
                        let j = choose|j: int|
                            0 <= j < k && cur.tables.files[f] == file_of(
                                s0.new_files[#[trigger] ids@[j] as int],
                                cur.tables.files[f].id,
                            );
                        assert(0 <= j < k + 1);
                    }
                }
            }
        }
        k += 1;
    }
    proof {
        let now = db@;
        lemma_stems(s0, ids@, ids@.len() as int, now);
        assert forall|id: int| #[trigger] now.new_files.contains_key(id) <==>
            s0.new_files.contains_key(id) && !ready(s0, id) by {
            if s0.new_files.contains_key(id) && ready(s0, id) {
                let j = id_seq(ids@).index_of(id);
                assert(ids@[j] == id);
            }
            if now.new_files.contains_key(id) && ready(s0, id) {
                let j = id_seq(ids@).index_of(id);
                assert(ids@[j] == id);
            }
        }
        assert forall|id: int| #[trigger] ready(s0, id) implies became(now, s0.new_files[id]) by {
            let j = id_seq(ids@).index_of(id);
            assert(ids@[j] == id);
        }
        assert forall|id: int| !#[trigger] ready(now, id) by {
            if ready(now, id) {
                assert(now.new_files.contains_key(id));
                assert(ready(s0, id));
            }
        }
    }
    Ok(())
}

/// What the first `k` ready new files became stems from ready new files.
proof fn lemma_stems(s0: State, ids: Seq<i64>, k: int, now: State)
    requires
        0 <= k <= ids.len(),
        forall|id: int| id_seq(ids).contains(id) <==> #[trigger] ready(s0, id),
        now.tables == (Tables { files: now.tables.files, ..s0.tables }),
        now.last == (LastIds { file: now.last.file, ..s0.last }),
        now.patchsets == s0.patchsets,
        now.visited_directories == s0.visited_directories,
        now.visited_symbolic_links == s0.visited_symbolic_links,
        s0.visited_files.subset_of(now.visited_files),
        log_extended(s0, now),
        forall|f: int| #[trigger] s0.tables.files.contains_key(f) ==>
            now.tables.files.contains_key(f),
        forall|f: int| #[trigger]
            now.tables.files.contains_key(f) ==> (s0.tables.files.contains_key(f)
                && now.tables.files[f] == s0.tables.files[f]) || stems_from_first(
                s0,
                ids,
                k,
                now.tables.files[f],
            ),
    ensures
        promotion_kept(s0, now),
{
    assert forall|f: int| #[trigger] now.tables.files.contains_key(f) implies (
    s0.tables.files.contains_key(f) && now.tables.files[f] == s0.tables.files[f]) || stems_from(
        s0,
        now.tables.files[f],
    ) by {
        let row = now.tables.files[f];
        if stems_from_first(s0, ids, k, row) {
            let j = choose|j: int| 0 <= j < k
                && row == file_of(s0.new_files[#[trigger] ids[j] as int], row.id);
            assert(id_seq(ids)[j] == ids[j]);
            assert(id_seq(ids).contains(ids[j] as int));
            assert(ready(s0, ids[j] as int));
        }
    }
}

/// The tables without the files, directories and symbolic links that were not seen.
pub open spec fn without_unvisited(s: State) -> Tables {
    Tables {
        files: s.tables.files.restrict(s.visited_files),
        directories: s.tables.directories.restrict(s.visited_directories),
        symbolic_links: s.tables.symbolic_links.restrict(s.visited_symbolic_links),
        ..s.tables
    }
}

/// The tables without the blocks that no file maps.
pub open spec fn without_unmapped(t: Tables) -> Tables {
    Tables { blocks: mapped_blocks(t), ..t }
}

/// The archives in which a block lies.
pub open spec fn used_archives(t: Tables) -> Map<int, ArchiveView> {
    Map::new(|a: int| t.archives.contains_key(a) && archive_used(t, a), |a: int| t.archives[a])
}

/// The tables without the archives in which no block lies.
pub open spec fn without_unused(t: Tables) -> Tables {
    Tables { archives: used_archives(t), ..t }
}

/// The tables before the archives in which no block lies are collected: without what
/// was not seen, unless that is kept, and without the blocks that no file maps.
pub open spec fn swept(s: State, keep_unvisited_files: bool) -> Tables {
    without_unmapped(
        if keep_unvisited_files {
            s.tables
        } else {
            without_unvisited(s)
        },
    )
}

/// The tables after garbage collection.
pub open spec fn collected(s: State, keep_unvisited_files: bool) -> Tables {
    without_unused(swept(s, keep_unvisited_files))
}

/// After garbage collection some file maps every block, and a block lies in every
/// archive.
pub proof fn lemma_collected_clean(s: State, keep_unvisited_files: bool)
    ensures
        forall|b: int| #[trigger]
            collected(s, keep_unvisited_files).blocks.contains_key(b) ==> block_mapped(
                collected(s, keep_unvisited_files),
                b,
            ),
        forall|a: int| #[trigger]
            collected(s, keep_unvisited_files).archives.contains_key(a) ==> archive_used(
                collected(s, keep_unvisited_files),
                a,
            ),
{
    let t1 = if keep_unvisited_files {
        s.tables
    } else {
        without_unvisited(s)
    };
    let t2 = without_unmapped(t1);
    let t3 = without_unused(t2);
    assert forall|b: int| #[trigger] t3.blocks.contains_key(b) implies block_mapped(t3, b) by {
        assert(block_mapped(t1, b));
        let f = choose|f: int| #[trigger] t1.files.contains_key(f)
            && names_block(t1.files[f].mappings, b);
        assert(t3.files.contains_key(f));
    }
    assert forall|a: int| #[trigger] t3.archives.contains_key(a) implies archive_used(t3, a) by {
        assert(archive_used(t2, a));
        let b = choose|b: int| #[trigger] t2.blocks.contains_key(b) && t2.blocks[b].archive_id == a;
        assert(t3.blocks.contains_key(b));
    }
}

/// Making new files files of the manifest keeps the files restorable: a new file is
/// taken only once its blocks lie in uploaded archives.
pub proof fn lemma_promotion_settled(old: State, new: State)
    requires
        promotion_kept(old, new),
        crate::tables::settled(old.tables),
    ensures
        crate::tables::settled(new.tables),
{
    assert forall|f: int, i: int|
        new.tables.files.contains_key(f) && 0 <= i < new.tables.files[f].mappings.len()
        implies !crate::tables::block_pending(
        new.tables,
        (#[trigger] new.tables.files[f].mappings[i]).block_id as int,
    ) by {
        let row = new.tables.files[f];
        if old.tables.files.contains_key(f) && row == old.tables.files[f] {
            assert(!crate::tables::block_pending(
                old.tables,
                old.tables.files[f].mappings[i].block_id as int,
            ));
        } else {
            assert(stems_from(old, row));
            let id = choose|id: int| #[trigger] ready(old, id) && row == file_of(
                old.new_files[id],
                row.id,
            );
            let ms = old.new_files[id].mappings;
            assert(row.mappings == ms);
            if crate::tables::block_pending(old.tables, ms[i].block_id as int) {
                assert(crate::tables::names_pending(old.tables, ms));
            }
        }
    }
}

/// After garbage collection every archive is uploaded, if the files could be restored
/// before it: an archive stays only with a block in it that a file maps.
pub proof fn lemma_collected_uploaded(s: State, keep_unvisited_files: bool)
    requires
        crate::tables::settled(s.tables),
    ensures
        crate::tables::all_uploaded(collected(s, keep_unvisited_files)),
        crate::tables::settled(collected(s, keep_unvisited_files)),
{
    let t1 = if keep_unvisited_files {
        s.tables
    } else {
        without_unvisited(s)
    };
    let t2 = without_unmapped(t1);
    let t3 = without_unused(t2);
    assert forall|a: int| #[trigger] t3.archives.contains_key(a) implies t3.archives[a].blob_file_id
        is Some by {
        assert(archive_used(t2, a));
        let b = choose|b: int| #[trigger] t2.blocks.contains_key(b) && t2.blocks[b].archive_id == a;
        assert(block_mapped(t1, b));
        let f = choose|f: int| #[trigger] t1.files.contains_key(f) && crate::tables::names_block(
            t1.files[f].mappings,
            b,
        );
        let i = choose|i: int| 0 <= i < t1.files[f].mappings.len()
            && #[trigger] t1.files[f].mappings[i].block_id == b;
        assert(s.tables.files.contains_key(f) && s.tables.files[f] == t1.files[f]);
        assert(!crate::tables::block_pending(s.tables, s.tables.files[f].mappings[i].block_id as int));
        assert(s.tables.blocks.contains_key(b));
    }
    assert forall|f: int, i: int|
        t3.files.contains_key(f) && 0 <= i < t3.files[f].mappings.len()
        implies !crate::tables::block_pending(
        t3,
        (#[trigger] t3.files[f].mappings[i]).block_id as int,
    ) by {
        assert(s.tables.files.contains_key(f) && s.tables.files[f] == t3.files[f]);
        assert(!crate::tables::block_pending(s.tables, s.tables.files[f].mappings[i].block_id as int));
    }
}

/// Collects garbage: deletes the files, directories and symbolic links that were not
/// seen in this session, unless they are to be kept; then the blocks that no file
/// maps; then the archives in which no block lies. Returns these archives, each with
/// the id of its blob if it was uploaded, so that the blobs can be removed.
pub fn delete_unused_archives(db: &mut Database, keep_unvisited_files: bool) -> (unused: Vec<
    (i64, Option<Vec<u8>>),
>)
    requires
        old(db).wf(),
    ensures
        final(db).wf(),
        final(db)@ == (State {
            tables: collected(old(db)@, keep_unvisited_files),
            log: final(db)@.log,
            ..old(db)@
        }),
        log_extended(old(db)@, final(db)@),
        pair_ids(unused@).no_duplicates(),
        forall|id: int|
            pair_ids(unused@).contains(id) <==> #[trigger] old(db)@.tables.archives.contains_key(id)
                && !archive_used(swept(old(db)@, keep_unvisited_files), id),
        forall|k: int|
            0 <= k < unused@.len() ==> old(db)@.tables.archives.contains_key(
                (#[trigger] unused@[k]).0 as int,
            ) && opt_bytes(unused@[k].1)
                == old(db)@.tables.archives[unused@[k].0 as int].blob_file_id,
{
    let ghost s0 = db@;
    proof {
        assert(s0.log.take(s0.log.len() as int) =~= s0.log);
    }
    if !keep_unvisited_files {
        delete_unvisited_files(db);
        let ghost s1 = db@;
        delete_unvisited_directories(db);
        let ghost s2 = db@;
        delete_unvisited_symbolic_links(db);
        proof {
            let s3 = db@;
            assert(s2.log.take(s0.log.len() as int) =~= s1.log.take(s0.log.len() as int));
            assert(s3.log.take(s0.log.len() as int) =~= s2.log.take(s0.log.len() as int));
            assert(s3.tables == without_unvisited(s0));
        }
    }
    let ghost s3 = db@;
    delete_unused_blocks(db);
    let ghost s4 = db@;
    proof {
        assert(s4.log.take(s0.log.len() as int) =~= s3.log.take(s0.log.len() as int));
        assert(s4.tables == swept(s0, keep_unvisited_files));
    }
    let unused = select_unused_archives(db);
    let mut k: usize = 0;
    proof {
        assert(without_first(s4.tables.archives, ids_of(unused@), 0) =~= s4.tables.archives);
    }
    while k < unused.len()
        invariant
            db.wf(),
            k <= unused@.len(),
            pair_ids(unused@).no_duplicates(),
            forall|id: int|
                pair_ids(unused@).contains(id) <==> #[trigger] s4.tables.archives.contains_key(id)
                    && !archive_used(s4.tables, id),
            db@ == (State {
                tables: Tables {
                    archives: without_first(s4.tables.archives, ids_of(unused@), k as int),
                    ..s4.tables
                },
                log: db@.log,
                ..s4
            }),
            log_extended(s0, db@),
        decreases unused@.len() - k,
    {
        let id = unused[k].0;
        let ghost cur = db@;
        proof {
            assert(pair_ids(unused@)[k as int] == id);
            assert(pair_ids(unused@).contains(id as int));
            assert(s4.tables.archives.contains_key(id as int));
            assert(!archive_used(s4.tables, id as int));
            assert(cur.tables.blocks == s4.tables.blocks);
            assert(!archive_used(cur.tables, id as int));
            assert(cur.tables.archives.contains_key(id as int)) by {
                if exists|j: int| 0 <= j < k && #[trigger] ids_of(unused@)[j] == id as int {
                    let j = choose|j: int| 0 <= j < k && #[trigger] ids_of(unused@)[j] == id as int;
                    assert(pair_ids(unused@)[j] == pair_ids(unused@)[k as int]);
                }
            }
            assert(!archive_mapped(cur.tables, id as int)) by {
                if archive_mapped(cur.tables, id as int) {
                    let f = choose|f: int| #[trigger]
                        cur.tables.files.contains_key(f) && names_archive(
                            cur.tables,
                            cur.tables.files[f].mappings,
                            id as int,
                        );
                    let ms = cur.tables.files[f].mappings;
                    let i = choose|i: int|
                        0 <= i < ms.len() && cur.tables.blocks.contains_key(
                            #[trigger] ms[i].block_id as int,
                        ) && cur.tables.blocks[ms[i].block_id as int].archive_id == id as int;
                    assert(cur.tables.blocks.contains_key(ms[i].block_id as int));
                }
            }
        }
        match delete_archive(db, id) {
            Ok(()) => {},
            Err(e) => {},
        }
        proof {
            let now = db@;
            assert(blocks_outside(cur.tables, id as int) =~= cur.tables.blocks) by {
                assert forall|b: int| cur.tables.blocks.contains_key(b) implies #[trigger] cur.tables.blocks[b].archive_id
                    != id as int by {
                    if cur.tables.blocks[b].archive_id == id as int {
                        assert(archive_used(cur.tables, id as int));
                    }
                }
            }
            assert(ids_of(unused@)[k as int] == id);
            assert(without_first(s4.tables.archives, ids_of(unused@), k + 1) =~= without_first(
                s4.tables.archives,
                ids_of(unused@),
                k as int,
            ).remove(id as int));
            assert(now.log.take(s0.log.len() as int) =~= cur.log.take(s0.log.len() as int));
        }
        k += 1;
    }
    proof {
        assert(without_first(s4.tables.archives, ids_of(unused@), unused@.len() as int)
            =~= used_archives(s4.tables)) by {
            assert forall|a: int| s4.tables.archives.contains_key(a) implies (archive_used(
                s4.tables,
                a,
            ) <==> !(exists|j: int| 0 <= j < unused@.len()
                && #[trigger] ids_of(unused@)[j] == a)) by {
                if !archive_used(s4.tables, a) {
                    let j = pair_ids(unused@).index_of(a);
                    assert(ids_of(unused@)[j] == a);
                }
                if exists|j: int| 0 <= j < unused@.len() && #[trigger] ids_of(unused@)[j] == a {
                    let j = choose|j: int| 0 <= j < unused@.len()
                        && #[trigger] ids_of(unused@)[j] == a;
                    assert(pair_ids(unused@)[j] == a);
                    assert(pair_ids(unused@).contains(a));
                }
            }
        }
        assert forall|id: int|
            pair_ids(unused@).contains(id) <==> #[trigger] s0.tables.archives.contains_key(id)
                && !archive_used(swept(s0, keep_unvisited_files), id) by {
            assert(s4.tables.archives == s0.tables.archives);
        }
    }
    unused
}

/// The ids that a list of pairs begins with, as they are stored.
pub open spec fn ids_of<T>(pairs: Seq<(i64, T)>) -> Seq<i64> {
    Seq::new(pairs.len(), |i: int| pairs[i].0)
}

/// A session that changes the manifest: the database, and the archive that takes the
/// blocks which the session adds.
pub struct Update {
    db: Database,
    archive_id: i64,
    archive_len: u64,
    blocks: Vec<u8>,
}

/// What an update holds.
pub struct UpdateView {
    pub db: State,
    /// The id set aside for the archive in the making. It has a row once it holds a
    /// block.
    pub archive_id: i64,
    /// Bytes of blocks in the archive in the making.
    pub archive_len: u64,
    /// The bytes of the archive in the making.
    pub blocks: Seq<u8>,
}

/// An archive that is complete and has to be uploaded.
pub struct Sealed {
    pub archive_id: i64,
    /// Bytes of blocks in the archive.
    pub length: u64,
    /// The blocks of the archive, one after the other.
    pub bytes: Vec<u8>,
}

/// The `len` bytes of `data` from `off`.
pub open spec fn bytes_at(data: Seq<u8>, off: u64, len: u64) -> Seq<u8> {
    data.subrange(off as int, off + len)
}

/// Every block of the archive with id `archive_id` lies within `data`, and its bytes
/// there have its digest.
pub open spec fn holds_blocks(t: Tables, archive_id: int, data: Seq<u8>) -> bool {
    forall|b: int| #[trigger]
        t.blocks.contains_key(b) && t.blocks[b].archive_id == archive_id ==> t.blocks[b].archive_off
            + t.blocks[b].length <= data.len() && blake3_hash(
            bytes_at(data, t.blocks[b].archive_off, t.blocks[b].length),
        ) == t.blocks[b].digest
}

/// What an update guarantees at any time: the archive in the making is as long as its
/// bytes are many, its id was set aside, it is not uploaded, and its blocks lie in its
/// bytes.
pub open spec fn update_wf(u: UpdateView) -> bool {
    &&& state_wf(u.db)
    &&& u.blocks.len() == u.archive_len
    &&& u.archive_id <= u.db.last.archive
    &&& holds_blocks(u.db.tables, u.archive_id as int, u.blocks)
    &&& u.db.tables.archives.contains_key(u.archive_id as int)
        ==> u.db.tables.archives[u.archive_id as int].blob_file_id is None
}

/// The id of the directory with the given path.
pub open spec fn directory_with(t: Tables, path: Seq<u8>) -> int {
    choose|id: int| #[trigger] t.directories.contains_key(id) && t.directories[id].path == path
}

/// The id of the symbolic link with the given path.
pub open spec fn symbolic_link_with(t: Tables, path: Seq<u8>) -> int {
    choose|id: int| #[trigger] t.symbolic_links.contains_key(id)
        && t.symbolic_links[id].path == path
}

/// The id of the block with the given digest.
pub open spec fn block_with(t: Tables, digest: Seq<u8>) -> int {
    choose|id: int| #[trigger] t.blocks.contains_key(id) && t.blocks[id].digest == digest
}

/// The database once a directory with the given path and mode was seen: the directory
/// with the path has the mode, or a directory is added, and it counts as seen.
pub open spec fn directory_seen(s: State, path: Seq<u8>, mode: u32) -> State {
    if has_directory_path(s.tables, path) {
        let id = directory_with(s.tables, path);
        State {
            visited_directories: s.visited_directories.insert(id),
            ..noted(
                s,
                ChangeView::PutDirectory {
                    row: DirectoryView { mode, ..s.tables.directories[id] },
                    fresh: false,
                },
            )
        }
    } else {
        let id = s.last.directory + 1;
        State {
            visited_directories: s.visited_directories.insert(id),
            ..recorded(
                s,
                ChangeView::PutDirectory { row: DirectoryView { id, path, mode }, fresh: true },
            )
        }
    }
}

/// The database once a symbolic link with the given path and target was seen.
pub open spec fn symbolic_link_seen(s: State, path: Seq<u8>, target: Seq<u8>) -> State {
    if has_symbolic_link_path(s.tables, path) {
        let id = symbolic_link_with(s.tables, path);
        State {
            visited_symbolic_links: s.visited_symbolic_links.insert(id),
            ..noted(
                s,
                ChangeView::PutSymbolicLink {
                    row: SymbolicLinkView { target, ..s.tables.symbolic_links[id] },
                    fresh: false,
                },
            )
        }
    } else {
        let id = s.last.symbolic_link + 1;
        State {
            visited_symbolic_links: s.visited_symbolic_links.insert(id),
            ..recorded(
                s,
                ChangeView::PutSymbolicLink {
                    row: SymbolicLinkView { id, path, target },
                    fresh: true,
                },
            )
        }
    }
}

impl View for Update {
    type V = UpdateView;

    closed spec fn view(&self) -> UpdateView {
        UpdateView {
            db: self.db@,
            archive_id: self.archive_id,
            archive_len: self.archive_len,
            blocks: self.blocks@,
        }
    }
}

impl Update {
    /// The update keeps what it guarantees.
    pub closed spec fn wf(&self) -> bool {
        self.db.wf() && update_wf(self@)
    }

    /// What a well-formed update guarantees of what it holds.
    pub proof fn lemma_wf(&self)
        requires
            self.wf(),
        ensures
            update_wf(self@),
    {
    }

    /// Begins a session on a database: forgets what the last session noted down,
    /// begins to record, and sets an archive id aside.
    pub fn begin(db: Database) -> (r: Result<Update, Error>)
        requires
            db.wf(),
        ensures
            match r {
                Ok(update) => {
                    &&& update.wf()
                    &&& update@.archive_id == db@.last.archive + 1
                    &&& update@.archive_len == 0
                    &&& update@.blocks == Seq::<u8>::empty()
                    &&& update@.db == (State {
                        new_files: Map::empty(),
                        visited_files: Set::empty(),
                        visited_directories: Set::empty(),
                        visited_symbolic_links: Set::empty(),
                        base: db@.tables,
                        log: Seq::empty(),
                        last: LastIds { archive: db@.last.archive + 1, ..db@.last },
                        ..db@
                    })
                },
                Err(e) => e == Error::IdsExhausted && db@.last.archive == i64::MAX,
            },
    {
        let mut db = db;
        delete_visited_objects(&mut db);
        start_recording(&mut db);
        let archive_id = match reserve_archive_id(&mut db) {
            Ok(id) => id,
            Err(e) => {
                return Err(e);
            },
        };
        proof {
            db.lemma_wf();
        }
        Ok(Update { db, archive_id, archive_len: 0, blocks: Vec::new() })
    }

    /// The database of the session.
    pub fn database(&self) -> (db: &Database)
        requires
            self.wf(),
        ensures
            db.wf(),
            db@ == self@.db,
    {
        &self.db
    }

    /// The id set aside for the archive in the making.
    pub fn archive_id(&self) -> (id: i64)
        ensures
            id == self@.archive_id,
    {
        self.archive_id
    }

    /// Bytes of blocks in the archive in the making.
    pub fn archive_len(&self) -> (len: u64)
        ensures
            len == self@.archive_len,
    {
        self.archive_len
    }

    /// Whether the archive in the making holds `min_archive_len` bytes or more, so that
    /// it takes no more blocks.
    pub fn is_full(&self, min_archive_len: u64) -> (r: bool)
        ensures
            r == (self@.archive_len >= min_archive_len),
    {
        self.archive_len >= min_archive_len
    }

    /// Notes a regular file that the session begins to read, and returns the id of the
    /// new file. Refused if the session has noted a file with the path already.
    pub fn open_file(&mut self, path: &[u8], size: u64, mode: u32) -> (r: Result<i64, Error>)
        requires
            old(self).wf(),
        ensures
            final(self).wf(),
            r == Err::<i64, Error>(Error::Constraint) <==> has_new_file_path(old(self)@.db, path@),
            match r {
                Ok(id) => {
                    &&& id == old(self)@.db.last.new_file + 1
                    &&& final(self)@ == (UpdateView {
                        db: State {
                            new_files: old(self)@.db.new_files.insert(
                                id as int,
                                NewFileView {
                                    id: id as int,
                                    path: path@,
                                    size,
                                    mode,
                                    closed: false,
                                    mappings: Seq::empty(),
                                },
                            ),
                            last: LastIds { new_file: id as int, ..old(self)@.db.last },
                            ..old(self)@.db
                        },
                        ..old(self)@
                    })
                },
                Err(e) => final(self)@ == old(self)@ && (e == Error::Constraint || (e
                    == Error::IdsExhausted && old(self)@.db.last.new_file == i64::MAX)),
            },
    {
        let r = insert_new_file(&mut self.db, path, size, mode);
        proof {
            self.db.lemma_wf();
        }
        r
    }

    /// Notes that all bytes of the new file with the given id are stored.
    pub fn close_file(&mut self, new_file_id: i64)
        requires
            old(self).wf(),
        ensures
            final(self).wf(),
            final(self)@ == (UpdateView {
                db: if old(self)@.db.new_files.contains_key(new_file_id as int) {
                    State {
                        new_files: old(self)@.db.new_files.insert(
                            new_file_id as int,
                            NewFileView {
                                closed: true,
                                ..old(self)@.db.new_files[new_file_id as int]
                            },
                        ),
                        ..old(self)@.db
                    }
                } else {
                    old(self)@.db
                },
                ..old(self)@
            }),
    {
        update_new_file(&mut self.db, new_file_id);
        proof {
            self.db.lemma_wf();
        }
    }

    /// Notes a directory that the session has seen: the directory with the path takes
    /// the mode, or a directory is added if none has the path, and it counts as seen.
    /// Fails only when the ids of directories are used up.
    pub fn directory(&mut self, path: &[u8], mode: u32) -> (r: Result<(), Error>)
        requires
            old(self).wf(),
        ensures
            final(self).wf(),
            r is Err <==> !has_directory_path(old(self)@.db.tables, path@)
                && old(self)@.db.last.directory == i64::MAX,
            match r {
                Ok(()) => final(self)@ == (UpdateView {
                    db: directory_seen(old(self)@.db, path@, mode),
                    ..old(self)@
                }),
                Err(e) => e == Error::IdsExhausted && final(self)@ == old(self)@,
            },
    {
        proof {
            self.db.lemma_wf();
        }
        let ghost s = self.db@;
        let id = match select_directory(&self.db, path) {
            Some(id) => {
                proof {
                    let want = directory_with(s.tables, path@);
                    assert(s.tables.directories.contains_key(want)
                        && s.tables.directories[want].path == path@);
                    assert(crate::tables::directory_path_free(s.tables, path@, id as int));
                    assert(want == id);
                }
                update_directory(&mut self.db, id, mode);
                id
            },
            None => match insert_directory(&mut self.db, path, mode) {
                Ok(id) => id,
                Err(e) => {
                    return Err(e);
                },
            },
        };
        insert_visited_directory(&mut self.db, id);
        proof {
            self.db.lemma_wf();
        }
        Ok(())
    }

    /// Notes a symbolic link that the session has seen: the symbolic link with the
    /// path takes the target, or one is added if none has the path, and it counts as
    /// seen. Fails only when the ids of symbolic links are used up.
    pub fn symlink(&mut self, path: &[u8], target: &[u8]) -> (r: Result<(), Error>)
        requires
            old(self).wf(),
        ensures
            final(self).wf(),
            r is Err <==> !has_symbolic_link_path(old(self)@.db.tables, path@)
                && old(self)@.db.last.symbolic_link == i64::MAX,
            match r {
                Ok(()) => final(self)@ == (UpdateView {
                    db: symbolic_link_seen(old(self)@.db, path@, target@),
                    ..old(self)@
                }),
                Err(e) => e == Error::IdsExhausted && final(self)@ == old(self)@,
            },
    {
        proof {
            self.db.lemma_wf();
        }
        let ghost s = self.db@;
        let id = match select_symbolic_link(&self.db, path) {
            Some(id) => {
                proof {
                    let want = symbolic_link_with(s.tables, path@);
                    assert(s.tables.symbolic_links.contains_key(want)
                        && s.tables.symbolic_links[want].path == path@);
                    assert(crate::tables::symbolic_link_path_free(s.tables, path@, id as int));
                    assert(want == id);
                }
                update_symbolic_link(&mut self.db, id, target);
                id
            },
            None => match insert_symbolic_link(&mut self.db, path, target) {
                Ok(id) => id,
                Err(e) => {
                    return Err(e);
                },
            },
        };
        insert_visited_symbolic_link(&mut self.db, id);
        proof {
            self.db.lemma_wf();
        }
        Ok(())
    }
}

/// The new files once a block was placed at an offset of one of them.
pub open spec fn with_mapping(s: State, new_file_id: int, offset: u64, block_id: i64) -> Map<
    int,
    NewFileView,
> {
    s.new_files.insert(
        new_file_id,
        NewFileView {
            mappings: s.new_files[new_file_id].mappings.push(Mapping { offset, block_id }),
            ..s.new_files[new_file_id]
        },
    )
}

/// The archives once the archive in the making has a row.
pub open spec fn with_archive(t: Tables, archive_id: int) -> Map<int, ArchiveView> {
    if t.archives.contains_key(archive_id) {
        t.archives
    } else {
        t.archives.insert(
            archive_id,
            ArchiveView { id: archive_id, length: None, blob_file_id: None, blob_length: None },
        )
    }
}

/// The update once a block whose digest is known already was placed in a new file:
/// nothing but the new file changes.
pub open spec fn deduplicated(u: UpdateView, new_file_id: int, offset: u64,
    digest: Seq<u8>) -> UpdateView {
    UpdateView {
        db: State {
            new_files: with_mapping(
                u.db,
                new_file_id,
                offset,
                block_with(u.db.tables, digest) as i64,
            ),
            ..u.db
        },
        ..u
    }
}

/// The database once a block that is new was added to the archive in the making and
/// placed in a new file. The recorded changes are those of `log`.
pub open spec fn with_block(
    u: UpdateView,
    new_file_id: int,
    offset: u64,
    block: Seq<u8>,
    sealed: bool,
    log: Seq<ChangeView>,
) -> State {
    let id = u.db.last.block + 1;
    State {
        tables: Tables {
            archives: with_archive(u.db.tables, u.archive_id as int),
            blocks: u.db.tables.blocks.insert(
                id,
                BlockView {
                    id,
                    digest: blake3_hash(block),
                    length: block.len() as u64,
                    archive_id: u.archive_id as int,
                    archive_off: u.archive_len,
                },
            ),
            ..u.db.tables
        },
        new_files: with_mapping(u.db, new_file_id, offset, id as i64),
        last: LastIds {
            block: id,
            archive: if sealed {
                u.db.last.archive + 1
            } else {
                u.db.last.archive
            },
            ..u.db.last
        },
        log,
        ..u.db
    }
}

/// What storing `block` at `offset` of the new file does to an update, and what it
/// returns: `before` is the update as it was, `after` as it is left, `r` what is
/// returned.
///
/// - The block is refused, as against a constraint, exactly where the new file cannot
///   take a mapping at the offset.
/// - A block whose digest is known is then placed in the new file, and that is all.
/// - A block that is new fails exactly where the archive would outgrow what its length
///   can count, and else where the id of the block, or of the next archive where one
///   has to be set aside, cannot be had. Otherwise it is added at the end of the
///   archive in the making; once that holds `min_archive_len` bytes or more, the
///   archive is handed out and the next one begun.
/// - On an error nothing has changed.
pub open spec fn block_stored(
    before: UpdateView,
    after: UpdateView,
    min_archive_len: u64,
    new_file_id: int,
    offset: u64,
    block: Seq<u8>,
    r: Result<Option<Sealed>, Error>,
) -> bool {
    let known = has_digest(before.db.tables, blake3_hash(block));
    let grown = before.archive_len + block.len();
    let refused = !crate::tables::takes_mapping(before.db, new_file_id, offset);
    let too_long = !refused && !known && grown > u64::MAX;
    let no_id = !refused && !known && grown <= u64::MAX && (before.db.last.block == i64::MAX || (
    grown >= min_archive_len && before.db.last.archive == i64::MAX));
    &&& r == Err::<Option<Sealed>, Error>(Error::Constraint) <==> refused
    &&& r == Err::<Option<Sealed>, Error>(Error::ArchiveTooLong) <==> too_long
    &&& r == Err::<Option<Sealed>, Error>(Error::IdsExhausted) <==> no_id
    &&& r is Ok <==> !refused && !too_long && !no_id
    &&& r is Err ==> after == before
    &&& r is Ok && known ==> {
        &&& r matches Ok(o) && o is None
        &&& after == deduplicated(before, new_file_id, offset, blake3_hash(block))
    }
    &&& r is Ok && !known ==> {
        &&& after.db == with_block(
            before,
            new_file_id,
            offset,
            block,
            grown >= min_archive_len,
            after.db.log,
        )
        &&& log_extended(before.db, after.db)
        &&& match r {
            Ok(Some(sealed)) => {
                &&& grown >= min_archive_len
                &&& sealed.archive_id == before.archive_id
                &&& sealed.length == grown
                &&& sealed.bytes@ == before.blocks + block
                &&& holds_blocks(after.db.tables, sealed.archive_id as int, sealed.bytes@)
                &&& after.archive_id == before.db.last.archive + 1
                &&& after.archive_len == 0
                &&& after.blocks == Seq::<u8>::empty()
            },
            _ => {
                &&& grown < min_archive_len
                &&& after.archive_id == before.archive_id
                &&& after.archive_len == grown
                &&& after.blocks == before.blocks + block
            },
        }
    }
}

/// Stores a block of a new file.
///
/// If a block with the same digest is known, the block is only placed at the offset of
/// the new file: no block is added and no byte written. Else the block is added to the
/// archive in the making, at its end, and placed in the new file. Once the archive
/// holds `min_archive_len` bytes or more it is sealed and returned for its upload, and
/// the next archive id is set aside.
///
/// Refused if there is no new file with the id, its offset is taken, or it has as many
/// mappings as a file can have. Fails, without any change, when the archive would
/// outgrow what its length can count or ids are used up.
pub fn store_block(
    update: &mut Update,
    min_archive_len: u64,
    new_file_id: i64,
    offset: u64,
    block: &[u8],
) -> (r: Result<Option<Sealed>, Error>)
    requires
        old(update).wf(),
    ensures
        final(update).wf(),
        block_stored(
            old(update)@,
            final(update)@,
            min_archive_len,
            new_file_id as int,
            offset,
            block@,
            r,
        ),
{
    let ghost u0 = update@;
    let ghost s0 = update.db@;
    proof {
        update.db.lemma_wf();
        assert(s0.log.take(s0.log.len() as int) =~= s0.log);
    }
    // what could refuse the mapping is tested before anything changes
    let free = match get_new_file(&update.db, new_file_id) {
        Some(f) => !crate::database::offset_taken(&f.mappings, offset) && f.mappings.len()
            < crate::tables::MAX_MAPPINGS,
        None => false,
    };
    if !free {
        return Err(Error::Constraint);
    }
    let digest = block_digest(block);
    match select_block(&update.db, digest.as_slice()) {
        Some(block_id) => {
            proof {
                let want = block_with(s0.tables, digest@);
                assert(s0.tables.blocks.contains_key(want)
                    && s0.tables.blocks[want].digest == digest@);
                assert(crate::tables::digest_free(s0.tables, digest@, block_id as int));
                assert(want == block_id);
            }
            match insert_new_mapping(&mut update.db, new_file_id, offset, block_id) {
                Ok(()) => {},
                Err(e) => {
                    return Err(e);
                },
            }
            proof {
                update.db.lemma_wf();
            }
            return Ok(None);
        },
        None => {},
    }
    let length = block.len() as u64;
    if length > u64::MAX - update.archive_len {
        return Err(Error::ArchiveTooLong);
    }
    let grown = update.archive_len + length;
    if !crate::database::has_next_block_id(&update.db) {
        return Err(Error::IdsExhausted);
    }
    let next_archive_id = if grown >= min_archive_len {
        match reserve_archive_id(&mut update.db) {
            Ok(id) => Some(id),
            Err(e) => {
                return Err(e);
            },
        }
    } else {
        None
    };
    let ghost s1 = update.db@;
    let aid = update.archive_id;
    if !select_archive(&update.db, aid) {
        match insert_archive(&mut update.db, aid) {
            Ok(()) => {},
            Err(e) => {},
        }
    }
    let ghost s2 = update.db@;
    proof {
        update.db.lemma_wf();
        assert(s2.tables.archives == with_archive(s0.tables, aid as int));
        assert(s2.tables.blocks == s0.tables.blocks);
        assert(s2.log.take(s0.log.len() as int) =~= s0.log);
    }
    let block_id = match insert_block(&mut update.db, digest.as_slice(), length, aid,
        update.archive_len) {
        Ok(id) => id,
        Err(e) => {
            proof {
                assert(false);
            }
            return Err(e);
        },
    };
    let ghost s3 = update.db@;
    proof {
        assert(s3.log.take(s0.log.len() as int) =~= s2.log.take(s0.log.len() as int));
    }
    match insert_new_mapping(&mut update.db, new_file_id, offset, block_id) {
        Ok(()) => {},
        Err(e) => {
            proof {
                assert(false);
            }
            return Err(e);
        },
    }
    let ghost old_blocks = update.blocks@;
    append_bytes(&mut update.blocks, block);
    update.archive_len = grown;
    proof {
        let s4 = update.db@;
        update.db.lemma_wf();
        let data = update.blocks@;
        assert(bytes_at(data, u0.archive_len, length) =~= block@);
        assert forall|b: int| #[trigger]
            s4.tables.blocks.contains_key(b) && s4.tables.blocks[b].archive_id
                == aid as int implies s4.tables.blocks[b].archive_off + s4.tables.blocks[b].length
            <= data.len() && blake3_hash(
            bytes_at(data, s4.tables.blocks[b].archive_off, s4.tables.blocks[b].length),
        ) == s4.tables.blocks[b].digest by {
            if b != block_id {
                assert(s0.tables.blocks.contains_key(b));
                let row = s0.tables.blocks[b];
                assert(bytes_at(data, row.archive_off, row.length) =~= bytes_at(
                    old_blocks,
                    row.archive_off,
                    row.length,
                ));
            }
        }
    }
    match next_archive_id {
        Some(next) => {
            let mut bytes: Vec<u8> = Vec::new();
            core::mem::swap(&mut bytes, &mut update.blocks);
            update.archive_id = next;
            update.archive_len = 0;
            proof {
                let s4 = update.db@;
                assert(!archive_used(s4.tables, next as int)) by {
                    if archive_used(s4.tables, next as int) {
                        let b = choose|b: int| #[trigger]
                            s4.tables.blocks.contains_key(b) && s4.tables.blocks[b].archive_id
                                == next as int;
                        assert(s4.tables.archives.contains_key(s4.tables.blocks[b].archive_id));
                    }
                }
            }
            Ok(Some(Sealed { archive_id: aid, length: grown, bytes }))
        },
        None => Ok(None),
    }
}

/// The database once the archive with the given id was uploaded: its row tells its
/// length and its blob. Nothing changes if there is no such archive.
pub open spec fn uploaded(
    s: State,
    archive_id: int,
    length: u64,
    blob_file_id: Seq<u8>,
    blob_length: u64,
) -> State {
    if s.tables.archives.contains_key(archive_id) {
        noted(
            s,
            ChangeView::PutArchive {
                row: ArchiveView {
                    id: archive_id,
                    length: Some(length),
                    blob_file_id: Some(blob_file_id),
                    blob_length: Some(blob_length),
                },
                fresh: false,
            },
        )
    } else {
        s
    }
}

/// What a session leaves behind when it ends.
pub struct Finished {
    /// The database after the session.
    pub db: Database,
    /// The archives that the session deleted because no block lies in them any more,
    /// each with the id of its blob if it was uploaded. Their blobs are to be removed.
    pub unused_archives: Vec<(i64, Option<Vec<u8>>)>,
    /// The changes that the session made to the manifest, in order. Empty if it made
    /// none.
    pub changes: Vec<Change>,
}

impl Update {
    /// Notes that a sealed archive was uploaded, and makes the new files files of the
    /// manifest that are ready now.
    ///
    /// Refused for the archive in the making, which is not sealed. Fails when the ids
    /// of files are used up; the upload is noted even then.
    pub fn archive_uploaded(
        &mut self,
        archive_id: i64,
        length: u64,
        blob_file_id: &[u8],
        blob_length: u64,
    ) -> (r: Result<(), Error>)
        requires
            old(self).wf(),
        ensures
            final(self).wf(),
            final(self)@.archive_id == old(self)@.archive_id,
            final(self)@.archive_len == old(self)@.archive_len,
            final(self)@.blocks == old(self)@.blocks,
            r == Err::<(), Error>(Error::Constraint) <==> archive_id == old(self)@.archive_id,
            r == Err::<(), Error>(Error::Constraint) ==> final(self)@ == old(self)@,
            archive_id != old(self)@.archive_id ==> promotion_kept(
                uploaded(old(self)@.db, archive_id as int, length, blob_file_id@, blob_length),
                final(self)@.db,
            ),
            r is Ok ==> promotion_done(
                uploaded(old(self)@.db, archive_id as int, length, blob_file_id@, blob_length),
                final(self)@.db,
            ),
            r matches Err(e) ==> e == Error::Constraint || (e == Error::IdsExhausted
                && old(self)@.db.last.file + ready_count(
                uploaded(old(self)@.db, archive_id as int, length, blob_file_id@, blob_length),
            ) > i64::MAX),
    {
        if archive_id == self.archive_id {
            return Err(Error::Constraint);
        }
        let ghost s0 = self.db@;
        proof {
            self.db.lemma_wf();
        }
        update_archive(&mut self.db, archive_id, length, blob_file_id, blob_length);
        let ghost s1 = self.db@;
        let r = collect_closed_new_files(&mut self.db);
        proof {
            self.db.lemma_wf();
            let s2 = self.db@;
            assert(s1.tables.blocks == s0.tables.blocks);
            assert(s2.tables.blocks == s1.tables.blocks);
            assert(s2.tables.archives == s1.tables.archives);
            assert(s1.last.archive == s0.last.archive);
            if s0.tables.archives.contains_key(self.archive_id as int) {
                assert(s1.tables.archives[self.archive_id as int]
                    == s0.tables.archives[self.archive_id as int]);
            }
        }
        r
    }

    /// Ends the archive in the making.
    ///
    /// If the session was not interrupted and the archive holds bytes, it is sealed and
    /// returned for its upload, and the next archive id is set aside. Else the archive
    /// is deleted with the blocks in it, and nothing is returned.
    ///
    /// Fails, without any change, when the ids of archives are used up, or when a file
    /// maps a block of the archive that is to be deleted.
    pub fn seal(&mut self, was_interrupted: bool) -> (r: Result<Option<Sealed>, Error>)
        requires
            old(self).wf(),
        ensures
            final(self).wf(),
            r is Ok ==> final(self)@.archive_len == 0 && final(self)@.blocks == Seq::<u8>::empty(),
            r is Err ==> final(self)@ == old(self)@,
            !was_interrupted && old(self)@.archive_len != 0 ==> match r {
                Ok(Some(sealed)) => {
                    &&& sealed.archive_id == old(self)@.archive_id
                    &&& sealed.length == old(self)@.archive_len
                    &&& sealed.bytes@ == old(self)@.blocks
                    &&& holds_blocks(final(self)@.db.tables, sealed.archive_id as int,
                        sealed.bytes@)
                    &&& final(self)@.archive_id == old(self)@.db.last.archive + 1
                    &&& final(self)@.db == (State {
                        last: LastIds {
                            archive: old(self)@.db.last.archive + 1,
                            ..old(self)@.db.last
                        },
                        ..old(self)@.db
                    })
                },
                Ok(None) => false,
                Err(e) => e == Error::IdsExhausted && old(self)@.db.last.archive == i64::MAX,
            },
            was_interrupted || old(self)@.archive_len == 0 ==> match r {
                Ok(Some(sealed)) => false,
                Ok(None) => {
                    &&& final(self)@.archive_id == old(self)@.archive_id
                    &&& final(self)@.db == noted(
                        old(self)@.db,
                        ChangeView::DeleteArchive { id: old(self)@.archive_id as int },
                    )
                },
                Err(e) => e == Error::Constraint && archive_mapped(
                    old(self)@.db.tables,
                    old(self)@.archive_id as int,
                ),
            },
    {
        proof {
            self.db.lemma_wf();
        }
        if !was_interrupted && self.archive_len != 0 {
            let next = match reserve_archive_id(&mut self.db) {
                Ok(id) => id,
                Err(e) => {
                    return Err(e);
                },
            };
            let mut bytes: Vec<u8> = Vec::new();
            core::mem::swap(&mut bytes, &mut self.blocks);
            let sealed = Sealed { archive_id: self.archive_id, length: self.archive_len, bytes };
            self.archive_id = next;
            self.archive_len = 0;
            proof {
                self.db.lemma_wf();
                let t = self.db@.tables;
                assert(holds_blocks(t, next as int, Seq::<u8>::empty())) by {
                    assert forall|b: int| #[trigger] t.blocks.contains_key(b) implies t.blocks[b].archive_id
                        != next as int by {
                        if t.blocks[b].archive_id == next as int {
                            assert(archive_used(t, next as int));
                        }
                    }
                }
            }
            Ok(Some(sealed))
        } else {
            let ghost s0 = self.db@;
            match delete_archive(&mut self.db, self.archive_id) {
                Ok(()) => {},
                Err(e) => {
                    return Err(e);
                },
            }
            self.blocks = Vec::new();
            self.archive_len = 0;
            proof {
                self.db.lemma_wf();
                let t = self.db@.tables;
                assert forall|b: int| #[trigger] t.blocks.contains_key(b) implies t.blocks[b].archive_id
                    != self.archive_id as int by {
                    if s0.tables.archives.contains_key(self.archive_id as int) {
                    } else {
                        assert(s0.tables.blocks.contains_key(b));
                        assert(s0.tables.archives.contains_key(s0.tables.blocks[b].archive_id));
                    }
                }
            }
            Ok(None)
        }
    }

    /// Ends the session: makes the new files that are ready files of the manifest,
    /// collects garbage, and hands out the database with what the session recorded.
    ///
    /// With `keep_unvisited_files` the files, directories and symbolic links that were
    /// not seen stay, as they must after an interrupted session. In the database that
    /// is handed out some file maps every block and a block lies in every archive, and
    /// the recorded changes, applied to the manifest as the session found it, give the
    /// manifest as it is. If no file mapped a block of an archive that is not uploaded,
    /// none does afterwards, and every archive that is left is uploaded.
    ///
    /// Fails only when the ids of files are used up.
    pub fn finish(self, keep_unvisited_files: bool) -> (r: Result<Finished, Error>)
        requires
            self.wf(),
        ensures
            match r {
                Ok(done) => {
                    &&& done.db.wf()
                    &&& done.db@.base == self@.db.base
                    &&& change_views(done.changes@) == done.db@.log
                    &&& crate::codec::all_writable(done.db@.log)
                    &&& replay(self@.db.base, change_views(done.changes@)) == done.db@.tables
                    &&& done.changes@.len() == 0 ==> done.db@.tables == self@.db.base
                    &&& exists|before: State|
                        {
                            &&& promotion_done(self@.db, before)
                            &&& done.db@ == (State {
                                tables: collected(before, keep_unvisited_files),
                                log: done.db@.log,
                                ..before
                            })
                            &&& forall|id: int|
                                pair_ids(done.unused_archives@).contains(id)
                                    <==> #[trigger] before.tables.archives.contains_key(id)
                                    && !archive_used(swept(before, keep_unvisited_files), id)
                            &&& forall|k: int|
                                0 <= k < done.unused_archives@.len()
                                    ==> before.tables.archives.contains_key(
                                    (#[trigger] done.unused_archives@[k]).0 as int,
                                ) && opt_bytes(done.unused_archives@[k].1)
                                    == before.tables.archives[done.unused_archives@[k].0 as int].blob_file_id
                        }
                    &&& crate::tables::settled(self@.db.tables) ==> crate::tables::settled(
                        done.db@.tables,
                    ) && crate::tables::all_uploaded(done.db@.tables)
                    &&& pair_ids(done.unused_archives@).no_duplicates()
                    &&& forall|b: int| #[trigger]
                        done.db@.tables.blocks.contains_key(b) ==> block_mapped(done.db@.tables, b)
                    &&& forall|a: int| #[trigger]
                        done.db@.tables.archives.contains_key(a) ==> archive_used(
                            done.db@.tables,
                            a,
                        )
                },
                Err(e) => e == Error::IdsExhausted && self@.db.last.file + ready_count(self@.db)
                    > i64::MAX,
            },
    {
        let mut db = self.db;
        match collect_closed_new_files(&mut db) {
            Ok(()) => {},
            Err(e) => {
                return Err(e);
            },
        }
        let ghost before = db@;
        let unused_archives = delete_unused_archives(&mut db, keep_unvisited_files);
        let changes = recorded_changes(&db);
        proof {
            db.lemma_wf();
            lemma_collected_clean(before, keep_unvisited_files);
            if crate::tables::settled(self@.db.tables) {
                lemma_promotion_settled(self@.db, before);
                lemma_collected_uploaded(before, keep_unvisited_files);
            }
            assert forall|i: int| 0 <= i < db@.log.len() implies crate::codec::writable(
                #[trigger] db@.log[i],
            ) by {
                crate::codec::lemma_fits_writable(db@.log[i]);
            }
            if changes@.len() == 0 {
                assert(change_views(changes@) =~= Seq::<ChangeView>::empty());
            }
        }
        Ok(Finished { db, unused_archives, changes })
    }

    /// Moves one block to the end of the archive in the making: `piece` are its bytes.
    /// The archive gets its row if it has none yet.
    fn take_block(&mut self, block_id: i64, piece: &[u8])
        requires
            old(self).wf(),
            old(self)@.db.tables.blocks.contains_key(block_id as int),
            old(self)@.db.tables.blocks[block_id as int].archive_id != old(self)@.archive_id,
            old(self)@.db.tables.blocks[block_id as int].length == piece@.len(),
            old(self)@.db.tables.blocks[block_id as int].digest == blake3_hash(piece@),
            old(self)@.archive_len + piece@.len() <= u64::MAX,
        ensures
            final(self).wf(),
            log_extended(old(self)@.db, final(self)@.db),
            final(self)@ == moved_in(old(self)@, block_id as int, piece@, final(self)@.db.log),
    {
        let ghost u0 = self@;
        let ghost t = self.db@.tables;
        let aid = self.archive_id;
        proof {
            self.db.lemma_wf();
            assert(u0.db.log.take(u0.db.log.len() as int) =~= u0.db.log);
        }
        if !select_archive(&self.db, aid) {
            match insert_archive(&mut self.db, aid) {
                Ok(()) => {},
                Err(e) => {},
            }
        }
        let ghost mid = self.db@;
        proof {
            self.db.lemma_wf();
            assert(mid.tables.archives == with_archive(t, aid as int));
            assert(mid.tables.blocks == t.blocks);
            assert(mid.last == u0.db.last);
            assert(mid.log.take(u0.db.log.len() as int) =~= u0.db.log);
        }
        match update_block(&mut self.db, block_id, aid, self.archive_len) {
            Ok(()) => {},
            Err(e) => {},
        }
        let ghost old_blocks = self.blocks@;
        append_bytes(&mut self.blocks, piece);
        let ghost off = self.archive_len;
        let length = piece.len() as u64;
        self.archive_len = self.archive_len + length;
        proof {
            self.db.lemma_wf();
            let now = self.db@.tables;
            let bytes = self.blocks@;
            assert(self.db@.log.take(u0.db.log.len() as int) =~= mid.log.take(
                u0.db.log.len() as int,
            ));
            assert(now.blocks =~= t.blocks.insert(
                block_id as int,
                BlockView { archive_id: aid as int, archive_off: off, ..t.blocks[block_id as int] },
            ));
            assert(self.db@.last == u0.db.last);
            assert(bytes_at(bytes, off, length) =~= piece@);
            assert forall|b: int| #[trigger]
                now.blocks.contains_key(b) && now.blocks[b].archive_id
                    == aid as int implies now.blocks[b].archive_off + now.blocks[b].length
                <= bytes.len() && blake3_hash(
                bytes_at(bytes, now.blocks[b].archive_off, now.blocks[b].length),
            ) == now.blocks[b].digest by {
                if b != block_id {
                    assert(t.blocks.contains_key(b));
                    let row = t.blocks[b];
                    assert(now.blocks[b] == row);
                    assert(bytes_at(bytes, row.archive_off, row.length) =~= bytes_at(
                        old_blocks,
                        row.archive_off,
                        row.length,
                    ));
                }
            }
        }
    }

    /// Moves the blocks of another archive into the archive in the making.
    ///
    /// `data` are the bytes of the archive with id `archive_id`. All its blocks are
    /// first checked: each has to lie within `data` with the bytes of its digest, and
    /// the archive in the making has to be able to count their length. Then they are
    /// taken in the order in which they lie in `data`: each is given its place at the
    /// end of the archive in the making, and its bytes are added there. Nothing else
    /// changes but that the archive in the making gets its row with the first block.
    ///
    /// Refused for the archive in the making itself. On an error nothing has changed.
    pub fn absorb_archive(&mut self, archive_id: i64, data: &[u8]) -> (r: Result<(), Error>)
        requires
            old(self).wf(),
        ensures
            final(self).wf(),
            r == Err::<(), Error>(Error::Constraint) <==> archive_id == old(self)@.archive_id,
            r is Ok <==> {
                &&& archive_id != old(self)@.archive_id
                &&& holds_blocks(old(self)@.db.tables, archive_id as int, data@)
                &&& old(self)@.archive_len + archive_blocks_length(
                    old(self)@.db.tables,
                    archive_id as int,
                ) <= u64::MAX
            },
            r == Err::<(), Error>(Error::ArchiveTooLong) <==> {
                &&& archive_id != old(self)@.archive_id
                &&& holds_blocks(old(self)@.db.tables, archive_id as int, data@)
                &&& old(self)@.archive_len + archive_blocks_length(
                    old(self)@.db.tables,
                    archive_id as int,
                ) > u64::MAX
            },
            r is Err ==> final(self)@ == old(self)@,
            r is Ok ==> {
                &&& exists|ids: Seq<int>| #[trigger]
                    absorbed(old(self)@, final(self)@, archive_id as int, ids, data@)
                &&& blocks_kept(old(self)@.db.tables, final(self)@.db.tables)
                &&& final(self)@.archive_len == old(self)@.archive_len + archive_blocks_length(
                    old(self)@.db.tables,
                    archive_id as int,
                )
            },
            r matches Err(e) ==> match e {
                Error::Constraint => true,
                Error::BlockOutOfRange { block_id } => {
                    &&& old(self)@.db.tables.blocks.contains_key(block_id as int)
                    &&& old(self)@.db.tables.blocks[block_id as int].archive_id == archive_id
                    &&& old(self)@.db.tables.blocks[block_id as int].archive_off
                        + old(self)@.db.tables.blocks[block_id as int].length > data@.len()
                },
                Error::DigestMismatch { block_id } => {
                    &&& old(self)@.db.tables.blocks.contains_key(block_id as int)
                    &&& old(self)@.db.tables.blocks[block_id as int].archive_id == archive_id
                    &&& old(self)@.db.tables.blocks[block_id as int].archive_off
                        + old(self)@.db.tables.blocks[block_id as int].length <= data@.len()
                    &&& blake3_hash(
                        bytes_at(
                            data@,
                            old(self)@.db.tables.blocks[block_id as int].archive_off,
                            old(self)@.db.tables.blocks[block_id as int].length,
                        ),
                    ) != old(self)@.db.tables.blocks[block_id as int].digest
                },
                Error::ArchiveTooLong => true,
                _ => false,
            },
    {
        proof {
            self.db.lemma_wf();
        }
        if archive_id == self.archive_id {
            return Err(Error::Constraint);
        }
        let ghost u0 = self@;
        let ghost t0 = self.db@.tables;
        let blocks = select_blocks_by_archive(&self.db, archive_id);
        let ghost ids = block_ids(blocks@);
        proof {
            assert forall|i: int, j: int| 0 <= i < j < ids.len() implies crate::tables::lies_before(
                t0.blocks[ids[i]],
                t0.blocks[ids[j]],
            ) by {
                assert(blocks@[i]@ == t0.blocks[blocks@[i].id as int]);
                assert(blocks@[j]@ == t0.blocks[blocks@[j].id as int]);
            }
            assert(lists_blocks(t0, archive_id as int, ids));
        }
        match check_blocks(&blocks, data, Ghost(t0), Ghost(archive_id as int)) {
            Ok(()) => {},
            Err(e) => {
                return Err(e);
            },
        }
        let total = crate::database::blocks_length(&self.db, archive_id);
        if total > (u64::MAX - self.archive_len) as u128 {
            return Err(Error::ArchiveTooLong);
        }
        self.take_blocks(archive_id, &blocks, data);
        proof {
            lemma_absorbed_keeps(u0, self@, archive_id as int, ids, data@);
        }
        Ok(())
    }

    /// Moves the listed blocks, which are those of the archive with id `archive_id` and
    /// were checked against `data`, to the end of the archive in the making.
    fn take_blocks(&mut self, archive_id: i64, blocks: &Vec<crate::rows::Block>, data: &[u8])
        requires
            old(self).wf(),
            archive_id != old(self)@.archive_id,
            lists_blocks(old(self)@.db.tables, archive_id as int, block_ids(blocks@)),
            forall|j: int|
                0 <= j < blocks@.len() ==> old(self)@.db.tables.blocks.contains_key(
                    (#[trigger] blocks@[j]).id as int,
                ) && blocks@[j]@ == old(self)@.db.tables.blocks[blocks@[j].id as int],
            holds_blocks(old(self)@.db.tables, archive_id as int, data@),
            old(self)@.archive_len + archive_blocks_length(
                old(self)@.db.tables,
                archive_id as int,
            ) <= u64::MAX,
        ensures
            final(self).wf(),
            absorbed(old(self)@, final(self)@, archive_id as int, block_ids(blocks@), data@),
            final(self)@.archive_len == old(self)@.archive_len + archive_blocks_length(
                old(self)@.db.tables,
                archive_id as int,
            ),
    {
        let ghost u0 = self@;
        let ghost t0 = self.db@.tables;
        let ghost ids = block_ids(blocks@);
        let ghost aid = self.archive_id;
        let mut k: usize = 0;
        proof {
            lemma_absorbed_none(u0, archive_id as int, ids, data@);
        }
        while k < blocks.len()
            invariant
                self.wf(),
                k <= blocks@.len(),
                aid == self.archive_id,
                archive_id != aid,
                u0 == old(self)@,
                t0 == u0.db.tables,
                ids == block_ids(blocks@),
                holds_blocks(t0, archive_id as int, data@),
                forall|j: int|
                    0 <= j < blocks@.len() ==> t0.blocks.contains_key(
                        (#[trigger] blocks@[j]).id as int,
                    ) && blocks@[j]@ == t0.blocks[blocks@[j].id as int],
                self@.archive_len + archive_blocks_length(self@.db.tables, archive_id as int)
                    == u0.archive_len + archive_blocks_length(t0, archive_id as int),
                u0.archive_len + archive_blocks_length(t0, archive_id as int) <= u64::MAX,
                absorbed_first(u0, self@, archive_id as int, ids, data@, k as int),
            decreases blocks@.len() - k,
        {
            let block = &blocks[k];
            let ghost cur = self@;
            let ghost t = self.db@.tables;
            let ghost row = t0.blocks[block.id as int];
            proof {
                self.db.lemma_wf();
                assert(ids[k as int] == block.id);
                assert(ids.contains(ids[k as int]));
                assert(t0.blocks.contains_key(block.id as int));
                assert(block@ == row);
                assert(row.archive_id == archive_id);
                assert(row.archive_off + row.length <= data@.len() && blake3_hash(
                    bytes_at(data@, row.archive_off, row.length),
                ) == row.digest);
                assert(t.blocks[ids[k as int]] == row);
                assert(t.blocks.dom() == t0.blocks.dom());
                assert(t.blocks.contains_key(block.id as int));
                crate::table::lemma_map_sum_replace(
                    t.blocks,
                    length_in(archive_id as int),
                    block.id as int,
                    BlockView {
                        archive_id: aid as int,
                        archive_off: cur.archive_len,
                        ..t.blocks[block.id as int]
                    },
                );
            }
            let available = data.len();
            assert(block.archive_off + block.length <= available);
            let piece = slice_subrange(
                data,
                block.archive_off as usize,
                (block.archive_off + block.length) as usize,
            );
            proof {
                assert(piece@ =~= bytes_at(data@, block.archive_off, block.length));
            }
            self.take_block(block.id, piece);
            proof {
                lemma_absorbed_next(u0, cur, self@, archive_id as int, ids, data@, k as int);
            }
            k += 1;
        }
        proof {
            let now = self.db@.tables;
            self.db.lemma_wf();
            lemma_absorbed_keeps(u0, self@, archive_id as int, ids, data@);
            assert forall|b: int| #[trigger] now.blocks.contains_key(b) implies length_in(
                archive_id as int,
            )(now.blocks[b]) == 0 by {}
            crate::table::lemma_map_sum_zero(now.blocks, length_in(archive_id as int));
        }
    }
}

/// Checks that every block of the list lies within `data` with the bytes of its
/// digest, and names the first that does not.
fn check_blocks(blocks: &Vec<crate::rows::Block>, data: &[u8], Ghost(t): Ghost<Tables>, Ghost(from): Ghost<
    int,
>) -> (r: Result<(), Error>)
    requires
        forall|id: int|
            block_ids(blocks@).contains(id) <==> #[trigger] t.blocks.contains_key(id)
                && t.blocks[id].archive_id == from,
        forall|j: int|
            0 <= j < blocks@.len() ==> t.blocks.contains_key((#[trigger] blocks@[j]).id as int)
                && blocks@[j]@ == t.blocks[blocks@[j].id as int],
    ensures
        r is Ok <==> holds_blocks(t, from, data@),
        r matches Err(e) ==> match e {
            Error::BlockOutOfRange { block_id } => {
                &&& t.blocks.contains_key(block_id as int)
                &&& t.blocks[block_id as int].archive_id == from
                &&& t.blocks[block_id as int].archive_off + t.blocks[block_id as int].length
                    > data@.len()
            },
            Error::DigestMismatch { block_id } => {
                &&& t.blocks.contains_key(block_id as int)
                &&& t.blocks[block_id as int].archive_id == from
                &&& t.blocks[block_id as int].archive_off + t.blocks[block_id as int].length
                    <= data@.len()
                &&& blake3_hash(
                    bytes_at(
                        data@,
                        t.blocks[block_id as int].archive_off,
                        t.blocks[block_id as int].length,
                    ),
                ) != t.blocks[block_id as int].digest
            },
            _ => false,
        },
{
    let mut k: usize = 0;
    while k < blocks.len()
        invariant
            k <= blocks@.len(),
            forall|id: int|
                block_ids(blocks@).contains(id) <==> #[trigger] t.blocks.contains_key(id)
                    && t.blocks[id].archive_id == from,
            forall|j: int|
                0 <= j < blocks@.len() ==> t.blocks.contains_key((#[trigger] blocks@[j]).id as int)
                    && blocks@[j]@ == t.blocks[blocks@[j].id as int],
            forall|j: int|
                0 <= j < k ==> (#[trigger] blocks@[j]).archive_off + blocks@[j].length
                    <= data@.len() && blake3_hash(
                    bytes_at(data@, blocks@[j].archive_off, blocks@[j].length),
                ) == blocks@[j].digest@,
        decreases blocks@.len() - k,
    {
        let block = &blocks[k];
        proof {
            assert(block_ids(blocks@)[k as int] == block.id);
            assert(block_ids(blocks@).contains(block.id as int));
        }
        let available = data.len() as u64;
        if block.archive_off > available || block.length > available - block.archive_off {
            return Err(Error::BlockOutOfRange { block_id: block.id });
        }
        let piece = slice_subrange(
            data,
            block.archive_off as usize,
            (block.archive_off + block.length) as usize,
        );
        let digest = block_digest(piece);
        proof {
            assert(piece@ =~= bytes_at(data@, block.archive_off, block.length));
        }
        if !bytes_equal(digest.as_slice(), block.digest.as_slice()) {
            return Err(Error::DigestMismatch { block_id: block.id });
        }
        k += 1;
    }
    proof {
        assert forall|b: int| #[trigger]
            t.blocks.contains_key(b) && t.blocks[b].archive_id == from implies t.blocks[b].archive_off
            + t.blocks[b].length <= data@.len() && blake3_hash(
            bytes_at(data@, t.blocks[b].archive_off, t.blocks[b].length),
        ) == t.blocks[b].digest by {
            let j = block_ids(blocks@).index_of(b);
            assert(block_ids(blocks@)[j] == b);
            assert(blocks@[j]@ == t.blocks[b]);
        }
    }
    Ok(())
}

/// Whether `ids` lists the blocks of the archive with id `from`, each once, in the order
/// in which they lie there.
pub open spec fn lists_blocks(t: Tables, from: int, ids: Seq<int>) -> bool {
    &&& ids.no_duplicates()
    &&& forall|id: int|
        ids.contains(id) <==> #[trigger] t.blocks.contains_key(id) && t.blocks[id].archive_id
            == from
    &&& forall|i: int, j: int|
        0 <= i < j < ids.len() ==> crate::tables::lies_before(t.blocks[ids[i]], t.blocks[ids[j]])
}

/// Two lists of the blocks of an archive agree up to the position `k`.
proof fn lemma_listings_agree(t: Tables, from: int, a: Seq<int>, b: Seq<int>, k: int)
    requires
        lists_blocks(t, from, a),
        lists_blocks(t, from, b),
        forall|id: int| #[trigger] t.blocks.contains_key(id) ==> t.blocks[id].id == id,
        0 <= k < a.len(),
        k < b.len(),
    ensures
        a[k] == b[k],
    decreases k,
{
    assert forall|j: int| 0 <= j < k implies a[j] == b[j] by {
        lemma_listings_agree(t, from, a, b, j);
    }
    assert(a.contains(a[k]));
    assert(t.blocks.contains_key(a[k]));
    assert(b.contains(a[k]));
    let at_b = b.index_of(a[k]);
    assert(b.contains(b[k]));
    assert(t.blocks.contains_key(b[k]));
    assert(a.contains(b[k]));
    let at_a = a.index_of(b[k]);
    if at_b < k {
        assert(a[at_b] == b[at_b]);
    }
    if at_a < k {
        assert(a[at_a] == b[at_a]);
    }
    if at_b > k && at_a > k {
        assert(crate::tables::lies_before(t.blocks[b[k]], t.blocks[b[at_b]]));
        assert(crate::tables::lies_before(t.blocks[a[k]], t.blocks[a[at_a]]));
    }
}

/// The blocks of an archive can be listed in one way only: whatever lists them in the
/// order in which they lie there is the same list.
pub proof fn lemma_listing_unique(t: Tables, from: int, a: Seq<int>, b: Seq<int>)
    requires
        tables_wf(t),
        lists_blocks(t, from, a),
        lists_blocks(t, from, b),
    ensures
        a == b,
{
    if a.len() < b.len() {
        let extra = b[a.len() as int];
        assert(b.contains(extra));
        assert(t.blocks.contains_key(extra));
        assert(a.contains(extra));
        let at = a.index_of(extra);
        lemma_listings_agree(t, from, a, b, at);
    }
    if b.len() < a.len() {
        let extra = a[b.len() as int];
        assert(a.contains(extra));
        assert(t.blocks.contains_key(extra));
        assert(b.contains(extra));
        let at = b.index_of(extra);
        lemma_listings_agree(t, from, a, b, at);
    }
    assert forall|k: int| 0 <= k < a.len() implies a[k] == b[k] by {
        lemma_listings_agree(t, from, a, b, k);
    }
    assert(a =~= b);
}

/// The lengths of the listed blocks, summed up.
pub open spec fn lengths_of(t: Tables, ids: Seq<int>) -> nat
    decreases ids.len(),
{
    if ids.len() == 0 {
        0
    } else {
        lengths_of(t, ids.drop_last()) + t.blocks[ids.last()].length as nat
    }
}

/// The bytes that the listed blocks have in `data`, one block after the other.
pub open spec fn bytes_of(t: Tables, ids: Seq<int>, data: Seq<u8>) -> Seq<u8>
    decreases ids.len(),
{
    if ids.len() == 0 {
        Seq::empty()
    } else {
        bytes_of(t, ids.drop_last(), data) + bytes_at(
            data,
            t.blocks[ids.last()].archive_off,
            t.blocks[ids.last()].length,
        )
    }
}

/// The update `u` once the block with id `block_id` was moved to the end of the archive
/// in the making, `piece` being its bytes and `log` the changes recorded by then.
pub open spec fn moved_in(u: UpdateView, block_id: int, piece: Seq<u8>, log: Seq<ChangeView>) -> UpdateView {
    UpdateView {
        db: State {
            tables: Tables {
                archives: with_archive(u.db.tables, u.archive_id as int),
                blocks: u.db.tables.blocks.insert(
                    block_id,
                    BlockView {
                        archive_id: u.archive_id as int,
                        archive_off: u.archive_len,
                        ..u.db.tables.blocks[block_id]
                    },
                ),
                ..u.db.tables
            },
            log,
            ..u.db
        },
        archive_len: (u.archive_len + piece.len()) as u64,
        blocks: u.blocks + piece,
        ..u
    }
}

/// Whether the block at the position `j` of `ids` is in `blocks` what it is once the
/// listed blocks were moved to the archive `to` and placed there from `start` on: it
/// lies behind the blocks listed before it, and is as it is in `t` otherwise.
pub open spec fn moved_behind(
    t: Tables,
    blocks: Map<int, BlockView>,
    ids: Seq<int>,
    to: int,
    start: u64,
    j: int,
) -> bool {
    blocks[ids[j]] == (BlockView {
        archive_id: to,
        archive_off: (start + lengths_of(t, ids.take(j))) as u64,
        ..t.blocks[ids[j]]
    })
}

/// Whether `after` is the update `before` once the first `k` blocks of the archive with
/// id `from` were moved into the archive in the making, `ids` being the blocks of `from`
/// in the order in which they lie there, and `data` the bytes of `from`.
///
/// The bytes of the archive in the making stay, and the bytes of the blocks moved
/// follow them in that order. Each block moved lies where the bytes before it end: at
/// the length that the archive had, plus the lengths of the blocks moved before it.
/// Every other block is as it was. The archive in the making has its row if a block
/// was moved; files, directories, links, patchsets, new files, what was seen and the
/// last ids are as they were, and changes were only added to the record.
pub open spec fn absorbed_first(
    before: UpdateView,
    after: UpdateView,
    from: int,
    ids: Seq<int>,
    data: Seq<u8>,
    k: int,
) -> bool {
    let t = before.db.tables;
    let to = before.archive_id as int;
    &&& lists_blocks(t, from, ids)
    &&& 0 <= k <= ids.len()
    &&& after.archive_id == before.archive_id
    &&& after.archive_len == before.archive_len + lengths_of(t, ids.take(k))
    &&& after.blocks == before.blocks + bytes_of(t, ids.take(k), data)
    &&& log_extended(before.db, after.db)
    &&& after.db == (State {
        tables: Tables {
            archives: if k == 0 {
                t.archives
            } else {
                with_archive(t, to)
            },
            blocks: after.db.tables.blocks,
            ..t
        },
        log: after.db.log,
        ..before.db
    })
    &&& after.db.tables.blocks.dom() == t.blocks.dom()
    &&& forall|j: int|
        0 <= j < k ==> #[trigger] moved_behind(
            t,
            after.db.tables.blocks,
            ids,
            to,
            before.archive_len,
            j,
        )
    &&& forall|j: int|
        k <= j < ids.len() ==> after.db.tables.blocks[#[trigger] ids[j]] == t.blocks[ids[j]]
    &&& forall|b: int| #[trigger]
        t.blocks.contains_key(b) && t.blocks[b].archive_id != from ==> after.db.tables.blocks[b]
            == t.blocks[b]
}

/// Whether `after` is the update `before` once all blocks of the archive with id `from`
/// were moved into the archive in the making, `ids` being those blocks in the order in
/// which they lie in `from`, and `data` the bytes of `from`.
pub open spec fn absorbed(
    before: UpdateView,
    after: UpdateView,
    from: int,
    ids: Seq<int>,
    data: Seq<u8>,
) -> bool {
    absorbed_first(before, after, from, ids, data, ids.len() as int)
}

/// Before any block is moved, none is.
proof fn lemma_absorbed_none(u: UpdateView, from: int, ids: Seq<int>, data: Seq<u8>)
    requires
        lists_blocks(u.db.tables, from, ids),
    ensures
        absorbed_first(u, u, from, ids, data, 0),
{
    assert(ids.take(0) =~= Seq::<int>::empty());
    assert(u.blocks + bytes_of(u.db.tables, ids.take(0), data) =~= u.blocks);
    assert(u.db.log.take(u.db.log.len() as int) =~= u.db.log);
}

/// Moving the next block takes an update in which the first `k` blocks were moved to
/// one in which one more was.
proof fn lemma_absorbed_next(
    before: UpdateView,
    cur: UpdateView,
    next: UpdateView,
    from: int,
    ids: Seq<int>,
    data: Seq<u8>,
    k: int,
)
    requires
        absorbed_first(before, cur, from, ids, data, k),
        k < ids.len(),
        from != before.archive_id,
        cur.archive_len + before.db.tables.blocks[ids[k]].length <= u64::MAX,
        log_extended(cur.db, next.db),
        next == moved_in(
            cur,
            ids[k],
            bytes_at(
                data,
                before.db.tables.blocks[ids[k]].archive_off,
                before.db.tables.blocks[ids[k]].length,
            ),
            next.db.log,
        ),
        before.db.tables.blocks[ids[k]].archive_off + before.db.tables.blocks[ids[k]].length
            <= data.len(),
    ensures
        absorbed_first(before, next, from, ids, data, k + 1),
{
    let t = before.db.tables;
    let to = before.archive_id as int;
    let now = next.db.tables;
    assert(ids.take(k + 1).drop_last() =~= ids.take(k));
    assert(ids.take(k + 1).last() == ids[k]);
    assert(ids.contains(ids[k]));
    assert(t.blocks.contains_key(ids[k]));
    assert(cur.db.tables.blocks[ids[k]] == t.blocks[ids[k]]);
    assert(next.db.log.take(before.db.log.len() as int) =~= cur.db.log.take(
        before.db.log.len() as int,
    ));
    assert(with_archive(cur.db.tables, to) == with_archive(t, to));
    assert(now.blocks.dom() =~= t.blocks.dom());
    assert(next.blocks =~= before.blocks + bytes_of(t, ids.take(k + 1), data));
    assert(lengths_of(t, ids.take(k + 1)) == lengths_of(t, ids.take(k)) + t.blocks[ids[k]].length);
    assert forall|j: int| 0 <= j < k + 1 implies #[trigger] moved_behind(
        t,
        now.blocks,
        ids,
        to,
        before.archive_len,
        j,
    ) by {
        if j < k {
            assert(ids[j] != ids[k]);
            assert(moved_behind(t, cur.db.tables.blocks, ids, to, before.archive_len, j));
            assert(now.blocks[ids[j]] == cur.db.tables.blocks[ids[j]]);
        } else {
            assert(now.blocks[ids[k]] == (BlockView {
                archive_id: to,
                archive_off: cur.archive_len,
                ..cur.db.tables.blocks[ids[k]]
            }));
            assert(cur.archive_len == before.archive_len + lengths_of(t, ids.take(k)));
        }
    }
    assert forall|j: int| k + 1 <= j < ids.len() implies now.blocks[#[trigger] ids[j]]
        == t.blocks[ids[j]] by {
        assert(ids[j] != ids[k]);
    }
}

/// The lengths of the blocks before the position `i` of a list, and of the block
/// there, are among the lengths of the blocks before a later position `j`.
proof fn lemma_lengths_grow(t: Tables, ids: Seq<int>, i: int, j: int)
    requires
        0 <= i < j <= ids.len(),
    ensures
        lengths_of(t, ids.take(i)) + t.blocks[ids[i]].length <= lengths_of(t, ids.take(j)),
    decreases j - i,
{
    assert(ids.take(j).drop_last() =~= ids.take(j - 1));
    assert(ids.take(j).last() == ids[j - 1]);
    if i < j - 1 {
        lemma_lengths_grow(t, ids, i, j - 1);
    }
}

/// The blocks that were moved lie one behind the other in the archive that took them:
/// none begins before the bytes that the archive had, each ends where or before the
/// next begins, and the last ends where the archive ends.
pub proof fn lemma_absorbed_in_line(
    before: UpdateView,
    after: UpdateView,
    from: int,
    ids: Seq<int>,
    data: Seq<u8>,
    i: int,
    j: int,
)
    requires
        absorbed(before, after, from, ids, data),
        0 <= i < j <= ids.len(),
    ensures
        before.archive_len <= after.db.tables.blocks[ids[i]].archive_off,
        after.db.tables.blocks[ids[i]].archive_id == before.archive_id,
        after.db.tables.blocks[ids[i]].length == before.db.tables.blocks[ids[i]].length,
        j < ids.len() ==> after.db.tables.blocks[ids[i]].archive_off
            + after.db.tables.blocks[ids[i]].length
            == after.db.tables.blocks[ids[i + 1]].archive_off,
        j < ids.len() ==> after.db.tables.blocks[ids[i]].archive_off
            + after.db.tables.blocks[ids[i]].length <= after.db.tables.blocks[ids[j]].archive_off,
        after.db.tables.blocks[ids[i]].archive_off + after.db.tables.blocks[ids[i]].length
            <= after.archive_len,
        i == ids.len() - 1 ==> after.db.tables.blocks[ids[i]].archive_off
            + after.db.tables.blocks[ids[i]].length == after.archive_len,
{
    let t = before.db.tables;
    let to = before.archive_id as int;
    let now = after.db.tables.blocks;
    assert(ids.take(ids.len() as int) =~= ids);
    assert(moved_behind(t, now, ids, to, before.archive_len, i));
    lemma_lengths_grow(t, ids, i, ids.len() as int);
    lemma_lengths_grow(t, ids, i, i + 1);
    assert(ids.take(i + 1).drop_last() =~= ids.take(i));
    assert(ids.take(i + 1).last() == ids[i]);
    if j < ids.len() {
        assert(moved_behind(t, now, ids, to, before.archive_len, j));
        assert(moved_behind(t, now, ids, to, before.archive_len, i + 1));
        lemma_lengths_grow(t, ids, i, j);
        lemma_lengths_grow(t, ids, j, ids.len() as int);
        if i + 1 < ids.len() {
            lemma_lengths_grow(t, ids, i + 1, ids.len() as int);
        }
    }
}

/// Moving the blocks of an archive loses and adds no block and changes no digest or
/// length, and leaves no block in the archive that they came from.
pub proof fn lemma_absorbed_keeps(
    before: UpdateView,
    after: UpdateView,
    from: int,
    ids: Seq<int>,
    data: Seq<u8>,
)
    requires
        absorbed(before, after, from, ids, data),
    ensures
        blocks_kept(before.db.tables, after.db.tables),
        forall|b: int| #[trigger]
            after.db.tables.blocks.contains_key(b) ==> after.db.tables.blocks[b].archive_id != from
                || from == before.archive_id,
{
    let t = before.db.tables;
    let now = after.db.tables;
    assert forall|b: int| #[trigger] now.blocks.contains_key(b) implies now.blocks[b].id
        == t.blocks[b].id && now.blocks[b].digest == t.blocks[b].digest && now.blocks[b].length
        == t.blocks[b].length && (now.blocks[b].archive_id != from || from
        == before.archive_id) by {
        assert(t.blocks.contains_key(b));
        if t.blocks[b].archive_id == from {
            assert(ids.contains(b));
            let j = ids.index_of(b);
            assert(ids[j] == b);
            assert(moved_behind(t, now.blocks, ids, before.archive_id as int, before.archive_len, j));
        }
    }
}

/// No block was lost or added, and none has another digest or length than it had.
pub open spec fn blocks_kept(old: Tables, new: Tables) -> bool {
    &&& forall|b: int| old.blocks.contains_key(b) <==> #[trigger] new.blocks.contains_key(b)
    &&& forall|b: int| #[trigger]
        new.blocks.contains_key(b) ==> new.blocks[b].id == old.blocks[b].id
            && new.blocks[b].digest == old.blocks[b].digest && new.blocks[b].length
            == old.blocks[b].length
}

/// The manifest: the database between sessions.
pub struct Manifest {
    db: Database,
}

impl View for Manifest {
    type V = State;

    closed spec fn view(&self) -> State {
        self.db@
    }
}

/// Whether small archives are to be collected: before any was collected, if there are
/// more than the upper limit and the limit is not zero; after that, while there are
/// more than the lower limit.
pub open spec fn archives_due(count: nat, config: Config, started: bool) -> bool {
    if started {
        count > config.small_archives_lower_limit
    } else {
        count > config.small_archives_upper_limit && config.small_archives_upper_limit != 0
    }
}

/// Whether small patchsets are to be collected: if there are more than the limit and
/// the limit is not zero.
pub open spec fn patchsets_due(count: nat, config: Config) -> bool {
    count > config.small_patchsets_limit && config.small_patchsets_limit != 0
}

/// The database after the changes of a patchset were applied to it, one after the
/// other.
pub open spec fn patched(s: State, cs: Seq<ChangeView>) -> State
    decreases cs.len(),
{
    if cs.len() == 0 {
        s
    } else {
        let before = patched(s, cs.drop_last());
        if crate::tables::admissible(before.tables, cs.last()) {
            recorded(before, cs.last())
        } else {
            before
        }
    }
}

/// Applying the changes of a patchset replays them on the tables.
pub proof fn lemma_patched_tables(s: State, cs: Seq<ChangeView>)
    ensures
        patched(s, cs).tables == replay(s.tables, cs),
        patched(s, cs).patchsets == s.patchsets,
        patched(s, cs).new_files == s.new_files,
        patched(s, cs).last.patchset == s.last.patchset,
    decreases cs.len(),
{
    if cs.len() > 0 {
        lemma_patched_tables(s, cs.drop_last());
    }
}

impl Manifest {
    /// The manifest keeps what it guarantees.
    pub closed spec fn wf(&self) -> bool {
        self.db.wf()
    }

    /// The manifest that a database holds.
    pub fn open(db: Database) -> (m: Manifest)
        requires
            db.wf(),
        ensures
            m.wf(),
            m@ == db@,
    {
        Manifest { db }
    }

    /// The database of the manifest.
    pub fn database(&self) -> (db: &Database)
        requires
            self.wf(),
        ensures
            db.wf(),
            db@ == self@,
    {
        &self.db
    }

    /// Begins a session that changes the manifest.
    pub fn update(self) -> (r: Result<Update, Error>)
        requires
            self.wf(),
        ensures
            match r {
                Ok(update) => {
                    &&& update.wf()
                    &&& update@.archive_id == self@.last.archive + 1
                    &&& update@.archive_len == 0
                    &&& update@.blocks == Seq::<u8>::empty()
                    &&& update@.db == (State {
                        new_files: Map::empty(),
                        visited_files: Set::empty(),
                        visited_directories: Set::empty(),
                        visited_symbolic_links: Set::empty(),
                        base: self@.tables,
                        log: Seq::empty(),
                        last: LastIds { archive: self@.last.archive + 1, ..self@.last },
                        ..self@
                    })
                },
                Err(e) => e == Error::IdsExhausted && self@.last.archive == i64::MAX,
            },
    {
        Update::begin(self.db)
    }

    /// Whether small archives are to be collected now. `started` tells whether a
    /// collection has run since the backup.
    pub fn maybe_collect_small_archives(&self, config: &Config, started: bool) -> (r: bool)
        requires
            self.wf(),
        ensures
            r == archives_due(
                Set::new(|id: int| small_archive(self@.tables, id, config.min_archive_len)).len(),
                *config,
                started,
            ),
    {
        let small = select_small_archives(&self.db, config.min_archive_len);
        proof {
            let ids = crate::table::id_seq(small@);
            assert(ids.to_set()
                =~= Set::new(|id: int| small_archive(self@.tables, id, config.min_archive_len)));
            ids.unique_seq_to_set();
        }
        if started {
            small.len() > config.small_archives_lower_limit
        } else {
            small.len() > config.small_archives_upper_limit
                && config.small_archives_upper_limit != 0
        }
    }

    /// The small archives that a collection takes in, the one with the fewest bytes
    /// first. Refused if there are fewer than two.
    pub fn collect_small_archives(&self, config: &Config) -> (r: Result<Vec<i64>, Error>)
        requires
            self.wf(),
        ensures
            match r {
                Ok(ids) => {
                    &&& ids@.len() >= 2
                    &&& crate::table::id_seq(ids@).no_duplicates()
                    &&& forall|id: int|
                        crate::table::id_seq(ids@).contains(id) <==> #[trigger] small_archive(
                            self@.tables,
                            id,
                            config.min_archive_len,
                        )
                    &&& forall|i: int, j: int|
                        0 <= i < j < ids@.len() ==> crate::sort::rank_le(
                            crate::tables::small_archive_rank(self@.tables, ids@[i] as int),
                            crate::tables::small_archive_rank(self@.tables, ids@[j] as int),
                        )
                },
                Err(e) => e == Error::NotEnoughSmallArchives && Set::new(
                    |id: int| small_archive(self@.tables, id, config.min_archive_len),
                ).len() <= 1,
            },
    {
        let small = select_small_archives(&self.db, config.min_archive_len);
        proof {
            let ids = crate::table::id_seq(small@);
            assert(ids.to_set()
                =~= Set::new(|id: int| small_archive(self@.tables, id, config.min_archive_len)));
            ids.unique_seq_to_set();
        }
        if small.len() <= 1 {
            return Err(Error::NotEnoughSmallArchives);
        }
        Ok(small)
    }

    /// Whether small patchsets are to be collected now.
    pub fn maybe_collect_small_patchsets(&self, config: &Config) -> (r: bool)
        requires
            self.wf(),
        ensures
            r == patchsets_due(
                Set::new(|id: int| small_patchset(self@, id, config.max_manifest_len)).len(),
                *config,
            ),
    {
        let small = select_small_patchsets(&self.db, config.max_manifest_len);
        proof {
            let ids = pair_ids(small@);
            assert(ids.to_set()
                =~= Set::new(|id: int| small_patchset(self@, id, config.max_manifest_len)));
            ids.unique_seq_to_set();
        }
        small.len() > config.small_patchsets_limit && config.small_patchsets_limit != 0
    }

    /// The small patchsets that a collection joins, the one with the highest id first,
    /// each with the id of its blob. Refused if there are fewer than two, or if one of
    /// them was never uploaded.
    pub fn collect_small_patchsets(&self, config: &Config) -> (r: Result<
        Vec<(i64, Vec<u8>)>,
        Error,
    >)
        requires
            self.wf(),
        ensures
            match r {
                Ok(found) => {
                    &&& found@.len() >= 2
                    &&& pair_ids(found@).no_duplicates()
                    &&& forall|id: int|
                        pair_ids(found@).contains(id) <==> #[trigger] small_patchset(
                            self@,
                            id,
                            config.max_manifest_len,
                        )
                    &&& forall|i: int, j: int| 0 <= i < j < found@.len() ==>
                        found@[i].0 > found@[j].0
                    &&& forall|k: int|
                        0 <= k < found@.len() ==> self@.patchsets.contains_key(
                            (#[trigger] found@[k]).0 as int,
                        ) && self@.patchsets[found@[k].0 as int].blob_file_id == Some(found@[k].1@)
                },
                Err(e) => (e == Error::NotEnoughSmallPatchsets && Set::new(
                    |id: int| small_patchset(self@, id, config.max_manifest_len),
                ).len() <= 1) || (e == Error::NotUploaded && exists|id: int| #[trigger]
                    small_patchset(self@, id, config.max_manifest_len)
                        && self@.patchsets[id].blob_file_id is None),
            },
            Set::new(|id: int| small_patchset(self@, id, config.max_manifest_len)).len() <= 1
                ==> r == Err::<Vec<(i64, Vec<u8>)>, Error>(Error::NotEnoughSmallPatchsets),
    {
        let small = select_small_patchsets(&self.db, config.max_manifest_len);
        proof {
            let ids = pair_ids(small@);
            assert(ids.to_set()
                =~= Set::new(|id: int| small_patchset(self@, id, config.max_manifest_len)));
            ids.unique_seq_to_set();
        }
        if small.len() <= 1 {
            return Err(Error::NotEnoughSmallPatchsets);
        }
        let mut found: Vec<(i64, Vec<u8>)> = Vec::new();
        let mut k: usize = 0;
        while k < small.len()
            invariant
                k <= small@.len(),
                small@.len() > 1,
                small@.len() == Set::new(
                    |id: int| small_patchset(self@, id, config.max_manifest_len),
                ).len(),
                found@.len() == k,
                pair_ids(small@).no_duplicates(),
                forall|id: int| pair_ids(small@).contains(id) <==>
                    #[trigger] small_patchset(self@, id, config.max_manifest_len),
                forall|i: int, j: int| 0 <= i < j < small@.len() ==> small@[i].0 > small@[j].0,
                forall|j: int|
                    0 <= j < small@.len() ==>
                        self@.patchsets.contains_key((#[trigger] small@[j]).0 as int)
                        && opt_bytes(small@[j].1)
                            == self@.patchsets[small@[j].0 as int].blob_file_id,
                forall|j: int| 0 <= j < k ==>
                    (#[trigger] found@[j]).0 == small@[j].0
                        && opt_bytes(small@[j].1) == Some(found@[j].1@),
            decreases small@.len() - k,
        {
            match &small[k].1 {
                Some(file_id) => {
                    found.push((small[k].0, copy_bytes(file_id.as_slice())));
                },
                None => {
                    proof {
                        let id = small@[k as int].0 as int;
                        assert(pair_ids(small@)[k as int] == id);
                        assert(pair_ids(small@).contains(id));
                        assert(small_patchset(self@, id, config.max_manifest_len));
                        assert(self@.patchsets[id].blob_file_id is None);
                    }
                    return Err(Error::NotUploaded);
                },
            }
            k += 1;
        }
        proof {
            assert(pair_ids(found@) =~= pair_ids(small@));
        }
        Ok(found)
    }

    /// Adds a patchset that is to be uploaded, and returns its id and the name of its
    /// blob.
    pub fn begin_patchset(&mut self) -> (r: Result<(i64, Vec<u8>), Error>)
        requires
            old(self).wf(),
        ensures
            final(self).wf(),
            match r {
                Ok((id, name)) => {
                    &&& id == old(self)@.last.patchset + 1
                    &&& name@ == manifest_prefix() + decimal(id as int)
                    &&& final(self)@ == (State {
                        patchsets: old(self)@.patchsets.insert(
                            id as int,
                            PatchsetView { id: id as int, blob_file_id: None, blob_length: None },
                        ),
                        last: LastIds { patchset: id as int, ..old(self)@.last },
                        ..old(self)@
                    })
                },
                Err(e) => e == Error::IdsExhausted && old(self)@.last.patchset == i64::MAX
                    && final(self)@ == old(self)@,
            },
    {
        match insert_def_patchset(&mut self.db) {
            Ok(id) => Ok((id, patchset_name(id))),
            Err(e) => Err(e),
        }
    }

    /// Notes where the patchset with the given id was uploaded.
    pub fn patchset_uploaded(&mut self, patchset_id: i64, blob_file_id: &[u8], blob_length: u64)
        requires
            old(self).wf(),
        ensures
            final(self).wf(),
            final(self)@ == if old(self)@.patchsets.contains_key(patchset_id as int) {
                State {
                    patchsets: old(self)@.patchsets.insert(
                        patchset_id as int,
                        PatchsetView {
                            id: patchset_id as int,
                            blob_file_id: Some(blob_file_id@),
                            blob_length: Some(blob_length),
                        },
                    ),
                    ..old(self)@
                }
            } else {
                old(self)@
            },
    {
        update_patchset(&mut self.db, patchset_id, blob_file_id, blob_length);
    }

    /// Deletes the patchsets that a collection has joined.
    pub fn delete_patchsets(&mut self, joined: &Vec<(i64, Vec<u8>)>)
        requires
            old(self).wf(),
        ensures
            final(self).wf(),
            final(self)@ == (State {
                patchsets: without_first(
                    old(self)@.patchsets,
                    ids_of(joined@),
                    joined@.len() as int,
                ),
                ..old(self)@
            }),
    {
        let ghost s0 = self.db@;
        let mut k: usize = 0;
        proof {
            assert(without_first(s0.patchsets, ids_of(joined@), 0) =~= s0.patchsets);
        }
        while k < joined.len()
            invariant
                k <= joined@.len(),
                self.db.wf(),
                self.db@ == (State {
                    patchsets: without_first(s0.patchsets, ids_of(joined@), k as int),
                    ..s0
                }),
            decreases joined@.len() - k,
        {
            delete_patchset(&mut self.db, joined[k].0);
            proof {
                assert(ids_of(joined@)[k as int] == joined@[k as int].0);
                assert(without_first(s0.patchsets, ids_of(joined@), k + 1) =~= without_first(
                    s0.patchsets,
                    ids_of(joined@),
                    k as int,
                ).remove(joined@[k as int].0 as int));
            }
            k += 1;
        }
    }

    /// Empties the manifest, as the first step of rebuilding it from its patchsets.
    pub fn restore_manifest(&mut self)
        requires
            old(self).wf(),
        ensures
            final(self).wf(),
            final(self)@ == (State {
                tables: empty_tables(),
                patchsets: Map::empty(),
                base: empty_tables(),
                log: Seq::empty(),
                ..old(self)@
            }),
    {
        clear_tables(&mut self.db);
    }

    /// Applies a patchset to the manifest and notes it as uploaded.
    ///
    /// Every change of the patchset that the manifest takes is made, in order; a change
    /// that it does not take is left out. Refused, without any change, if the bytes
    /// hold no change-set or a patchset has the id already.
    pub fn apply_patchset(
        &mut self,
        patchset: &[u8],
        patchset_id: i64,
        blob_file_id: &[u8],
        blob_length: u64,
    ) -> (r: Result<(), Error>)
        requires
            old(self).wf(),
        ensures
            final(self).wf(),
            r == Err::<(), Error>(Error::BadPatchset) <==> decoded(patchset@) is None,
            r == Err::<(), Error>(Error::Constraint) <==> decoded(patchset@) is Some
                && old(self)@.patchsets.contains_key(patchset_id as int),
            match r {
                Ok(()) => {
                    &&& final(self)@.tables
                        == replay(old(self)@.tables, decoded(patchset@).unwrap())
                    &&& final(self)@ == (State {
                        patchsets: old(self)@.patchsets.insert(
                            patchset_id as int,
                            PatchsetView {
                                id: patchset_id as int,
                                blob_file_id: Some(blob_file_id@),
                                blob_length: Some(blob_length),
                            },
                        ),
                        last: LastIds {
                            patchset: crate::tables::higher(
                                old(self)@.last.patchset,
                                patchset_id as int,
                            ),
                            ..patched(old(self)@, decoded(patchset@).unwrap()).last
                        },
                        ..patched(old(self)@, decoded(patchset@).unwrap())
                    })
                },
                Err(e) => final(self)@ == old(self)@ && (e == Error::BadPatchset || e
                    == Error::Constraint),
            },
    {
        let changes = match decode_changes(patchset) {
            Some(changes) => changes,
            None => {
                return Err(Error::BadPatchset);
            },
        };
        if crate::database::select_patchset(&self.db, patchset_id) {
            return Err(Error::Constraint);
        }
        let ghost s0 = self.db@;
        let ghost cs = change_views(changes@);
        let mut changes = changes;
        let mut rest: Vec<Change> = Vec::new();
        // the changes are taken from the end, so they are turned round first
        while changes.len() > 0
            invariant
                change_views(changes@) + change_views(rest@).reverse() == cs,
            decreases changes@.len(),
        {
            let ghost before = change_views(changes@);
            let ghost done = change_views(rest@);
            let c = changes.pop().unwrap();
            rest.push(c);
            proof {
                assert(change_views(changes@) =~= before.drop_last());
                assert(change_views(rest@) =~= done.push(before.last()));
                assert(change_views(rest@).reverse() =~= seq![before.last()] + done.reverse());
                assert(change_views(changes@) + change_views(rest@).reverse() =~= before
                    + done.reverse());
            }
        }
        proof {
            assert(change_views(rest@).reverse() =~= cs);
            assert(cs.take(0) =~= Seq::<ChangeView>::empty());
        }
        let mut n: usize = 0;
        let total = rest.len();
        while rest.len() > 0
            invariant
                self.db.wf(),
                n + rest@.len() == total,
                total == cs.len(),
                forall|j: int| 0 <= j < rest@.len() ==> change_views(rest@)[j] == cs[total - 1 - j],
                self.db@ == patched(s0, cs.take(n as int)),
            decreases rest@.len(),
        {
            let ghost r0 = change_views(rest@);
            let c = rest.pop().unwrap();
            proof {
                assert(c@ == r0[r0.len() - 1]);
                assert(c@ == cs[n as int]);
                assert(cs.take(n + 1).drop_last() =~= cs.take(n as int));
                assert(cs.take(n + 1).last() == cs[n as int]);
                assert forall|j: int| 0 <= j < rest@.len() implies change_views(rest@)[j]
                    == cs[total - 1 - j] by {
                    assert(change_views(rest@)[j] == r0[j]);
                }
            }
            apply_change(&mut self.db, c);
            n += 1;
        }
        proof {
            assert(cs.take(cs.len() as int) =~= cs);
            lemma_patched_tables(s0, cs);
        }
        match insert_patchset(&mut self.db, patchset_id, blob_file_id, blob_length) {
            Ok(()) => {},
            Err(e) => {},
        }
        Ok(())
    }
}

/// Joins patchsets into one: the bytes of the first, then those of the next, and so
/// on. Applying the joined patchset makes the changes of each in turn. Refused if the
/// bytes of one of them hold no change-set.
pub fn combine_patchsets(parts: &Vec<Vec<u8>>) -> (r: Result<Vec<u8>, Error>)
    ensures
        r is Ok <==> forall|i: int| 0 <= i < parts@.len() ==>
            decoded(#[trigger] parts@[i]@) is Some,
        r matches Ok(joined) ==> joined@ == crate::split::concat(crate::split::byte_views(parts@)),
        r matches Err(e) ==> e == Error::BadPatchset,
{
    let mut out: Vec<u8> = Vec::new();
    let mut i: usize = 0;
    let ghost views = crate::split::byte_views(parts@);
    proof {
        assert(views.take(0) =~= Seq::<Seq<u8>>::empty());
    }
    while i < parts.len()
        invariant
            i <= parts@.len(),
            views == crate::split::byte_views(parts@),
            out@ == crate::split::concat(views.take(i as int)),
            forall|j: int| 0 <= j < i ==> decoded(#[trigger] parts@[j]@) is Some,
        decreases parts@.len() - i,
    {
        if decode_changes(parts[i].as_slice()).is_none() {
            return Err(Error::BadPatchset);
        }
        append_bytes(&mut out, parts[i].as_slice());
        proof {
            crate::split::lemma_concat_one_more(views.take(i as int), views[i as int]);
            assert(views.take(i + 1) =~= views.take(i as int).push(views[i as int]));
        }
        i += 1;
    }
    proof {
        assert(views.take(views.len() as int) =~= views);
    }
    Ok(out)
}

/// The tables are what a session leaves behind that began with `start`: the new files
/// that were ready have become files, and garbage was collected. `unused` are the
/// archives that were deleted because no block lies in them any more, each with the id
/// of its blob if it was uploaded.
pub open spec fn session_closed(
    start: State,
    keep_unvisited_files: bool,
    tables: Tables,
    unused: Seq<(i64, Option<Vec<u8>>)>,
) -> bool {
    exists|before: State|
        {
            &&& promotion_done(start, before)
            &&& tables == collected(before, keep_unvisited_files)
            &&& forall|id: int|
                pair_ids(unused).contains(id) <==> #[trigger] before.tables.archives.contains_key(
                    id,
                ) && !archive_used(swept(before, keep_unvisited_files), id)
            &&& forall|k: int|
                0 <= k < unused.len() ==> before.tables.archives.contains_key(
                    (#[trigger] unused[k]).0 as int,
                ) && opt_bytes(unused[k].1)
                    == before.tables.archives[unused[k].0 as int].blob_file_id
        }
}

/// A patchset that is to be uploaded.
pub struct PatchsetUpload {
    /// The id of the patchset.
    pub id: i64,
    /// The name of its blob.
    pub name: Vec<u8>,
    /// The change-set of the session, as bytes.
    pub bytes: Vec<u8>,
}

/// How a session ended.
pub struct Ended {
    /// The manifest after the session.
    pub manifest: Manifest,
    /// The patchset of the session, to be uploaded before the manifest is saved. None
    /// if the session changed nothing; the manifest is then as the session found it.
    pub patchset: Option<PatchsetUpload>,
    /// The archives that the session deleted because no block lies in them any more,
    /// each with the id of its blob if it was uploaded. Their blobs are to be removed
    /// once the manifest is saved.
    pub unused_archives: Vec<(i64, Option<Vec<u8>>)>,
}

impl Update {
    /// Ends the session and prepares the upload of its patchset.
    ///
    /// The new files that are ready become files of the manifest and garbage is
    /// collected, as `finish` does. If the session has changed the manifest, its
    /// changes are written as a change-set and a patchset is added that is to be
    /// uploaded under the name given. The change-set, read back and applied to the
    /// manifest as the session found it, gives the manifest as it is.
    pub fn end_session(self, keep_unvisited_files: bool) -> (r: Result<Ended, Error>)
        requires
            self.wf(),
        ensures
            match r {
                Ok(ended) => {
                    &&& ended.manifest.wf()
                    &&& ended.manifest@.base == self@.db.base
                    &&& replay(self@.db.base, ended.manifest@.log) == ended.manifest@.tables
                    &&& ended.patchset is None <==> ended.manifest@.log.len() == 0
                    &&& ended.patchset is None ==> ended.manifest@.tables == self@.db.base
                        && ended.manifest@.patchsets == self@.db.patchsets
                    &&& ended.patchset matches Some(p) ==> {
                        &&& p.id == self@.db.last.patchset + 1
                        &&& p.name@ == manifest_prefix() + decimal(p.id as int)
                        &&& p.bytes@ == encoded(ended.manifest@.log)
                        &&& decoded(p.bytes@) == Some(ended.manifest@.log)
                        &&& replay(self@.db.base, decoded(p.bytes@).unwrap())
                            == ended.manifest@.tables
                        &&& ended.manifest@.patchsets == self@.db.patchsets.insert(
                            p.id as int,
                            PatchsetView { id: p.id as int, blob_file_id: None, blob_length: None },
                        )
                    }
                    &&& session_closed(
                        self@.db,
                        keep_unvisited_files,
                        ended.manifest@.tables,
                        ended.unused_archives@,
                    )
                    &&& crate::tables::settled(self@.db.tables) ==> crate::tables::settled(
                        ended.manifest@.tables,
                    ) && crate::tables::all_uploaded(ended.manifest@.tables)
                    &&& pair_ids(ended.unused_archives@).no_duplicates()
                    &&& forall|b: int| #[trigger]
                        ended.manifest@.tables.blocks.contains_key(b) ==> block_mapped(
                            ended.manifest@.tables,
                            b,
                        )
                    &&& forall|a: int| #[trigger]
                        ended.manifest@.tables.archives.contains_key(a) ==> archive_used(
                            ended.manifest@.tables,
                            a,
                        )
                    &&& tables_wf(ended.manifest@.tables)
                },
                Err(e) => e == Error::IdsExhausted && (self@.db.last.patchset == i64::MAX
                    || self@.db.last.file + ready_count(self@.db) > i64::MAX),
            },
    {
        let ghost before = self@.db;
        let done = match self.finish(keep_unvisited_files) {
            Ok(done) => done,
            Err(e) => {
                return Err(e);
            },
        };
        proof {
            done.db.lemma_wf();
        }
        let mut manifest = Manifest::open(done.db);
        let ghost after = manifest@;
        proof {
            let unused = done.unused_archives@;
            let mid = choose|mid: State|
                {
                    &&& promotion_done(before, mid)
                    &&& after == (State {
                        tables: collected(mid, keep_unvisited_files),
                        log: after.log,
                        ..mid
                    })
                    &&& forall|id: int|
                        pair_ids(unused).contains(id) <==>
                            #[trigger] mid.tables.archives.contains_key(
                            id,
                        ) && !archive_used(swept(mid, keep_unvisited_files), id)
                    &&& forall|k: int|
                        0 <= k < unused.len() ==> mid.tables.archives.contains_key(
                            (#[trigger] unused[k]).0 as int,
                        ) && opt_bytes(unused[k].1)
                            == mid.tables.archives[unused[k].0 as int].blob_file_id
                };
            assert(after.patchsets == before.patchsets && after.last.patchset
                == before.last.patchset);
            assert(session_closed(before, keep_unvisited_files, after.tables, unused));
        }
        if done.changes.len() == 0 {
            return Ok(Ended { manifest, patchset: None, unused_archives: done.unused_archives });
        }
        let bytes = match encode_changes(&done.changes) {
            Some(bytes) => bytes,
            None => {
                proof {
                    assert(false);
                }
                return Err(Error::IdsExhausted);
            },
        };
        let (id, name) = match manifest.begin_patchset() {
            Ok(pair) => pair,
            Err(e) => {
                return Err(e);
            },
        };
        Ok(
            Ended {
                manifest,
                patchset: Some(PatchsetUpload { id, name, bytes }),
                unused_archives: done.unused_archives,
            },
        )
    }
}

/// Stores the blocks of one file, one after the other.
pub struct FileWriter {
    new_file_id: i64,
    offset: u64,
}

/// What a file writer holds.
pub struct FileWriterView {
    /// The id of the new file that is written.
    pub new_file_id: i64,
    /// Where the next block goes: the length of the blocks stored so far.
    pub offset: u64,
}

impl View for FileWriter {
    type V = FileWriterView;

    closed spec fn view(&self) -> FileWriterView {
        FileWriterView { new_file_id: self.new_file_id, offset: self.offset }
    }
}

impl FileWriter {
    /// Begins to write the new file with the given id at its start.
    pub fn new(new_file_id: i64) -> (r: FileWriter)
        ensures
            r@ == (FileWriterView { new_file_id, offset: 0 }),
    {
        FileWriter { new_file_id, offset: 0 }
    }

    /// The id of the new file that is written.
    pub fn new_file_id(&self) -> (id: i64)
        ensures
            id == self@.new_file_id,
    {
        self.new_file_id
    }

    /// The length of the blocks stored so far.
    pub fn offset(&self) -> (offset: u64)
        ensures
            offset == self@.offset,
    {
        self.offset
    }

    /// Stores the next block of the file: the block is stored at the offset that the
    /// writer has reached, as `store_block` stores it, and the next block goes behind
    /// it. Refused, without any change, if the file would grow longer than an offset
    /// can tell.
    pub fn write(&mut self, update: &mut Update, min_archive_len: u64, block: &[u8]) -> (r:
        Result<Option<Sealed>, Error>)
        requires
            old(update).wf(),
        ensures
            final(update).wf(),
            final(self)@.new_file_id == old(self)@.new_file_id,
            r == Err::<Option<Sealed>, Error>(Error::FileTooLong) <==> old(self)@.offset
                + block@.len() > u64::MAX,
            r == Err::<Option<Sealed>, Error>(Error::FileTooLong) ==> final(update)@ == old(
                update,
            )@,
            old(self)@.offset + block@.len() <= u64::MAX ==> block_stored(
                old(update)@,
                final(update)@,
                min_archive_len,
                old(self)@.new_file_id as int,
                old(self)@.offset,
                block@,
                r,
            ),
            r is Err ==> final(self)@ == old(self)@,
            r is Ok ==> final(self)@.offset == old(self)@.offset + block@.len(),
            r is Ok ==> final(update)@.db.new_files.contains_key(old(self)@.new_file_id as int)
                && final(update)@.db.new_files[old(self)@.new_file_id as int].mappings.len()
                == old(update)@.db.new_files[old(self)@.new_file_id as int].mappings.len() + 1
                && final(update)@.db.new_files[old(self)@.new_file_id as int].mappings.last().offset
                == old(self)@.offset,
    {
        let length = block.len() as u64;
        if length > u64::MAX - self.offset {
            return Err(Error::FileTooLong);
        }
        let ghost u0 = update@;
        let r = store_block(update, min_archive_len, self.new_file_id, self.offset, block);
        match r {
            Ok(sealed) => {
                proof {
                    let ms = u0.db.new_files[self.new_file_id as int].mappings;
                    let now = update@.db.new_files[self.new_file_id as int].mappings;
                    if has_digest(u0.db.tables, blake3_hash(block@)) {
                        assert(now == ms.push(
                            Mapping {
                                offset: self.offset,
                                block_id: block_with(u0.db.tables, blake3_hash(block@)) as i64,
                            },
                        ));
                    } else {
                        assert(now == ms.push(
                            Mapping {
                                offset: self.offset,
                                block_id: (u0.db.last.block + 1) as i64,
                            },
                        ));
                    }
                }
                self.offset = self.offset + length;
                Ok(sealed)
            },
            Err(e) => Err(e),
        }
    }
}

} // verus!
