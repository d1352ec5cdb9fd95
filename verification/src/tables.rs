//! The manifest as a mathematical value, the changes that a session makes to it, and
//! what it means to apply them.
//!
//! Every mutation of the manifest's lasting tables is one `Change`. A session records
//! the changes it makes; applied in order to the manifest the session began with, they
//! give the manifest it ended with. That makes the recorded changes of all sessions,
//! one after the other, a complete description of the manifest.

use crate::rows::{
    Archive, ArchiveView, Block, BlockView, Directory, DirectoryView, File, FileView, Mapping,
    NewFileView, PatchsetView, SymbolicLink, SymbolicLinkView,
};
use vstd::prelude::*;

verus! {

/// The lasting tables of the manifest, each as a map from id to row.
pub struct Tables {
    pub archives: Map<int, ArchiveView>,
    pub files: Map<int, FileView>,
    pub directories: Map<int, DirectoryView>,
    pub symbolic_links: Map<int, SymbolicLinkView>,
    pub blocks: Map<int, BlockView>,
}

/// The manifest without any row.
pub open spec fn empty_tables() -> Tables {
    Tables {
        archives: Map::empty(),
        files: Map::empty(),
        directories: Map::empty(),
        symbolic_links: Map::empty(),
        blocks: Map::empty(),
    }
}

/// Every row is stored under its own id.
pub open spec fn keyed(t: Tables) -> bool {
    &&& forall|id: int| #[trigger] t.archives.contains_key(id) ==> t.archives[id].id == id
    &&& forall|id: int| #[trigger] t.files.contains_key(id) ==> t.files[id].id == id
    &&& forall|id: int| #[trigger] t.directories.contains_key(id) ==> t.directories[id].id == id
    &&& forall|id: int| #[trigger]
        t.symbolic_links.contains_key(id) ==> t.symbolic_links[id].id == id
    &&& forall|id: int| #[trigger] t.blocks.contains_key(id) ==> t.blocks[id].id == id
}

/// No file but the one with id `except` has the path `path`.
pub open spec fn file_path_free(t: Tables, path: Seq<u8>, except: int) -> bool {
    forall|id: int| #[trigger] t.files.contains_key(id) && id != except ==> t.files[id].path != path
}

/// No directory but the one with id `except` has the path `path`.
pub open spec fn directory_path_free(t: Tables, path: Seq<u8>, except: int) -> bool {
    forall|id: int| #[trigger]
        t.directories.contains_key(id) && id != except ==> t.directories[id].path != path
}

/// No symbolic link but the one with id `except` has the path `path`.
pub open spec fn symbolic_link_path_free(t: Tables, path: Seq<u8>, except: int) -> bool {
    forall|id: int| #[trigger]
        t.symbolic_links.contains_key(id) && id != except ==> t.symbolic_links[id].path != path
}

/// No block but the one with id `except` has the digest `digest`.
pub open spec fn digest_free(t: Tables, digest: Seq<u8>, except: int) -> bool {
    forall|id: int| #[trigger]
        t.blocks.contains_key(id) && id != except ==> t.blocks[id].digest != digest
}

/// The most mappings that a file can have: as many as a byte string that the machine
/// can address holds, at the 16 bytes that a mapping takes in memory and when written
/// down. No list of mappings in memory is longer.
pub const MAX_MAPPINGS: usize = usize::MAX / 16;

/// No two mappings share an offset.
pub open spec fn distinct_offsets(ms: Seq<Mapping>) -> bool {
    forall|i: int, j: int|
        0 <= i < ms.len() && 0 <= j < ms.len() && i != j ==> ms[i].offset != ms[j].offset
}

/// Every mapping names a block of the manifest.
pub open spec fn blocks_exist(t: Tables, ms: Seq<Mapping>) -> bool {
    forall|i: int| 0 <= i < ms.len() ==> t.blocks.contains_key(#[trigger] ms[i].block_id as int)
}

/// One of `ms` names the block with id `block_id`.
pub open spec fn names_block(ms: Seq<Mapping>, block_id: int) -> bool {
    exists|i: int| 0 <= i < ms.len() && #[trigger] ms[i].block_id == block_id
}

/// One of `ms` names a block that lies in the archive with id `archive_id`.
pub open spec fn names_archive(t: Tables, ms: Seq<Mapping>, archive_id: int) -> bool {
    exists|i: int|
        0 <= i < ms.len() && t.blocks.contains_key(#[trigger] ms[i].block_id as int)
            && t.blocks[ms[i].block_id as int].archive_id == archive_id
}

/// Some file of the manifest maps the block with id `block_id`.
pub open spec fn block_mapped(t: Tables, block_id: int) -> bool {
    exists|f: int| #[trigger] t.files.contains_key(f) && names_block(t.files[f].mappings, block_id)
}

/// Some block of the manifest lies in the archive with id `archive_id`.
pub open spec fn archive_used(t: Tables, archive_id: int) -> bool {
    exists|b: int| #[trigger] t.blocks.contains_key(b) && t.blocks[b].archive_id == archive_id
}

/// Some file of the manifest maps a block that lies in the archive with id `archive_id`.
pub open spec fn archive_mapped(t: Tables, archive_id: int) -> bool {
    exists|f: int| #[trigger]
        t.files.contains_key(f) && names_archive(t, t.files[f].mappings, archive_id)
}

/// What the manifest's tables guarantee at any time: rows are stored under their ids,
/// paths and digests are unique, every block lies in an archive of the manifest, and
/// every file maps blocks of the manifest at distinct offsets, and not more than a
/// file can have.
pub open spec fn tables_wf(t: Tables) -> bool {
    &&& keyed(t)
    &&& forall|id: int| #[trigger]
        t.files.contains_key(id) ==> file_path_free(t, t.files[id].path, id)
    &&& forall|id: int| #[trigger]
        t.directories.contains_key(id) ==> directory_path_free(t, t.directories[id].path, id)
    &&& forall|id: int| #[trigger]
        t.symbolic_links.contains_key(id) ==> symbolic_link_path_free(
            t,
            t.symbolic_links[id].path,
            id,
        )
    &&& forall|id: int| #[trigger]
        t.blocks.contains_key(id) ==> digest_free(t, t.blocks[id].digest, id)
    &&& forall|id: int| #[trigger]
        t.blocks.contains_key(id) ==> t.archives.contains_key(t.blocks[id].archive_id)
    &&& forall|id: int| #[trigger]
        t.files.contains_key(id) ==> distinct_offsets(t.files[id].mappings) && blocks_exist(
            t,
            t.files[id].mappings,
        ) && t.files[id].mappings.len() <= MAX_MAPPINGS
}

#[allow(inconsistent_fields)]
/// One mutation of the manifest's lasting tables.
///
/// A `Put` stores a row under its id, in place of the row that is there. `fresh` tells
/// whether the row was new when the change was recorded: a change that is not fresh is
/// left out where its row is missing.
pub enum Change {
    PutArchive { row: Archive, fresh: bool },
    /// Deletes an archive and the blocks in it.
    DeleteArchive { id: i64 },
    PutFile { row: File, fresh: bool },
    /// Deletes a file and its mappings.
    DeleteFile { id: i64 },
    PutDirectory { row: Directory, fresh: bool },
    DeleteDirectory { id: i64 },
    PutSymbolicLink { row: SymbolicLink, fresh: bool },
    DeleteSymbolicLink { id: i64 },
    PutBlock { row: Block, fresh: bool },
    DeleteBlock { id: i64 },
}

#[allow(inconsistent_fields)]
pub enum ChangeView {
    PutArchive { row: ArchiveView, fresh: bool },
    DeleteArchive { id: int },
    PutFile { row: FileView, fresh: bool },
    DeleteFile { id: int },
    PutDirectory { row: DirectoryView, fresh: bool },
    DeleteDirectory { id: int },
    PutSymbolicLink { row: SymbolicLinkView, fresh: bool },
    DeleteSymbolicLink { id: int },
    PutBlock { row: BlockView, fresh: bool },
    DeleteBlock { id: int },
}

impl View for Change {
    type V = ChangeView;

    open spec fn view(&self) -> ChangeView {
        match *self {
            Change::PutArchive { row, fresh } => ChangeView::PutArchive { row: row@, fresh },
            Change::DeleteArchive { id } => ChangeView::DeleteArchive { id: id as int },
            Change::PutFile { row, fresh } => ChangeView::PutFile { row: row@, fresh },
            Change::DeleteFile { id } => ChangeView::DeleteFile { id: id as int },
            Change::PutDirectory { row, fresh } => ChangeView::PutDirectory { row: row@, fresh },
            Change::DeleteDirectory { id } => ChangeView::DeleteDirectory { id: id as int },
            Change::PutSymbolicLink { row, fresh } => ChangeView::PutSymbolicLink {
                row: row@,
                fresh,
            },
            Change::DeleteSymbolicLink { id } => ChangeView::DeleteSymbolicLink { id: id as int },
            Change::PutBlock { row, fresh } => ChangeView::PutBlock { row: row@, fresh },
            Change::DeleteBlock { id } => ChangeView::DeleteBlock { id: id as int },
        }
    }
}

impl Change {
    pub fn copy(&self) -> (r: Change)
        ensures
            r@ == self@,
    {
        match self {
            Change::PutArchive { row, fresh } => Change::PutArchive {
                row: row.copy(),
                fresh: *fresh,
            },
            Change::DeleteArchive { id } => Change::DeleteArchive { id: *id },
            Change::PutFile { row, fresh } => Change::PutFile { row: row.copy(), fresh: *fresh },
            Change::DeleteFile { id } => Change::DeleteFile { id: *id },
            Change::PutDirectory { row, fresh } => Change::PutDirectory {
                row: row.copy(),
                fresh: *fresh,
            },
            Change::DeleteDirectory { id } => Change::DeleteDirectory { id: *id },
            Change::PutSymbolicLink { row, fresh } => Change::PutSymbolicLink {
                row: row.copy(),
                fresh: *fresh,
            },
            Change::DeleteSymbolicLink { id } => Change::DeleteSymbolicLink { id: *id },
            Change::PutBlock { row, fresh } => Change::PutBlock { row: row.copy(), fresh: *fresh },
            Change::DeleteBlock { id } => Change::DeleteBlock { id: *id },
        }
    }
}

/// The changes that a vector of changes stands for.
pub open spec fn change_views(cs: Seq<Change>) -> Seq<ChangeView> {
    Seq::new(cs.len(), |i: int| cs[i]@)
}

/// Whether the manifest takes a change. A change that it does not take would break
/// what the tables guarantee, or updates a row that is not there.
pub open spec fn admissible(t: Tables, c: ChangeView) -> bool {
    match c {
        ChangeView::PutArchive { row, fresh } => fresh || t.archives.contains_key(row.id),
        ChangeView::DeleteArchive { id } => !archive_mapped(t, id),
        ChangeView::PutFile { row, fresh } => {
            &&& fresh || t.files.contains_key(row.id)
            &&& file_path_free(t, row.path, row.id)
            &&& distinct_offsets(row.mappings)
            &&& blocks_exist(t, row.mappings)
            &&& row.mappings.len() <= MAX_MAPPINGS
        },
        ChangeView::DeleteFile { id } => true,
        ChangeView::PutDirectory { row, fresh } => {
            &&& fresh || t.directories.contains_key(row.id)
            &&& directory_path_free(t, row.path, row.id)
        },
        ChangeView::DeleteDirectory { id } => true,
        ChangeView::PutSymbolicLink { row, fresh } => {
            &&& fresh || t.symbolic_links.contains_key(row.id)
            &&& symbolic_link_path_free(t, row.path, row.id)
        },
        ChangeView::DeleteSymbolicLink { id } => true,
        ChangeView::PutBlock { row, fresh } => {
            &&& fresh || t.blocks.contains_key(row.id)
            &&& t.archives.contains_key(row.archive_id)
            &&& digest_free(t, row.digest, row.id)
        },
        ChangeView::DeleteBlock { id } => !block_mapped(t, id),
    }
}

/// The blocks of `t` that do not lie in the archive with id `archive_id`.
pub open spec fn blocks_outside(t: Tables, archive_id: int) -> Map<int, BlockView> {
    Map::new(
        |b: int| t.blocks.contains_key(b) && t.blocks[b].archive_id != archive_id,
        |b: int| t.blocks[b],
    )
}

/// The manifest after a change that it takes.
pub open spec fn applied(t: Tables, c: ChangeView) -> Tables {
    match c {
        ChangeView::PutArchive { row, fresh } => Tables {
            archives: t.archives.insert(row.id, row),
            ..t
        },
        ChangeView::DeleteArchive { id } => Tables {
            archives: t.archives.remove(id),
            blocks: blocks_outside(t, id),
            ..t
        },
        ChangeView::PutFile { row, fresh } => Tables { files: t.files.insert(row.id, row), ..t },
        ChangeView::DeleteFile { id } => Tables { files: t.files.remove(id), ..t },
        ChangeView::PutDirectory { row, fresh } => Tables {
            directories: t.directories.insert(row.id, row),
            ..t
        },
        ChangeView::DeleteDirectory { id } => Tables {
            directories: t.directories.remove(id),
            ..t
        },
        ChangeView::PutSymbolicLink { row, fresh } => Tables {
            symbolic_links: t.symbolic_links.insert(row.id, row),
            ..t
        },
        ChangeView::DeleteSymbolicLink { id } => Tables {
            symbolic_links: t.symbolic_links.remove(id),
            ..t
        },
        ChangeView::PutBlock { row, fresh } => Tables { blocks: t.blocks.insert(row.id, row), ..t },
        ChangeView::DeleteBlock { id } => Tables { blocks: t.blocks.remove(id), ..t },
    }
}

/// The manifest after a change: changed if it takes the change, as it was if not.
pub open spec fn apply(t: Tables, c: ChangeView) -> Tables {
    if admissible(t, c) {
        applied(t, c)
    } else {
        t
    }
}

/// The manifest after a sequence of changes, applied in order.
pub open spec fn replay(t: Tables, cs: Seq<ChangeView>) -> Tables
    decreases cs.len(),
{
    if cs.len() == 0 {
        t
    } else {
        apply(replay(t, cs.drop_last()), cs.last())
    }
}

/// No change breaks what the tables guarantee.
pub proof fn lemma_apply_wf(t: Tables, c: ChangeView)
    requires
        tables_wf(t),
    ensures
        tables_wf(apply(t, c)),
{
    if admissible(t, c) {
        let u = applied(t, c);
        match c {
            ChangeView::PutArchive { row, fresh } => {
                assert(tables_wf(u));
            },
            ChangeView::DeleteArchive { id } => {
                assert forall|f: int| #[trigger] u.files.contains_key(f) implies blocks_exist(
                    u,
                    u.files[f].mappings,
                ) by {
                    let ms = t.files[f].mappings;
                    assert(blocks_exist(t, ms));
                    assert forall|i: int| 0 <= i < ms.len() implies u.blocks.contains_key(
                        #[trigger] ms[i].block_id as int,
                    ) by {
                        let b = ms[i].block_id as int;
                        assert(t.blocks.contains_key(b));
                        if t.blocks[b].archive_id == id {
                            assert(names_archive(t, ms, id));
                            assert(archive_mapped(t, id));
                        }
                    }
                }
                assert(tables_wf(u));
            },
            ChangeView::PutFile { row, fresh } => {
                assert(tables_wf(u));
            },
            ChangeView::DeleteFile { id } => {
                assert(tables_wf(u));
            },
            ChangeView::PutDirectory { row, fresh } => {
                assert(tables_wf(u));
            },
            ChangeView::DeleteDirectory { id } => {
                assert(tables_wf(u));
            },
            ChangeView::PutSymbolicLink { row, fresh } => {
                assert(tables_wf(u));
            },
            ChangeView::DeleteSymbolicLink { id } => {
                assert(tables_wf(u));
            },
            ChangeView::PutBlock { row, fresh } => {
                assert forall|f: int| #[trigger] u.files.contains_key(f) implies blocks_exist(
                    u,
                    u.files[f].mappings,
                ) by {
                    assert(blocks_exist(t, t.files[f].mappings));
                }
                assert(tables_wf(u));
            },
            ChangeView::DeleteBlock { id } => {
                assert forall|f: int| #[trigger] u.files.contains_key(f) implies blocks_exist(
                    u,
                    u.files[f].mappings,
                ) by {
                    let ms = t.files[f].mappings;
                    assert(blocks_exist(t, ms));
                    assert forall|i: int| 0 <= i < ms.len() implies u.blocks.contains_key(
                        #[trigger] ms[i].block_id as int,
                    ) by {
                        if ms[i].block_id == id {
                            assert(names_block(ms, id));
                            assert(block_mapped(t, id));
                        }
                    }
                }
                assert(tables_wf(u));
            },
        }
    }
}

/// No sequence of changes breaks what the tables guarantee.
pub proof fn lemma_replay_wf(t: Tables, cs: Seq<ChangeView>)
    requires
        tables_wf(t),
    ensures
        tables_wf(replay(t, cs)),
    decreases cs.len(),
{
    if cs.len() > 0 {
        lemma_replay_wf(t, cs.drop_last());
        lemma_apply_wf(replay(t, cs.drop_last()), cs.last());
    }
}

/// Applying one more change at the end.
pub proof fn lemma_replay_push(t: Tables, cs: Seq<ChangeView>, c: ChangeView)
    ensures
        replay(t, cs.push(c)) == apply(replay(t, cs), c),
{
    assert(cs.push(c).drop_last() =~= cs);
}

/// Applying two sequences of changes one after the other is applying them joined.
pub proof fn lemma_replay_concat(t: Tables, a: Seq<ChangeView>, b: Seq<ChangeView>)
    ensures
        replay(t, a + b) == replay(replay(t, a), b),
    decreases b.len(),
{
    if b.len() == 0 {
        assert(a + b =~= a);
    } else {
        lemma_replay_concat(t, a, b.drop_last());
        assert((a + b).drop_last() =~= a + b.drop_last());
        assert((a + b).last() == b.last());
    }
}

/// The highest id that each table has given out so far.
pub struct LastIds {
    pub archive: int,
    pub file: int,
    pub directory: int,
    pub symbolic_link: int,
    pub block: int,
    pub patchset: int,
    pub new_file: int,
}

/// All that a database holds: the lasting tables, the patchsets, what the running
/// session has noted down, and the changes recorded since `base`.
pub struct State {
    pub tables: Tables,
    pub patchsets: Map<int, PatchsetView>,
    pub new_files: Map<int, NewFileView>,
    pub visited_files: Set<int>,
    pub visited_directories: Set<int>,
    pub visited_symbolic_links: Set<int>,
    pub last: LastIds,
    /// The lasting tables when recording began.
    pub base: Tables,
    /// The changes made to the lasting tables since then, in order.
    pub log: Seq<ChangeView>,
}

/// No new file but the one with id `except` has the path `path`.
pub open spec fn new_file_path_free(s: State, path: Seq<u8>, except: int) -> bool {
    forall|id: int| #[trigger]
        s.new_files.contains_key(id) && id != except ==> s.new_files[id].path != path
}

/// No id of a table is higher than the last one given out.
pub open spec fn ids_bounded(s: State) -> bool {
    &&& forall|id: int| #[trigger] s.tables.archives.contains_key(id) ==> id <= s.last.archive
    &&& forall|id: int| #[trigger] s.tables.files.contains_key(id) ==> id <= s.last.file
    &&& forall|id: int| #[trigger]
        s.tables.directories.contains_key(id) ==> id <= s.last.directory
    &&& forall|id: int| #[trigger]
        s.tables.symbolic_links.contains_key(id) ==> id <= s.last.symbolic_link
    &&& forall|id: int| #[trigger] s.tables.blocks.contains_key(id) ==> id <= s.last.block
    &&& forall|id: int| #[trigger] s.patchsets.contains_key(id) ==> id <= s.last.patchset
    &&& forall|id: int| #[trigger] s.new_files.contains_key(id) ==> id <= s.last.new_file
}

/// Whether a change holds no more mappings than a file can have.
pub open spec fn change_fits(c: ChangeView) -> bool {
    match c {
        ChangeView::PutFile { row, fresh } => row.mappings.len() <= MAX_MAPPINGS,
        _ => true,
    }
}

/// What a database guarantees at any time.
pub open spec fn state_wf(s: State) -> bool {
    &&& tables_wf(s.tables)
    &&& replay(s.base, s.log) == s.tables
    &&& forall|i: int| 0 <= i < s.log.len() ==> change_fits(#[trigger] s.log[i])
    &&& ids_bounded(s)
    &&& forall|id: int| #[trigger] s.patchsets.contains_key(id) ==> s.patchsets[id].id == id
    &&& forall|id: int| #[trigger] s.new_files.contains_key(id) ==> s.new_files[id].id == id
    &&& forall|id: int| #[trigger]
        s.new_files.contains_key(id) ==> new_file_path_free(s, s.new_files[id].path, id)
            && distinct_offsets(s.new_files[id].mappings) && s.new_files[id].mappings.len()
            <= MAX_MAPPINGS
}

/// Some file has the path `path`.
pub open spec fn has_file_path(t: Tables, path: Seq<u8>) -> bool {
    exists|id: int| #[trigger] t.files.contains_key(id) && t.files[id].path == path
}

/// Some directory has the path `path`.
pub open spec fn has_directory_path(t: Tables, path: Seq<u8>) -> bool {
    exists|id: int| #[trigger] t.directories.contains_key(id) && t.directories[id].path == path
}

/// Some symbolic link has the path `path`.
pub open spec fn has_symbolic_link_path(t: Tables, path: Seq<u8>) -> bool {
    exists|id: int| #[trigger]
        t.symbolic_links.contains_key(id) && t.symbolic_links[id].path == path
}

/// Some block has the digest `digest`.
pub open spec fn has_digest(t: Tables, digest: Seq<u8>) -> bool {
    exists|id: int| #[trigger] t.blocks.contains_key(id) && t.blocks[id].digest == digest
}

/// Some new file has the path `path`.
pub open spec fn has_new_file_path(s: State, path: Seq<u8>) -> bool {
    exists|id: int| #[trigger] s.new_files.contains_key(id) && s.new_files[id].path == path
}

/// One of `ms` has the offset `offset`.
pub open spec fn has_offset(ms: Seq<Mapping>, offset: u64) -> bool {
    exists|i: int| 0 <= i < ms.len() && #[trigger] ms[i].offset == offset
}

/// The new file with id `id` takes a mapping at `offset`: there is such a new file,
/// the offset is free, and the new file has room for a mapping.
pub open spec fn takes_mapping(s: State, id: int, offset: u64) -> bool {
    &&& s.new_files.contains_key(id)
    &&& !has_offset(s.new_files[id].mappings, offset)
    &&& s.new_files[id].mappings.len() < MAX_MAPPINGS
}

/// One of `ms` names a block that lies in an archive which is not uploaded yet.
pub open spec fn names_pending(t: Tables, ms: Seq<Mapping>) -> bool {
    exists|i: int|
        0 <= i < ms.len() && block_pending(t, #[trigger] ms[i].block_id as int)
}

/// The block with id `block_id` lies in an archive which is not uploaded yet.
pub open spec fn block_pending(t: Tables, block_id: int) -> bool {
    &&& t.blocks.contains_key(block_id)
    &&& t.archives.contains_key(t.blocks[block_id].archive_id)
    &&& t.archives[t.blocks[block_id].archive_id].blob_file_id is None
}

/// Whether the files of the manifest can be restored: no block that a file maps lies in
/// an archive which is not uploaded yet.
pub open spec fn settled(t: Tables) -> bool {
    forall|f: int, i: int|
        t.files.contains_key(f) && 0 <= i < t.files[f].mappings.len() ==> !block_pending(
            t,
            (#[trigger] t.files[f].mappings[i]).block_id as int,
        )
}

/// Whether every archive of the manifest is uploaded.
pub open spec fn all_uploaded(t: Tables) -> bool {
    forall|a: int| #[trigger] t.archives.contains_key(a) ==> t.archives[a].blob_file_id is Some
}

/// The new file with id `id` can be made a file of the manifest: it is closed, and all
/// of its blocks lie in uploaded archives.
pub open spec fn promotable(s: State, id: int) -> bool {
    &&& s.new_files.contains_key(id)
    &&& s.new_files[id].closed
    &&& !names_pending(s.tables, s.new_files[id].mappings)
}

/// The blocks that some file maps.
pub open spec fn mapped_blocks(t: Tables) -> Map<int, BlockView> {
    Map::new(|b: int| t.blocks.contains_key(b) && block_mapped(t, b), |b: int| t.blocks[b])
}

/// The ids of the blocks that no file maps.
pub open spec fn unmapped_blocks(t: Tables) -> Set<int> {
    Set::new(|b: int| t.blocks.contains_key(b) && !block_mapped(t, b))
}

/// What a block weighs in the archive with id `archive_id`: its length if it lies
/// there, nothing if not.
pub open spec fn length_in(archive_id: int) -> spec_fn(BlockView) -> nat {
    |b: BlockView|
        if b.archive_id == archive_id {
            b.length as nat
        } else {
            0
        }
}

/// Whether the block `a` comes before the block `b` where both lie in one archive: it
/// lies further to the front, or at the same place with the lower id.
pub open spec fn lies_before(a: BlockView, b: BlockView) -> bool {
    a.archive_off < b.archive_off || (a.archive_off == b.archive_off && a.id < b.id)
}

/// The sum of the lengths of the blocks that lie in the archive with id `archive_id`.
pub open spec fn archive_blocks_length(t: Tables, archive_id: int) -> nat {
    crate::table::map_sum(t.blocks, length_in(archive_id))
}

/// The archive with id `id` holds blocks, and less than `min_archive_len` bytes of them.
pub open spec fn small_archive(t: Tables, id: int, min_archive_len: u64) -> bool {
    &&& t.archives.contains_key(id)
    &&& archive_used(t, id)
    &&& archive_blocks_length(t, id) < min_archive_len
}

/// What small archives are ordered by: the bytes of blocks in them, fewest first, and
/// among equals the length of the blob, longest first, an archive without a blob last.
pub open spec fn small_archive_rank(t: Tables, id: int) -> crate::sort::Rank {
    crate::sort::Rank {
        a: archive_blocks_length(t, id) as i128,
        b: match t.archives[id].blob_length {
            Some(n) => (0 - n) as i128,
            None => 1,
        },
        c: 0,
    }
}

/// What a patchset weighs in the tail from `id` on: the length of its blob if its id
/// is `id` or higher and the blob is there, nothing if not.
pub open spec fn length_from(id: int) -> spec_fn(PatchsetView) -> nat {
    |p: PatchsetView|
        if p.id >= id {
            match p.blob_length {
                Some(n) => n as nat,
                None => 0,
            }
        } else {
            0
        }
}

/// The sum of the blob lengths of the patchsets with id `id` or higher.
pub open spec fn tail_length(s: State, id: int) -> nat {
    crate::table::map_sum(s.patchsets, length_from(id))
}

/// The patchset with id `id` belongs to the tail of patchsets whose blobs together are
/// shorter than `max_manifest_len`.
pub open spec fn small_patchset(s: State, id: int, max_manifest_len: u64) -> bool {
    s.patchsets.contains_key(id) && tail_length(s, id) < max_manifest_len
}

/// Where the bytes of one mapped block lie, and where in the file they belong.
#[derive(Clone, Copy, Debug, PartialEq, Eq, Structural)]
pub struct Placement {
    /// Length of the block.
    pub length: u64,
    /// The archive that holds the block.
    pub archive_id: i64,
    /// Where in the archive the block begins.
    pub archive_off: u64,
    /// Where in the file the block begins.
    pub offset: u64,
}

/// The placement that a mapping stands for.
pub open spec fn placement_of(t: Tables, m: Mapping) -> Placement {
    Placement {
        length: t.blocks[m.block_id as int].length,
        archive_id: t.blocks[m.block_id as int].archive_id as i64,
        archive_off: t.blocks[m.block_id as int].archive_off,
        offset: m.offset,
    }
}

/// Whether an archive id passes a choice of archive: every id passes where none is
/// chosen.
pub open spec fn in_archive(choice: Option<i64>, archive_id: int) -> bool {
    match choice {
        Some(a) => a == archive_id,
        None => true,
    }
}

/// `p` is the placement of a mapping among `ms` whose block lies in the chosen archive.
pub open spec fn placed(t: Tables, ms: Seq<Mapping>, choice: Option<i64>, p: Placement) -> bool {
    exists|i: int|
        0 <= i < ms.len() && t.blocks.contains_key(#[trigger] ms[i].block_id as int) && in_archive(
            choice,
            t.blocks[ms[i].block_id as int].archive_id,
        ) && p == placement_of(t, ms[i])
}

/// What placements are ordered by: archive, then place in the archive, then place in
/// the file.
pub open spec fn placement_rank(p: Placement) -> crate::sort::Rank {
    crate::sort::Rank { a: p.archive_id as i128, b: p.archive_off as i128, c: p.offset as i128 }
}

/// Some file that passes the filter maps a block in the archive with id `archive_id`.
pub open spec fn archive_wanted(t: Tables, filter: Option<Seq<u8>>, archive_id: int) -> bool {
    exists|f: int| #[trigger]
        t.files.contains_key(f) && crate::glob::passes(filter, t.files[f].path)
            && names_archive(t, t.files[f].mappings, archive_id)
}

/// What a patchset adds to the storage in use.
pub open spec fn patchset_blob_length() -> spec_fn(PatchsetView) -> nat {
    |p: PatchsetView|
        match p.blob_length {
            Some(n) => n as nat,
            None => 0,
        }
}

/// What an archive adds to the storage in use.
pub open spec fn archive_blob_length() -> spec_fn(ArchiveView) -> nat {
    |a: ArchiveView|
        match a.blob_length {
            Some(n) => n as nat,
            None => 0,
        }
}

/// The later state holds the changes recorded in the earlier one, and maybe more.
pub open spec fn log_extended(old: State, new: State) -> bool {
    &&& new.base == old.base
    &&& old.log.len() <= new.log.len()
    &&& new.log.take(old.log.len() as int) == old.log
}

/// `a`, or `b` if that is higher.
pub open spec fn higher(a: int, b: int) -> int {
    if a >= b {
        a
    } else {
        b
    }
}

/// The last ids once the row of a change has been stored.
pub open spec fn bumped(last: LastIds, c: ChangeView) -> LastIds {
    match c {
        ChangeView::PutArchive { row, fresh } => LastIds {
            archive: higher(last.archive, row.id),
            ..last
        },
        ChangeView::PutFile { row, fresh } => LastIds { file: higher(last.file, row.id), ..last },
        ChangeView::PutDirectory { row, fresh } => LastIds {
            directory: higher(last.directory, row.id),
            ..last
        },
        ChangeView::PutSymbolicLink { row, fresh } => LastIds {
            symbolic_link: higher(last.symbolic_link, row.id),
            ..last
        },
        ChangeView::PutBlock { row, fresh } => LastIds {
            block: higher(last.block, row.id),
            ..last
        },
        _ => last,
    }
}

/// The database after it has taken and recorded the change `c`.
pub open spec fn recorded(s: State, c: ChangeView) -> State {
    State { tables: applied(s.tables, c), last: bumped(s.last, c), log: s.log.push(c), ..s }
}

/// Whether a change leaves the manifest as it is: it stores a row that is there
/// already, or deletes one that is not.
pub open spec fn idle(t: Tables, c: ChangeView) -> bool {
    match c {
        ChangeView::PutArchive { row, fresh } => t.archives.contains_key(row.id)
            && t.archives[row.id] == row,
        ChangeView::DeleteArchive { id } => !t.archives.contains_key(id),
        ChangeView::PutFile { row, fresh } => t.files.contains_key(row.id) && t.files[row.id]
            == row,
        ChangeView::DeleteFile { id } => !t.files.contains_key(id),
        ChangeView::PutDirectory { row, fresh } => t.directories.contains_key(row.id)
            && t.directories[row.id] == row,
        ChangeView::DeleteDirectory { id } => !t.directories.contains_key(id),
        ChangeView::PutSymbolicLink { row, fresh } => t.symbolic_links.contains_key(row.id)
            && t.symbolic_links[row.id] == row,
        ChangeView::DeleteSymbolicLink { id } => !t.symbolic_links.contains_key(id),
        ChangeView::PutBlock { row, fresh } => t.blocks.contains_key(row.id) && t.blocks[row.id]
            == row,
        ChangeView::DeleteBlock { id } => !t.blocks.contains_key(id),
    }
}

/// The database after the change `c` was made: as it was if the change leaves the
/// manifest as it is, else with the change taken and recorded.
pub open spec fn noted(s: State, c: ChangeView) -> State {
    if idle(s.tables, c) {
        s
    } else {
        recorded(s, c)
    }
}

/// Taking and recording a change keeps what a database guarantees.
pub proof fn lemma_recorded_wf(s: State, c: ChangeView)
    requires
        state_wf(s),
        admissible(s.tables, c),
    ensures
        state_wf(recorded(s, c)),
{
    lemma_apply_wf(s.tables, c);
    lemma_replay_push(s.base, s.log, c);
}

} // verus!
