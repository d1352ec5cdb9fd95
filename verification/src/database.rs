//! The manifest database: the lasting tables, the patchsets and the scratch tables of
//! the running session, held in memory.
//!
//! Every function here does what one statement of a relational database would do, and
//! says so over the tables as maps. The lasting tables change only through recorded
//! changes.

use crate::bytes::{bytes_equal, copy_bytes};
use crate::error::Error;
use crate::glob::{passes, passes_filter};
use crate::rows::{
    copy_mappings, copy_opt_bytes, opt_bytes, Archive, ArchiveView, Block, BlockView, Directory,
    DirectoryView, File, FileView, Mapping, NewFile, NewFileView, Patchset, PatchsetView,
    SymbolicLink, SymbolicLinkView,
};
use crate::sort::{lists, rank_le, sorted_order, Rank};
use crate::table::{id_seq, map_sum, select_ids, table_sum, Table};
use crate::tables::{
    admissible, apply, archive_blob_length, archive_blocks_length, archive_mapped, archive_used,
    archive_wanted, block_mapped, block_pending, blocks_exist, blocks_outside, change_views,
    digest_free, directory_path_free, distinct_offsets, empty_tables, file_path_free, has_digest,
    has_directory_path, has_file_path, has_new_file_path, has_offset, has_symbolic_link_path,
    higher, idle, in_archive, lemma_recorded_wf, length_from, length_in, log_extended,
    mapped_blocks, names_archive, names_block, names_pending, noted, patchset_blob_length, placed,
    placement_of, placement_rank, promotable, recorded, replay, small_archive, small_archive_rank,
    small_patchset, state_wf, symbolic_link_path_free, tail_length, unmapped_blocks, Change,
    ChangeView, LastIds, Placement, State, Tables,
};
use vstd::prelude::*;

verus! {

/// The manifest database.
pub struct Database {
    archives: Table<Archive>,
    files: Table<File>,
    directories: Table<Directory>,
    symbolic_links: Table<SymbolicLink>,
    blocks: Table<Block>,
    patchsets: Table<Patchset>,
    new_files: Table<NewFile>,
    visited_files: Vec<i64>,
    visited_directories: Vec<i64>,
    visited_symbolic_links: Vec<i64>,
    last_archive_id: i64,
    last_file_id: i64,
    last_directory_id: i64,
    last_symbolic_link_id: i64,
    last_block_id: i64,
    last_patchset_id: i64,
    last_new_file_id: i64,
    log: Vec<Change>,
    base: Ghost<Tables>,
}

/// The ids that a list of ids holds.
pub open spec fn id_set(ids: Seq<i64>) -> Set<int> {
    Set::new(|id: int| id_seq(ids).contains(id))
}

impl View for Database {
    type V = State;

    closed spec fn view(&self) -> State {
        State {
            tables: Tables {
                archives: self.archives@,
                files: self.files@,
                directories: self.directories@,
                symbolic_links: self.symbolic_links@,
                blocks: self.blocks@,
            },
            patchsets: self.patchsets@,
            new_files: self.new_files@,
            visited_files: id_set(self.visited_files@),
            visited_directories: id_set(self.visited_directories@),
            visited_symbolic_links: id_set(self.visited_symbolic_links@),
            last: LastIds {
                archive: self.last_archive_id as int,
                file: self.last_file_id as int,
                directory: self.last_directory_id as int,
                symbolic_link: self.last_symbolic_link_id as int,
                block: self.last_block_id as int,
                patchset: self.last_patchset_id as int,
                new_file: self.last_new_file_id as int,
            },
            base: self.base@,
            log: crate::tables::change_views(self.log@),
        }
    }
}

impl Database {
    /// The database keeps what it guarantees.
    pub closed spec fn wf(&self) -> bool {
        &&& self.archives.wf()
        &&& self.files.wf()
        &&& self.directories.wf()
        &&& self.symbolic_links.wf()
        &&& self.blocks.wf()
        &&& self.patchsets.wf()
        &&& self.new_files.wf()
        &&& state_wf(self@)
    }

    /// What a well-formed database guarantees of what it holds.
    pub proof fn lemma_wf(&self)
        requires
            self.wf(),
        ensures
            state_wf(self@),
            self@.tables.archives.dom().finite(),
            self@.tables.files.dom().finite(),
            self@.tables.directories.dom().finite(),
            self@.tables.symbolic_links.dom().finite(),
            self@.tables.blocks.dom().finite(),
            self@.patchsets.dom().finite(),
            self@.new_files.dom().finite(),
    {
        self.archives.lemma_ids();
        self.files.lemma_ids();
        self.directories.lemma_ids();
        self.symbolic_links.lemma_ids();
        self.blocks.lemma_ids();
        self.patchsets.lemma_ids();
        self.new_files.lemma_ids();
    }

    /// An empty database that records from the empty manifest on.
    pub fn new() -> (db: Database)
        ensures
            db.wf(),
            db@.tables == empty_tables(),
            db@.base == empty_tables(),
            db@.log == Seq::<ChangeView>::empty(),
            db@.patchsets == Map::<int, crate::rows::PatchsetView>::empty(),
            db@.new_files == Map::<int, NewFileView>::empty(),
            db@.visited_files == Set::<int>::empty(),
            db@.visited_directories == Set::<int>::empty(),
            db@.visited_symbolic_links == Set::<int>::empty(),
            db@.last == (LastIds {
                archive: 0,
                file: 0,
                directory: 0,
                symbolic_link: 0,
                block: 0,
                patchset: 0,
                new_file: 0,
            }),
    {
        let db = Database {
            archives: Table::new(),
            files: Table::new(),
            directories: Table::new(),
            symbolic_links: Table::new(),
            blocks: Table::new(),
            patchsets: Table::new(),
            new_files: Table::new(),
            visited_files: Vec::new(),
            visited_directories: Vec::new(),
            visited_symbolic_links: Vec::new(),
            last_archive_id: 0,
            last_file_id: 0,
            last_directory_id: 0,
            last_symbolic_link_id: 0,
            last_block_id: 0,
            last_patchset_id: 0,
            last_new_file_id: 0,
            log: Vec::new(),
            base: Ghost(empty_tables()),
        };
        proof {
            assert(db@.log =~= Seq::<ChangeView>::empty());
            assert(db@.visited_files =~= Set::<int>::empty());
            assert(db@.visited_directories =~= Set::<int>::empty());
            assert(db@.visited_symbolic_links =~= Set::<int>::empty());
        }
        db
    }

    /// Takes a change that the manifest admits, and records it.
    fn record(&mut self, change: Change)
        requires
            old(self).wf(),
            admissible(old(self)@.tables, change@),
        ensures
            final(self).wf(),
            final(self)@ == recorded(old(self)@, change@),
    {
        let ghost s = self@;
        let ghost c = change@;
        self.log.push(change.copy());
        proof {
            assert(crate::tables::change_views(self.log@) =~= s.log.push(c));
            lemma_recorded_wf(s, c);
        }
        match change {
            Change::PutArchive { row, fresh } => {
                if row.id > self.last_archive_id {
                    self.last_archive_id = row.id;
                }
                self.archives.put(row);
            },
            Change::DeleteArchive { id } => {
                self.archives.remove(id);
                remove_blocks_of(&mut self.blocks, id);
                assert(self.blocks@ =~= blocks_outside(s.tables, id as int));
            },
            Change::PutFile { row, fresh } => {
                if row.id > self.last_file_id {
                    self.last_file_id = row.id;
                }
                self.files.put(row);
            },
            Change::DeleteFile { id } => {
                self.files.remove(id);
            },
            Change::PutDirectory { row, fresh } => {
                if row.id > self.last_directory_id {
                    self.last_directory_id = row.id;
                }
                self.directories.put(row);
            },
            Change::DeleteDirectory { id } => {
                self.directories.remove(id);
            },
            Change::PutSymbolicLink { row, fresh } => {
                if row.id > self.last_symbolic_link_id {
                    self.last_symbolic_link_id = row.id;
                }
                self.symbolic_links.put(row);
            },
            Change::DeleteSymbolicLink { id } => {
                self.symbolic_links.remove(id);
            },
            Change::PutBlock { row, fresh } => {
                if row.id > self.last_block_id {
                    self.last_block_id = row.id;
                }
                self.blocks.put(row);
            },
            Change::DeleteBlock { id } => {
                self.blocks.remove(id);
            },
        }
        assert(self@ == recorded(s, c));
    }

    /// Whether a change leaves the manifest as it is.
    fn is_idle(&self, change: &Change) -> (r: bool)
        requires
            self.wf(),
        ensures
            r == idle(self@.tables, change@),
    {
        match change {
            Change::PutArchive { row, fresh } => match self.archives.get(row.id) {
                Some(old) => old.same(row),
                None => false,
            },
            Change::DeleteArchive { id } => !self.archives.contains(*id),
            Change::PutFile { row, fresh } => match self.files.get(row.id) {
                Some(old) => old.same(row),
                None => false,
            },
            Change::DeleteFile { id } => !self.files.contains(*id),
            Change::PutDirectory { row, fresh } => match self.directories.get(row.id) {
                Some(old) => old.same(row),
                None => false,
            },
            Change::DeleteDirectory { id } => !self.directories.contains(*id),
            Change::PutSymbolicLink { row, fresh } => match self.symbolic_links.get(row.id) {
                Some(old) => old.same(row),
                None => false,
            },
            Change::DeleteSymbolicLink { id } => !self.symbolic_links.contains(*id),
            Change::PutBlock { row, fresh } => match self.blocks.get(row.id) {
                Some(old) => old.same(row),
                None => false,
            },
            Change::DeleteBlock { id } => !self.blocks.contains(*id),
        }
    }

    /// Makes a change that the manifest admits: takes and records it, unless it
    /// leaves the manifest as it is.
    fn note(&mut self, change: Change)
        requires
            old(self).wf(),
            admissible(old(self)@.tables, change@),
        ensures
            final(self).wf(),
            final(self)@ == noted(old(self)@, change@),
    {
        if !self.is_idle(&change) {
            self.record(change);
        }
    }
}

/// Removes the blocks that lie in the archive with id `archive_id`.
fn remove_blocks_of(blocks: &mut Table<Block>, archive_id: i64)
    requires
        old(blocks).wf(),
    ensures
        final(blocks).wf(),
        final(blocks)@ == Map::new(
            |b: int| old(blocks)@.contains_key(b) && old(blocks)@[b].archive_id != archive_id,
            |b: int| old(blocks)@[b],
        ),
{
    let ghost before = blocks@;
    let in_archive = |r: &Block| -> (b: bool)
        ensures
            b == (r@.archive_id == archive_id as int),
        { r.archive_id == archive_id };
    let doomed = select_ids(
        blocks,
        in_archive,
        Ghost(|v: BlockView| v.archive_id == archive_id as int),
    );
    let mut k: usize = 0;
    while k < doomed.len()
        invariant
            k <= doomed@.len(),
            blocks.wf(),
            forall|id: int|
                id_seq(doomed@).contains(id) <==> #[trigger] before.contains_key(id)
                    && before[id].archive_id == archive_id as int,
            forall|id: int| #[trigger]
                blocks@.contains_key(id) <==> before.contains_key(id) && !(exists|j: int|
                    0 <= j < k && id_seq(doomed@)[j] == id),
            forall|id: int| #[trigger] blocks@.contains_key(id) ==> blocks@[id] == before[id],
        decreases doomed@.len() - k,
    {
        let id = doomed[k];
        assert(id_seq(doomed@)[k as int] == id);
        blocks.remove(id);
        k += 1;
    }
    proof {
        assert forall|id: int| #[trigger]
            blocks@.contains_key(id) <==> before.contains_key(id) && before[id].archive_id
                != archive_id as int by {
            if before.contains_key(id) && before[id].archive_id == archive_id as int {
                let j = id_seq(doomed@).index_of(id);
                assert(id_seq(doomed@)[j] == id);
            }
        }
        assert(blocks@ =~= Map::new(
            |b: int| before.contains_key(b) && before[b].archive_id != archive_id,
            |b: int| before[b],
        ));
    }
}

/// The id that follows `last`, if there is one.
fn next_id(last: i64) -> (r: Result<i64, Error>)
    ensures
        match r {
            Ok(id) => last < i64::MAX && id == last + 1,
            Err(e) => last == i64::MAX && e == Error::IdsExhausted,
        },
{
    if last == i64::MAX {
        Err(Error::IdsExhausted)
    } else {
        Ok(last + 1)
    }
}

/// A database without any row.
pub fn open_connection() -> (db: Database)
    ensures
        db.wf(),
        db@.tables == empty_tables(),
        db@.base == empty_tables(),
        db@.log == Seq::<ChangeView>::empty(),
        db@.patchsets == Map::<int, crate::rows::PatchsetView>::empty(),
        db@.new_files == Map::<int, NewFileView>::empty(),
        db@.visited_files == Set::<int>::empty(),
        db@.visited_directories == Set::<int>::empty(),
        db@.visited_symbolic_links == Set::<int>::empty(),
        db@.last == (LastIds {
            archive: 0,
            file: 0,
            directory: 0,
            symbolic_link: 0,
            block: 0,
            patchset: 0,
            new_file: 0,
        }),
{
    Database::new()
}

/// The first of a list of ids, if it has any.
fn first_id(ids: &Vec<i64>) -> (r: Option<i64>)
    ensures
        r is Some <==> ids@.len() > 0,
        r matches Some(id) ==> id_seq(ids@).contains(id as int) && id == ids@[0],
{
    if ids.len() > 0 {
        assert(id_seq(ids@)[0] == ids@[0]);
        Some(ids[0])
    } else {
        None
    }
}

/// Whether a patchset has the given id.
pub fn select_patchset(db: &Database, patchset_id: i64) -> (r: bool)
    requires
        db.wf(),
    ensures
        r == db@.patchsets.contains_key(patchset_id as int),
{
    db.patchsets.contains(patchset_id)
}

/// Adds a patchset that is not uploaded yet, under the next id, and returns the id.
pub fn insert_def_patchset(db: &mut Database) -> (r: Result<i64, Error>)
    requires
        old(db).wf(),
    ensures
        final(db).wf(),
        match r {
            Ok(id) => {
                &&& id == old(db)@.last.patchset + 1
                &&& final(db)@ == (State {
                    patchsets: old(db)@.patchsets.insert(
                        id as int,
                        crate::rows::PatchsetView {
                            id: id as int,
                            blob_file_id: None,
                            blob_length: None,
                        },
                    ),
                    last: LastIds { patchset: id as int, ..old(db)@.last },
                    ..old(db)@
                })
            },
            Err(e) => e == Error::IdsExhausted && old(db)@.last.patchset == i64::MAX && final(db)@
                == old(db)@,
        },
{
    let id = match next_id(db.last_patchset_id) {
        Ok(id) => id,
        Err(e) => {
            return Err(e);
        },
    };
    db.last_patchset_id = id;
    db.patchsets.put(Patchset { id, blob_file_id: None, blob_length: None });
    Ok(id)
}

/// Adds an uploaded patchset under a given id. Refused if the id is taken.
pub fn insert_patchset(db: &mut Database, patchset_id: i64, blob_file_id: &[u8],
    blob_length: u64) -> (r:
    Result<(), Error>)
    requires
        old(db).wf(),
    ensures
        final(db).wf(),
        r is Err <==> old(db)@.patchsets.contains_key(patchset_id as int),
        match r {
            Ok(()) => final(db)@ == (State {
                patchsets: old(db)@.patchsets.insert(
                    patchset_id as int,
                    crate::rows::PatchsetView {
                        id: patchset_id as int,
                        blob_file_id: Some(blob_file_id@),
                        blob_length: Some(blob_length),
                    },
                ),
                last: LastIds {
                    patchset: higher(old(db)@.last.patchset, patchset_id as int),
                    ..old(db)@.last
                },
                ..old(db)@
            }),
            Err(e) => e == Error::Constraint && final(db)@ == old(db)@,
        },
{
    if db.patchsets.contains(patchset_id) {
        return Err(Error::Constraint);
    }
    if patchset_id > db.last_patchset_id {
        db.last_patchset_id = patchset_id;
    }
    db.patchsets.put(
        Patchset {
            id: patchset_id,
            blob_file_id: Some(copy_bytes(blob_file_id)),
            blob_length: Some(blob_length),
        },
    );
    Ok(())
}

/// Notes where the patchset with the given id was uploaded. Nothing changes if there is
/// no such patchset.
pub fn update_patchset(db: &mut Database, patchset_id: i64, blob_file_id: &[u8], blob_length: u64)
    requires
        old(db).wf(),
    ensures
        final(db).wf(),
        final(db)@ == if old(db)@.patchsets.contains_key(patchset_id as int) {
            State {
                patchsets: old(db)@.patchsets.insert(
                    patchset_id as int,
                    crate::rows::PatchsetView {
                        id: patchset_id as int,
                        blob_file_id: Some(blob_file_id@),
                        blob_length: Some(blob_length),
                    },
                ),
                ..old(db)@
            }
        } else {
            old(db)@
        },
{
    if db.patchsets.contains(patchset_id) {
        db.patchsets.put(
            Patchset {
                id: patchset_id,
                blob_file_id: Some(copy_bytes(blob_file_id)),
                blob_length: Some(blob_length),
            },
        );
    }
}

/// Deletes the patchset with the given id, if there is one.
pub fn delete_patchset(db: &mut Database, patchset_id: i64)
    requires
        old(db).wf(),
    ensures
        final(db).wf(),
        final(db)@ == (State {
            patchsets: old(db)@.patchsets.remove(patchset_id as int),
            ..old(db)@
        }),
{
    db.patchsets.remove(patchset_id);
}

/// Whether an archive has the given id.
pub fn select_archive(db: &Database, archive_id: i64) -> (r: bool)
    requires
        db.wf(),
    ensures
        r == db@.tables.archives.contains_key(archive_id as int),
{
    db.archives.contains(archive_id)
}

/// Adds an archive that is not uploaded yet, under the next id, and returns the id.
pub fn insert_def_archive(db: &mut Database) -> (r: Result<i64, Error>)
    requires
        old(db).wf(),
    ensures
        final(db).wf(),
        match r {
            Ok(id) => id == old(db)@.last.archive + 1 && final(db)@ == recorded(
                old(db)@,
                ChangeView::PutArchive {
                    row: crate::rows::ArchiveView {
                        id: id as int,
                        length: None,
                        blob_file_id: None,
                        blob_length: None,
                    },
                    fresh: true,
                },
            ),
            Err(e) => e == Error::IdsExhausted && old(db)@.last.archive == i64::MAX && final(db)@
                == old(db)@,
        },
{
    let id = match next_id(db.last_archive_id) {
        Ok(id) => id,
        Err(e) => {
            return Err(e);
        },
    };
    db.record(
        Change::PutArchive {
            row: Archive { id, length: None, blob_file_id: None, blob_length: None },
            fresh: true,
        },
    );
    Ok(id)
}

/// Notes the length of the archive with the given id and where it was uploaded. Nothing
/// changes if there is no such archive.
pub fn update_archive(
    db: &mut Database,
    archive_id: i64,
    length: u64,
    blob_file_id: &[u8],
    blob_length: u64,
)
    requires
        old(db).wf(),
    ensures
        final(db).wf(),
        final(db)@ == if old(db)@.tables.archives.contains_key(archive_id as int) {
            noted(
                old(db)@,
                ChangeView::PutArchive {
                    row: crate::rows::ArchiveView {
                        id: archive_id as int,
                        length: Some(length),
                        blob_file_id: Some(blob_file_id@),
                        blob_length: Some(blob_length),
                    },
                    fresh: false,
                },
            )
        } else {
            old(db)@
        },
{
    if db.archives.contains(archive_id) {
        db.note(
            Change::PutArchive {
                row: Archive {
                    id: archive_id,
                    length: Some(length),
                    blob_file_id: Some(copy_bytes(blob_file_id)),
                    blob_length: Some(blob_length),
                },
                fresh: false,
            },
        );
    }
}

/// Whether one of `mappings` names the block with id `block_id`.
fn maps_block(mappings: &Vec<Mapping>, block_id: i64) -> (r: bool)
    ensures
        r == names_block(mappings@, block_id as int),
{
    let mut i: usize = 0;
    while i < mappings.len()
        invariant
            i <= mappings@.len(),
            forall|j: int| 0 <= j < i ==> #[trigger] mappings@[j].block_id != block_id,
        decreases mappings@.len() - i,
    {
        if mappings[i].block_id == block_id {
            return true;
        }
        i += 1;
    }
    false
}

/// Whether one of `mappings` names a block that lies in the archive with id `archive_id`.
fn maps_archive(db: &Database, mappings: &Vec<Mapping>, archive_id: i64) -> (r: bool)
    requires
        db.wf(),
    ensures
        r == names_archive(db@.tables, mappings@, archive_id as int),
{
    let mut i: usize = 0;
    while i < mappings.len()
        invariant
            db.wf(),
            i <= mappings@.len(),
            forall|j: int|
                0 <= j < i ==> !(db@.tables.blocks.contains_key(
                    #[trigger] mappings@[j].block_id as int,
                ) && db@.tables.blocks[mappings@[j].block_id as int].archive_id == archive_id),
        decreases mappings@.len() - i,
    {
        match db.blocks.get(mappings[i].block_id) {
            Some(block) => {
                if block.archive_id == archive_id {
                    return true;
                }
            },
            None => {},
        }
        i += 1;
    }
    false
}

/// Whether some file maps the block with id `block_id`.
pub fn block_is_mapped(db: &Database, block_id: i64) -> (r: bool)
    requires
        db.wf(),
    ensures
        r == block_mapped(db@.tables, block_id as int),
{
    let keep = |f: &File| -> (b: bool)
        ensures
            b == names_block(f@.mappings, block_id as int),
        { maps_block(&f.mappings, block_id) };
    let hits = select_ids(
        &db.files,
        keep,
        Ghost(|v: FileView| names_block(v.mappings, block_id as int)),
    );
    proof {
        let t = db@.tables;
        if hits@.len() > 0 {
            let f = id_seq(hits@)[0];
            assert(id_seq(hits@).contains(f));
            assert(t.files.contains_key(f));
        } else if block_mapped(t, block_id as int) {
            let f = choose|f: int| #[trigger]
                t.files.contains_key(f) && names_block(t.files[f].mappings, block_id as int);
            assert(id_seq(hits@).contains(f));
        }
    }
    hits.len() > 0
}

/// Whether some file maps a block that lies in the archive with id `archive_id`.
pub fn archive_is_mapped(db: &Database, archive_id: i64) -> (r: bool)
    requires
        db.wf(),
    ensures
        r == archive_mapped(db@.tables, archive_id as int),
{
    let keep = |f: &File| -> (b: bool)
        requires
            db.wf(),
        ensures
            b == names_archive(db@.tables, f@.mappings, archive_id as int),
        { maps_archive(db, &f.mappings, archive_id) };
    let hits = select_ids(
        &db.files,
        keep,
        Ghost(|v: FileView| names_archive(db@.tables, v.mappings, archive_id as int)),
    );
    proof {
        let t = db@.tables;
        if hits@.len() > 0 {
            let f = id_seq(hits@)[0];
            assert(id_seq(hits@).contains(f));
            assert(t.files.contains_key(f));
        } else if archive_mapped(t, archive_id as int) {
            let f = choose|f: int| #[trigger]
                t.files.contains_key(f) && names_archive(t, t.files[f].mappings, archive_id as int);
            assert(id_seq(hits@).contains(f));
        }
    }
    hits.len() > 0
}

/// Deletes the archive with the given id and the blocks in it. Refused while a file
/// maps one of these blocks. Nothing changes if there is no such archive.
pub fn delete_archive(db: &mut Database, archive_id: i64) -> (r: Result<(), Error>)
    requires
        old(db).wf(),
    ensures
        final(db).wf(),
        r is Err <==> old(db)@.tables.archives.contains_key(archive_id as int) && archive_mapped(
            old(db)@.tables,
            archive_id as int,
        ),
        match r {
            Ok(()) => final(db)@ == if old(db)@.tables.archives.contains_key(archive_id as int) {
                recorded(old(db)@, ChangeView::DeleteArchive { id: archive_id as int })
            } else {
                old(db)@
            },
            Err(e) => e == Error::Constraint && final(db)@ == old(db)@,
        },
{
    if !db.archives.contains(archive_id) {
        return Ok(());
    }
    if archive_is_mapped(db, archive_id) {
        return Err(Error::Constraint);
    }
    db.record(Change::DeleteArchive { id: archive_id });
    Ok(())
}

/// The id of the block with the given digest, if there is one.
pub fn select_block(db: &Database, digest: &[u8]) -> (r: Option<i64>)
    requires
        db.wf(),
    ensures
        r is Some <==> has_digest(db@.tables, digest@),
        r matches Some(id) ==> db@.tables.blocks.contains_key(id as int)
            && db@.tables.blocks[id as int].digest == digest@,
{
    let keep = |b: &Block| -> (r: bool)
        ensures
            r == (b@.digest == digest@),
        { bytes_equal(b.digest.as_slice(), digest) };
    let hits = select_ids(&db.blocks, keep, Ghost(|v: BlockView| v.digest == digest@));
    let r = first_id(&hits);
    proof {
        let t = db@.tables;
        if has_digest(t, digest@) {
            let id = choose|id: int| #[trigger]
                t.blocks.contains_key(id) && t.blocks[id].digest == digest@;
            assert(id_seq(hits@).contains(id));
        }
        if hits@.len() > 0 {
            assert(t.blocks.contains_key(hits@[0] as int));
        }
    }
    r
}

/// Adds a block under the next id and returns the id. Refused if the digest is taken
/// or there is no archive with the given id.
pub fn insert_block(
    db: &mut Database,
    digest: &[u8],
    length: u64,
    archive_id: i64,
    archive_off: u64,
) -> (r: Result<i64, Error>)
    requires
        old(db).wf(),
    ensures
        final(db).wf(),
        match r {
            Ok(id) => {
                &&& id == old(db)@.last.block + 1
                &&& final(db)@ == recorded(
                    old(db)@,
                    ChangeView::PutBlock {
                        row: BlockView {
                            id: id as int,
                            digest: digest@,
                            length,
                            archive_id: archive_id as int,
                            archive_off,
                        },
                        fresh: true,
                    },
                )
            },
            Err(e) => final(db)@ == old(db)@ && (e == Error::Constraint || e
                == Error::IdsExhausted),
        },
        r == Err::<i64, Error>(Error::Constraint) <==> !old(db)@.tables.archives.contains_key(
            archive_id as int,
        ) || has_digest(old(db)@.tables, digest@),
        r == Err::<i64, Error>(Error::IdsExhausted) <==> !(r == Err::<i64, Error>(
            Error::Constraint,
        )) && old(db)@.last.block == i64::MAX,
{
    if !db.archives.contains(archive_id) {
        return Err(Error::Constraint);
    }
    if select_block(db, digest).is_some() {
        return Err(Error::Constraint);
    }
    let id = match next_id(db.last_block_id) {
        Ok(id) => id,
        Err(e) => {
            return Err(e);
        },
    };
    let row = Block { id, digest: copy_bytes(digest), length, archive_id, archive_off };
    db.record(Change::PutBlock { row, fresh: true });
    Ok(id)
}

/// Moves the block with the given id to another place. Refused if there is no archive
/// with the given id. Nothing changes if there is no such block.
pub fn update_block(db: &mut Database, block_id: i64, archive_id: i64, archive_off: u64) -> (r:
    Result<(), Error>)
    requires
        old(db).wf(),
    ensures
        final(db).wf(),
        r is Err <==> old(db)@.tables.blocks.contains_key(block_id as int)
            && !old(db)@.tables.archives.contains_key(archive_id as int),
        match r {
            Ok(()) => final(db)@ == if old(db)@.tables.blocks.contains_key(block_id as int) {
                noted(
                    old(db)@,
                    ChangeView::PutBlock {
                        row: BlockView {
                            archive_id: archive_id as int,
                            archive_off,
                            ..old(db)@.tables.blocks[block_id as int]
                        },
                        fresh: false,
                    },
                )
            } else {
                old(db)@
            },
            Err(e) => e == Error::Constraint && final(db)@ == old(db)@,
        },
{
    let row = match db.blocks.get(block_id) {
        Some(block) => Block {
            id: block.id,
            digest: copy_bytes(block.digest.as_slice()),
            length: block.length,
            archive_id,
            archive_off,
        },
        None => {
            return Ok(());
        },
    };
    if !db.archives.contains(archive_id) {
        return Err(Error::Constraint);
    }
    db.note(Change::PutBlock { row, fresh: false });
    Ok(())
}

/// The id of the file with the given path, if there is one.
pub fn select_file(db: &Database, path: &[u8]) -> (r: Option<i64>)
    requires
        db.wf(),
    ensures
        r is Some <==> has_file_path(db@.tables, path@),
        r matches Some(id) ==> db@.tables.files.contains_key(id as int)
            && db@.tables.files[id as int].path == path@,
{
    let keep = |f: &File| -> (r: bool)
        ensures
            r == (f@.path == path@),
        { bytes_equal(f.path.as_slice(), path) };
    let hits = select_ids(&db.files, keep, Ghost(|v: FileView| v.path == path@));
    proof {
        let t = db@.tables;
        if has_file_path(t, path@) {
            let id = choose|id: int| #[trigger] t.files.contains_key(id)
                && t.files[id].path == path@;
            assert(id_seq(hits@).contains(id));
        }
        if hits@.len() > 0 {
            assert(t.files.contains_key(hits@[0] as int));
        }
    }
    first_id(&hits)
}

/// Adds a file with the path, size and mode of the new file with id `new_file_id`, and
/// without mappings, under the next id. Returns the id. Refused if the path is taken.
pub fn insert_file(db: &mut Database, new_file_id: i64) -> (r: Result<i64, Error>)
    requires
        old(db).wf(),
    ensures
        final(db).wf(),
        r == Err::<i64, Error>(Error::InvalidNewFile) <==> !old(db)@.new_files.contains_key(
            new_file_id as int,
        ),
        r == Err::<i64, Error>(Error::Constraint) <==> old(db)@.new_files.contains_key(
            new_file_id as int,
        ) && has_file_path(old(db)@.tables, old(db)@.new_files[new_file_id as int].path),
        match r {
            Ok(id) => {
                &&& id == old(db)@.last.file + 1
                &&& final(db)@ == recorded(
                    old(db)@,
                    ChangeView::PutFile {
                        row: FileView {
                            id: id as int,
                            path: old(db)@.new_files[new_file_id as int].path,
                            size: old(db)@.new_files[new_file_id as int].size,
                            mode: old(db)@.new_files[new_file_id as int].mode,
                            mappings: Seq::empty(),
                        },
                        fresh: true,
                    },
                )
            },
            Err(e) => final(db)@ == old(db)@ && (e == Error::InvalidNewFile || e
                == Error::Constraint || (e == Error::IdsExhausted && old(db)@.last.file
                == i64::MAX)),
        },
{
    let (path, size, mode) = match db.new_files.get(new_file_id) {
        Some(nf) => (copy_bytes(nf.path.as_slice()), nf.size, nf.mode),
        None => {
            return Err(Error::InvalidNewFile);
        },
    };
    if select_file(db, path.as_slice()).is_some() {
        return Err(Error::Constraint);
    }
    let id = match next_id(db.last_file_id) {
        Ok(id) => id,
        Err(e) => {
            return Err(e);
        },
    };
    let row = File { id, path, size, mode, mappings: Vec::new() };
    db.record(Change::PutFile { row, fresh: true });
    Ok(id)
}

/// Gives the file with id `file_id` the size and mode of the new file with id
/// `new_file_id`. Nothing changes if there is no such file.
pub fn update_file(db: &mut Database, file_id: i64, new_file_id: i64) -> (r: Result<(), Error>)
    requires
        old(db).wf(),
    ensures
        final(db).wf(),
        r is Err <==> !old(db)@.new_files.contains_key(new_file_id as int),
        match r {
            Ok(()) => final(db)@ == if old(db)@.tables.files.contains_key(file_id as int) {
                noted(
                    old(db)@,
                    ChangeView::PutFile {
                        row: FileView {
                            size: old(db)@.new_files[new_file_id as int].size,
                            mode: old(db)@.new_files[new_file_id as int].mode,
                            ..old(db)@.tables.files[file_id as int]
                        },
                        fresh: false,
                    },
                )
            } else {
                old(db)@
            },
            Err(e) => e == Error::InvalidNewFile && final(db)@ == old(db)@,
        },
{
    let (size, mode) = match db.new_files.get(new_file_id) {
        Some(nf) => (nf.size, nf.mode),
        None => {
            return Err(Error::InvalidNewFile);
        },
    };
    let row = match db.files.get(file_id) {
        Some(f) => File {
            id: f.id,
            path: copy_bytes(f.path.as_slice()),
            size,
            mode,
            mappings: copy_mappings(&f.mappings),
        },
        None => {
            return Ok(());
        },
    };
    db.note(Change::PutFile { row, fresh: false });
    Ok(())
}

/// Takes all mappings from the file with id `file_id`. Nothing changes if there is no
/// such file.
pub fn delete_mappings(db: &mut Database, file_id: i64)
    requires
        old(db).wf(),
    ensures
        final(db).wf(),
        final(db)@ == if old(db)@.tables.files.contains_key(file_id as int) {
            noted(
                old(db)@,
                ChangeView::PutFile {
                    row: FileView {
                        mappings: Seq::empty(),
                        ..old(db)@.tables.files[file_id as int]
                    },
                    fresh: false,
                },
            )
        } else {
            old(db)@
        },
{
    let row = match db.files.get(file_id) {
        Some(f) => File {
            id: f.id,
            path: copy_bytes(f.path.as_slice()),
            size: f.size,
            mode: f.mode,
            mappings: Vec::new(),
        },
        None => {
            return ;
        },
    };
    db.note(Change::PutFile { row, fresh: false });
}

/// Whether one of `mappings` has the given offset.
pub fn offset_taken(mappings: &Vec<Mapping>, offset: u64) -> (r: bool)
    ensures
        r == has_offset(mappings@, offset),
{
    let mut i: usize = 0;
    while i < mappings.len()
        invariant
            i <= mappings@.len(),
            forall|j: int| 0 <= j < i ==> #[trigger] mappings@[j].offset != offset,
        decreases mappings@.len() - i,
    {
        if mappings[i].offset == offset {
            return true;
        }
        i += 1;
    }
    false
}

/// No offset of `a` is an offset of `b`.
pub open spec fn offsets_apart(a: Seq<Mapping>, b: Seq<Mapping>) -> bool {
    forall|i: int| 0 <= i < b.len() ==> !has_offset(a, #[trigger] b[i].offset)
}

/// Whether no offset of `a` is an offset of `b`.
fn offsets_disjoint(a: &Vec<Mapping>, b: &Vec<Mapping>) -> (r: bool)
    ensures
        r == offsets_apart(a@, b@),
{
    if a.len() == 0 {
        return true;
    }
    let mut i: usize = 0;
    while i < b.len()
        invariant
            i <= b@.len(),
            forall|j: int| 0 <= j < i ==> !has_offset(a@, #[trigger] b@[j].offset),
        decreases b@.len() - i,
    {
        if offset_taken(a, b[i].offset) {
            return false;
        }
        i += 1;
    }
    true
}

/// Whether every one of `mappings` names a block of the manifest.
pub fn mappings_have_blocks(db: &Database, mappings: &Vec<Mapping>) -> (r: bool)
    requires
        db.wf(),
    ensures
        r == blocks_exist(db@.tables, mappings@),
{
    let mut i: usize = 0;
    while i < mappings.len()
        invariant
            db.wf(),
            i <= mappings@.len(),
            forall|j: int|
                0 <= j < i ==> db@.tables.blocks.contains_key(
                    #[trigger] mappings@[j].block_id as int,
                ),
        decreases mappings@.len() - i,
    {
        if !db.blocks.contains(mappings[i].block_id) {
            return false;
        }
        i += 1;
    }
    true
}

/// Two lists of mappings with distinct offsets each, and none in common, make one.
pub proof fn lemma_joined_offsets(a: Seq<Mapping>, b: Seq<Mapping>)
    requires
        distinct_offsets(a),
        distinct_offsets(b),
    ensures
        distinct_offsets(a + b) <==> offsets_apart(a, b),
{
    let ab = a + b;
    if offsets_apart(a, b) {
        assert forall|i: int, j: int|
            0 <= i < ab.len() && 0 <= j < ab.len() && i != j implies ab[i].offset
            != ab[j].offset by {
            if i < a.len() && j >= a.len() {
                assert(!has_offset(a, b[j - a.len()].offset));
            }
            if j < a.len() && i >= a.len() {
                assert(!has_offset(a, b[i - a.len()].offset));
            }
        }
    }
    if distinct_offsets(ab) {
        assert forall|i: int| 0 <= i < b.len() implies !has_offset(a, #[trigger] b[i].offset) by {
            if has_offset(a, b[i].offset) {
                let k = choose|k: int| 0 <= k < a.len() && #[trigger] a[k].offset == b[i].offset;
                assert(ab[k].offset == ab[a.len() + i].offset);
            }
        }
    }
}

/// Gives the file with id `file_id` the mappings of the new file with id `new_file_id`,
/// in addition to those it has. Nothing changes if there is no such new file or it has
/// no mappings. Refused if there is no such file, if an offset is taken, or if a mapping
/// names a block that is missing.
pub fn insert_mappings(db: &mut Database, file_id: i64, new_file_id: i64) -> (r: Result<
    (),
    Error,
>)
    requires
        old(db).wf(),
    ensures
        final(db).wf(),
        r is Err <==> {
            &&& old(db)@.new_files.contains_key(new_file_id as int)
            &&& old(db)@.new_files[new_file_id as int].mappings.len() > 0
            &&& (!old(db)@.tables.files.contains_key(file_id as int) || !offsets_apart(
                old(db)@.tables.files[file_id as int].mappings,
                old(db)@.new_files[new_file_id as int].mappings,
            ) || !blocks_exist(old(db)@.tables, old(db)@.new_files[new_file_id as int].mappings)
                || old(db)@.tables.files[file_id as int].mappings.len()
                + old(db)@.new_files[new_file_id as int].mappings.len()
                > crate::tables::MAX_MAPPINGS)
        },
        match r {
            Ok(()) => final(db)@ == if old(db)@.new_files.contains_key(new_file_id as int)
                && old(db)@.new_files[new_file_id as int].mappings.len() > 0 {
                noted(
                    old(db)@,
                    ChangeView::PutFile {
                        row: FileView {
                            mappings: old(db)@.tables.files[file_id as int].mappings
                                + old(db)@.new_files[new_file_id as int].mappings,
                            ..old(db)@.tables.files[file_id as int]
                        },
                        fresh: false,
                    },
                )
            } else {
                old(db)@
            },
            Err(e) => e == Error::Constraint && final(db)@ == old(db)@,
        },
{
    let added = match db.new_files.get(new_file_id) {
        Some(nf) => copy_mappings(&nf.mappings),
        None => {
            return Ok(());
        },
    };
    if added.len() == 0 {
        return Ok(());
    }
    if !mappings_have_blocks(db, &added) {
        return Err(Error::Constraint);
    }
    let row = match db.files.get(file_id) {
        Some(f) => {
            if !offsets_disjoint(&f.mappings, &added) {
                return Err(Error::Constraint);
            }
            if added.len() > crate::tables::MAX_MAPPINGS || f.mappings.len()
                > crate::tables::MAX_MAPPINGS - added.len() {
                return Err(Error::Constraint);
            }
            let mut joined = copy_mappings(&f.mappings);
            let mut added = added;
            joined.append(&mut added);
            File {
                id: f.id,
                path: copy_bytes(f.path.as_slice()),
                size: f.size,
                mode: f.mode,
                mappings: joined,
            }
        },
        None => {
            return Err(Error::Constraint);
        },
    };
    proof {
        let s = db@;
        let old_ms = s.tables.files[file_id as int].mappings;
        let new_ms = s.new_files[new_file_id as int].mappings;
        lemma_joined_offsets(old_ms, new_ms);
        assert(blocks_exist(s.tables, old_ms));
        assert(blocks_exist(s.tables, old_ms + new_ms));
        assert(file_path_free(s.tables, row@.path, file_id as int));
    }
    db.note(Change::PutFile { row, fresh: false });
    Ok(())
}

/// The id of the directory with the given path, if there is one.
pub fn select_directory(db: &Database, path: &[u8]) -> (r: Option<i64>)
    requires
        db.wf(),
    ensures
        r is Some <==> has_directory_path(db@.tables, path@),
        r matches Some(id) ==> db@.tables.directories.contains_key(id as int)
            && db@.tables.directories[id as int].path == path@,
{
    let keep = |d: &Directory| -> (r: bool)
        ensures
            r == (d@.path == path@),
        { bytes_equal(d.path.as_slice(), path) };
    let hits = select_ids(&db.directories, keep, Ghost(|v: DirectoryView| v.path == path@));
    proof {
        let t = db@.tables;
        if has_directory_path(t, path@) {
            let id = choose|id: int| #[trigger]
                t.directories.contains_key(id) && t.directories[id].path == path@;
            assert(id_seq(hits@).contains(id));
        }
        if hits@.len() > 0 {
            assert(t.directories.contains_key(hits@[0] as int));
        }
    }
    first_id(&hits)
}

/// Adds a directory under the next id and returns the id. Refused if the path is taken.
pub fn insert_directory(db: &mut Database, path: &[u8], mode: u32) -> (r: Result<i64, Error>)
    requires
        old(db).wf(),
    ensures
        final(db).wf(),
        r == Err::<i64, Error>(Error::Constraint) <==> has_directory_path(old(db)@.tables, path@),
        match r {
            Ok(id) => {
                &&& id == old(db)@.last.directory + 1
                &&& final(db)@ == recorded(
                    old(db)@,
                    ChangeView::PutDirectory {
                        row: DirectoryView { id: id as int, path: path@, mode },
                        fresh: true,
                    },
                )
            },
            Err(e) => final(db)@ == old(db)@ && (e == Error::Constraint || (e
                == Error::IdsExhausted && old(db)@.last.directory == i64::MAX)),
        },
{
    if select_directory(db, path).is_some() {
        return Err(Error::Constraint);
    }
    let id = match next_id(db.last_directory_id) {
        Ok(id) => id,
        Err(e) => {
            return Err(e);
        },
    };
    db.record(
        Change::PutDirectory { row: Directory { id, path: copy_bytes(path), mode }, fresh: true },
    );
    Ok(id)
}

/// Gives the directory with the given id another mode. Nothing changes if there is no
/// such directory.
pub fn update_directory(db: &mut Database, directory_id: i64, mode: u32)
    requires
        old(db).wf(),
    ensures
        final(db).wf(),
        final(db)@ == if old(db)@.tables.directories.contains_key(directory_id as int) {
            noted(
                old(db)@,
                ChangeView::PutDirectory {
                    row: DirectoryView {
                        mode,
                        ..old(db)@.tables.directories[directory_id as int]
                    },
                    fresh: false,
                },
            )
        } else {
            old(db)@
        },
{
    let row = match db.directories.get(directory_id) {
        Some(d) => Directory { id: d.id, path: copy_bytes(d.path.as_slice()), mode },
        None => {
            return ;
        },
    };
    db.note(Change::PutDirectory { row, fresh: false });
}

/// The id of the symbolic link with the given path, if there is one.
pub fn select_symbolic_link(db: &Database, path: &[u8]) -> (r: Option<i64>)
    requires
        db.wf(),
    ensures
        r is Some <==> has_symbolic_link_path(db@.tables, path@),
        r matches Some(id) ==> db@.tables.symbolic_links.contains_key(id as int)
            && db@.tables.symbolic_links[id as int].path == path@,
{
    let keep = |l: &SymbolicLink| -> (r: bool)
        ensures
            r == (l@.path == path@),
        { bytes_equal(l.path.as_slice(), path) };
    let hits = select_ids(&db.symbolic_links, keep, Ghost(|v: SymbolicLinkView| v.path == path@));
    proof {
        let t = db@.tables;
        if has_symbolic_link_path(t, path@) {
            let id = choose|id: int| #[trigger]
                t.symbolic_links.contains_key(id) && t.symbolic_links[id].path == path@;
            assert(id_seq(hits@).contains(id));
        }
        if hits@.len() > 0 {
            assert(t.symbolic_links.contains_key(hits@[0] as int));
        }
    }
    first_id(&hits)
}

/// Adds a symbolic link under the next id and returns the id. Refused if the path is
/// taken.
pub fn insert_symbolic_link(db: &mut Database, path: &[u8], target: &[u8]) -> (r: Result<
    i64,
    Error,
>)
    requires
        old(db).wf(),
    ensures
        final(db).wf(),
        r == Err::<i64, Error>(Error::Constraint) <==> has_symbolic_link_path(
            old(db)@.tables,
            path@,
        ),
        match r {
            Ok(id) => {
                &&& id == old(db)@.last.symbolic_link + 1
                &&& final(db)@ == recorded(
                    old(db)@,
                    ChangeView::PutSymbolicLink {
                        row: SymbolicLinkView { id: id as int, path: path@, target: target@ },
                        fresh: true,
                    },
                )
            },
            Err(e) => final(db)@ == old(db)@ && (e == Error::Constraint || (e
                == Error::IdsExhausted && old(db)@.last.symbolic_link == i64::MAX)),
        },
{
    if select_symbolic_link(db, path).is_some() {
        return Err(Error::Constraint);
    }
    let id = match next_id(db.last_symbolic_link_id) {
        Ok(id) => id,
        Err(e) => {
            return Err(e);
        },
    };
    db.record(
        Change::PutSymbolicLink {
            row: SymbolicLink { id, path: copy_bytes(path), target: copy_bytes(target) },
            fresh: true,
        },
    );
    Ok(id)
}

/// Gives the symbolic link with the given id another target. Nothing changes if there
/// is no such symbolic link.
pub fn update_symbolic_link(db: &mut Database, symbolic_link_id: i64, target: &[u8])
    requires
        old(db).wf(),
    ensures
        final(db).wf(),
        final(db)@ == if old(db)@.tables.symbolic_links.contains_key(symbolic_link_id as int) {
            noted(
                old(db)@,
                ChangeView::PutSymbolicLink {
                    row: SymbolicLinkView {
                        target: target@,
                        ..old(db)@.tables.symbolic_links[symbolic_link_id as int]
                    },
                    fresh: false,
                },
            )
        } else {
            old(db)@
        },
{
    let row = match db.symbolic_links.get(symbolic_link_id) {
        Some(l) => SymbolicLink {
            id: l.id,
            path: copy_bytes(l.path.as_slice()),
            target: copy_bytes(target),
        },
        None => {
            return ;
        },
    };
    db.note(Change::PutSymbolicLink { row, fresh: false });
}

/// What a list of ids holds once `id` is added to it.
proof fn lemma_id_set_push(ids: Seq<i64>, id: i64)
    ensures
        id_set(ids.push(id)) == id_set(ids).insert(id as int),
{
    let a = id_seq(ids.push(id));
    let b = id_seq(ids);
    assert(a =~= b.push(id as int));
    assert forall|x: int| a.contains(x) <==> b.contains(x) || x == id by {
        if b.contains(x) {
            let k = b.index_of(x);
            assert(a[k] == x);
        }
        if x == id {
            assert(a[a.len() - 1] == x);
        }
    }
    assert(id_set(ids.push(id)) =~= id_set(ids).insert(id as int));
}

/// Notes that the file with the given id was seen in this session.
pub fn insert_visited_file(db: &mut Database, file_id: i64)
    requires
        old(db).wf(),
    ensures
        final(db).wf(),
        final(db)@ == (State {
            visited_files: old(db)@.visited_files.insert(file_id as int),
            ..old(db)@
        }),
{
    proof {
        lemma_id_set_push(db.visited_files@, file_id);
    }
    db.visited_files.push(file_id);
}

/// Notes that the directory with the given id was seen in this session.
pub fn insert_visited_directory(db: &mut Database, directory_id: i64)
    requires
        old(db).wf(),
    ensures
        final(db).wf(),
        final(db)@ == (State {
            visited_directories: old(db)@.visited_directories.insert(directory_id as int),
            ..old(db)@
        }),
{
    proof {
        lemma_id_set_push(db.visited_directories@, directory_id);
    }
    db.visited_directories.push(directory_id);
}

/// Notes that the symbolic link with the given id was seen in this session.
pub fn insert_visited_symbolic_link(db: &mut Database, symbolic_link_id: i64)
    requires
        old(db).wf(),
    ensures
        final(db).wf(),
        final(db)@ == (State {
            visited_symbolic_links: old(db)@.visited_symbolic_links.insert(
                symbolic_link_id as int,
            ),
            ..old(db)@
        }),
{
    proof {
        lemma_id_set_push(db.visited_symbolic_links@, symbolic_link_id);
    }
    db.visited_symbolic_links.push(symbolic_link_id);
}

/// Forgets what a session has noted down: what it has seen, and the new files.
pub fn delete_visited_objects(db: &mut Database)
    requires
        old(db).wf(),
    ensures
        final(db).wf(),
        final(db)@ == (State {
            new_files: Map::empty(),
            visited_files: Set::empty(),
            visited_directories: Set::empty(),
            visited_symbolic_links: Set::empty(),
            ..old(db)@
        }),
{
    db.visited_files.clear();
    db.visited_directories.clear();
    db.visited_symbolic_links.clear();
    db.new_files.clear();
    proof {
        assert(db@.visited_files =~= Set::<int>::empty());
        assert(db@.visited_directories =~= Set::<int>::empty());
        assert(db@.visited_symbolic_links =~= Set::<int>::empty());
    }
}

/// The id of the new file with the given path, if there is one.
fn select_new_file(db: &Database, path: &[u8]) -> (r: Option<i64>)
    requires
        db.wf(),
    ensures
        r is Some <==> has_new_file_path(db@, path@),
        r matches Some(id) ==> db@.new_files.contains_key(id as int)
            && db@.new_files[id as int].path == path@,
{
    let keep = |f: &NewFile| -> (r: bool)
        ensures
            r == (f@.path == path@),
        { bytes_equal(f.path.as_slice(), path) };
    let hits = select_ids(&db.new_files, keep, Ghost(|v: NewFileView| v.path == path@));
    proof {
        let s = db@;
        if has_new_file_path(s, path@) {
            let id = choose|id: int| #[trigger]
                s.new_files.contains_key(id) && s.new_files[id].path == path@;
            assert(id_seq(hits@).contains(id));
        }
        if hits@.len() > 0 {
            assert(s.new_files.contains_key(hits@[0] as int));
        }
    }
    first_id(&hits)
}

/// Adds a new file that is open and has no mappings, and returns its id. Refused if a
/// new file has the path already.
pub fn insert_new_file(db: &mut Database, path: &[u8], size: u64, mode: u32) -> (r: Result<
    i64,
    Error,
>)
    requires
        old(db).wf(),
    ensures
        final(db).wf(),
        r == Err::<i64, Error>(Error::Constraint) <==> has_new_file_path(old(db)@, path@),
        match r {
            Ok(id) => {
                &&& id == old(db)@.last.new_file + 1
                &&& final(db)@ == (State {
                    new_files: old(db)@.new_files.insert(
                        id as int,
                        NewFileView {
                            id: id as int,
                            path: path@,
                            size,
                            mode,
                            closed: false,
                            mappings: Seq::empty(),
                        },
                    ),
                    last: LastIds { new_file: id as int, ..old(db)@.last },
                    ..old(db)@
                })
            },
            Err(e) => final(db)@ == old(db)@ && (e == Error::Constraint || (e
                == Error::IdsExhausted && old(db)@.last.new_file == i64::MAX)),
        },
{
    if select_new_file(db, path).is_some() {
        return Err(Error::Constraint);
    }
    let id = match next_id(db.last_new_file_id) {
        Ok(id) => id,
        Err(e) => {
            return Err(e);
        },
    };
    db.last_new_file_id = id;
    db.new_files.put(
        NewFile { id, path: copy_bytes(path), size, mode, closed: false, mappings: Vec::new() },
    );
    Ok(id)
}

/// Marks the new file with the given id as closed: all its bytes are stored. Nothing
/// changes if there is no such new file.
pub fn update_new_file(db: &mut Database, new_file_id: i64)
    requires
        old(db).wf(),
    ensures
        final(db).wf(),
        final(db)@ == if old(db)@.new_files.contains_key(new_file_id as int) {
            State {
                new_files: old(db)@.new_files.insert(
                    new_file_id as int,
                    NewFileView { closed: true, ..old(db)@.new_files[new_file_id as int] },
                ),
                ..old(db)@
            }
        } else {
            old(db)@
        },
{
    let row = match db.new_files.get(new_file_id) {
        Some(f) => NewFile {
            id: f.id,
            path: copy_bytes(f.path.as_slice()),
            size: f.size,
            mode: f.mode,
            closed: true,
            mappings: copy_mappings(&f.mappings),
        },
        None => {
            return ;
        },
    };
    db.new_files.put(row);
}

/// Deletes the new file with the given id and its mappings, if there is one.
pub fn delete_new_file(db: &mut Database, new_file_id: i64)
    requires
        old(db).wf(),
    ensures
        final(db).wf(),
        final(db)@ == (State {
            new_files: old(db)@.new_files.remove(new_file_id as int),
            ..old(db)@
        }),
{
    db.new_files.remove(new_file_id);
}

/// Places a block at an offset of a new file. Refused if there is no new file with the
/// given id, the offset is taken, or the new file has as many mappings as a file can
/// have.
pub fn insert_new_mapping(db: &mut Database, new_file_id: i64, offset: u64, block_id: i64) -> (r:
    Result<(), Error>)
    requires
        old(db).wf(),
    ensures
        final(db).wf(),
        r is Ok <==> crate::tables::takes_mapping(old(db)@, new_file_id as int, offset),
        match r {
            Ok(()) => final(db)@ == (State {
                new_files: old(db)@.new_files.insert(
                    new_file_id as int,
                    NewFileView {
                        mappings: old(db)@.new_files[new_file_id as int].mappings.push(
                            Mapping { offset, block_id },
                        ),
                        ..old(db)@.new_files[new_file_id as int]
                    },
                ),
                ..old(db)@
            }),
            Err(e) => e == Error::Constraint && final(db)@ == old(db)@,
        },
{
    let row = match db.new_files.get(new_file_id) {
        Some(f) => {
            if offset_taken(&f.mappings, offset) || f.mappings.len()
                >= crate::tables::MAX_MAPPINGS {
                return Err(Error::Constraint);
            }
            let mut mappings = copy_mappings(&f.mappings);
            mappings.push(Mapping { offset, block_id });
            NewFile {
                id: f.id,
                path: copy_bytes(f.path.as_slice()),
                size: f.size,
                mode: f.mode,
                closed: f.closed,
                mappings,
            }
        },
        None => {
            return Err(Error::Constraint);
        },
    };
    proof {
        let ms = db@.new_files[new_file_id as int].mappings;
        assert(distinct_offsets(ms));
        assert(distinct_offsets(row@.mappings)) by {
            assert forall|i: int, j: int|
                0 <= i < row@.mappings.len() && 0 <= j < row@.mappings.len() && i
                    != j implies row@.mappings[i].offset != row@.mappings[j].offset by {
                if i < ms.len() && j == ms.len() {
                    assert(ms[i].offset != offset);
                }
                if j < ms.len() && i == ms.len() {
                    assert(ms[j].offset != offset);
                }
            }
        }
    }
    db.new_files.put(row);
    Ok(())
}

/// Whether a list of ids holds `id`.
fn holds_id(ids: &Vec<i64>, id: i64) -> (r: bool)
    ensures
        r == id_set(ids@).contains(id as int),
{
    let mut i: usize = 0;
    while i < ids.len()
        invariant
            i <= ids@.len(),
            forall|j: int| 0 <= j < i ==> id_seq(ids@)[j] != id,
        decreases ids@.len() - i,
    {
        if ids[i] == id {
            assert(id_seq(ids@)[i as int] == id);
            return true;
        }
        i += 1;
    }
    false
}

/// The rows of `m` whose ids are not among the first `k` of `gone`.
pub open spec fn without_first<V>(m: Map<int, V>, gone: Seq<i64>, k: int) -> Map<int, V> {
    Map::new(
        |id: int| m.contains_key(id) && !(exists|j: int| 0 <= j < k && #[trigger] gone[j] == id),
        |id: int| m[id],
    )
}

/// Deletes every file that was not seen in this session, with its mappings, and returns how many
/// there were.
pub fn delete_unvisited_files(db: &mut Database) -> (n: usize)
    requires
        old(db).wf(),
    ensures
        final(db).wf(),
        final(db)@ == (State {
            tables: Tables {
                files: old(db)@.tables.files.restrict(old(db)@.visited_files),
                ..old(db)@.tables
            },
            log: final(db)@.log,
            ..old(db)@
        }),
        log_extended(old(db)@, final(db)@),
        n == old(db)@.tables.files.dom().difference(old(db)@.visited_files).len(),
{
    let ghost before = db@;
    let visited = &db.visited_files;
    let keep = |r: &File| -> (b: bool)
        ensures
            b == !id_set(visited@).contains(r@.id),
        { !holds_id(visited, r.id) };
    let doomed = select_ids(
        &db.files,
        keep,
        Ghost(|v: FileView| !id_set(visited@).contains(v.id)),
    );
    proof {
        db.files.lemma_ids();
        let gone = before.tables.files.dom().difference(before.visited_files);
        assert(id_seq(doomed@).to_set() =~= gone);
        id_seq(doomed@).unique_seq_to_set();
        assert(without_first(before.tables.files, doomed@, 0) =~= before.tables.files);
        assert(before.log.take(before.log.len() as int) =~= before.log);
    }
    let mut k: usize = 0;
    while k < doomed.len()
        invariant
            k <= doomed@.len(),
            db.wf(),
            forall|id: int|
                id_seq(doomed@).contains(id) <==> #[trigger] before.tables.files.contains_key(id)
                    && !before.visited_files.contains(id),
            db@ == (State {
                tables: Tables {
                    files: without_first(before.tables.files, doomed@, k as int),
                    ..before.tables
                },
                log: db@.log,
                ..before
            }),
            log_extended(before, db@),
        decreases doomed@.len() - k,
    {
        let id = doomed[k];
        let ghost cur = db@;
        db.record(Change::DeleteFile { id });
        proof {
            assert(without_first(before.tables.files, doomed@, k + 1) =~= without_first(
                before.tables.files,
                doomed@,
                k as int,
            ).remove(id as int));
            assert(db@.log.take(before.log.len() as int) =~= cur.log.take(
                before.log.len() as int,
            ));
        }
        k += 1;
    }
    proof {
        assert forall|id: int| #[trigger]
            before.tables.files.contains_key(id) && !before.visited_files.contains(
                id,
            ) implies exists|j: int| 0 <= j < doomed@.len() && #[trigger] doomed@[j] == id by {
            let j = id_seq(doomed@).index_of(id);
            assert(id_seq(doomed@)[j] == id);
            assert(doomed@[j] == id);
        }
        assert forall|id: int| (exists|j: int|
            0 <= j < doomed@.len() && #[trigger] doomed@[j] == id)
            implies !before.visited_files.contains(id) by {
            let j = choose|j: int| 0 <= j < doomed@.len() && #[trigger] doomed@[j] == id;
            assert(id_seq(doomed@)[j] == id);
            assert(id_seq(doomed@).contains(id));
        }
        assert(without_first(before.tables.files, doomed@, doomed@.len() as int)
            =~= before.tables.files.restrict(before.visited_files));
    }
    doomed.len()
}

/// Deletes every directory that was not seen in this session, and returns how many
/// there were.
pub fn delete_unvisited_directories(db: &mut Database) -> (n: usize)
    requires
        old(db).wf(),
    ensures
        final(db).wf(),
        final(db)@ == (State {
            tables: Tables {
                directories: old(db)@.tables.directories.restrict(old(db)@.visited_directories),
                ..old(db)@.tables
            },
            log: final(db)@.log,
            ..old(db)@
        }),
        log_extended(old(db)@, final(db)@),
        n == old(db)@.tables.directories.dom().difference(old(db)@.visited_directories).len(),
{
    let ghost before = db@;
    let visited = &db.visited_directories;
    let keep = |r: &Directory| -> (b: bool)
        ensures
            b == !id_set(visited@).contains(r@.id),
        { !holds_id(visited, r.id) };
    let doomed = select_ids(
        &db.directories,
        keep,
        Ghost(|v: DirectoryView| !id_set(visited@).contains(v.id)),
    );
    proof {
        db.directories.lemma_ids();
        let gone = before.tables.directories.dom().difference(before.visited_directories);
        assert(id_seq(doomed@).to_set() =~= gone);
        id_seq(doomed@).unique_seq_to_set();
        assert(without_first(before.tables.directories, doomed@, 0) =~= before.tables.directories);
        assert(before.log.take(before.log.len() as int) =~= before.log);
    }
    let mut k: usize = 0;
    while k < doomed.len()
        invariant
            k <= doomed@.len(),
            db.wf(),
            forall|id: int|
                id_seq(doomed@).contains(id) <==>
                    #[trigger] before.tables.directories.contains_key(id)
                    && !before.visited_directories.contains(id),
            db@ == (State {
                tables: Tables {
                    directories: without_first(before.tables.directories, doomed@, k as int),
                    ..before.tables
                },
                log: db@.log,
                ..before
            }),
            log_extended(before, db@),
        decreases doomed@.len() - k,
    {
        let id = doomed[k];
        let ghost cur = db@;
        db.record(Change::DeleteDirectory { id });
        proof {
            assert(without_first(before.tables.directories, doomed@, k + 1) =~= without_first(
                before.tables.directories,
                doomed@,
                k as int,
            ).remove(id as int));
            assert(db@.log.take(before.log.len() as int) =~= cur.log.take(
                before.log.len() as int,
            ));
        }
        k += 1;
    }
    proof {
        assert forall|id: int| #[trigger]
            before.tables.directories.contains_key(id) && !before.visited_directories.contains(
                id,
            ) implies exists|j: int| 0 <= j < doomed@.len() && #[trigger] doomed@[j] == id by {
            let j = id_seq(doomed@).index_of(id);
            assert(id_seq(doomed@)[j] == id);
            assert(doomed@[j] == id);
        }
        assert forall|id: int| (exists|j: int|
            0 <= j < doomed@.len() && #[trigger] doomed@[j] == id)
            implies !before.visited_directories.contains(id) by {
            let j = choose|j: int| 0 <= j < doomed@.len() && #[trigger] doomed@[j] == id;
            assert(id_seq(doomed@)[j] == id);
            assert(id_seq(doomed@).contains(id));
        }
        assert(without_first(before.tables.directories, doomed@, doomed@.len() as int)
            =~= before.tables.directories.restrict(before.visited_directories));
    }
    doomed.len()
}

/// Deletes every symbolic link that was not seen in this session, and returns how many
/// there were.
pub fn delete_unvisited_symbolic_links(db: &mut Database) -> (n: usize)
    requires
        old(db).wf(),
    ensures
        final(db).wf(),
        final(db)@ == (State {
            tables: Tables {
                symbolic_links: old(db)@.tables.symbolic_links.restrict(old(db)@.visited_symbolic_links),
                ..old(db)@.tables
            },
            log: final(db)@.log,
            ..old(db)@
        }),
        log_extended(old(db)@, final(db)@),
        n == old(db)@.tables.symbolic_links.dom().difference(old(db)@.visited_symbolic_links).len(),
{
    let ghost before = db@;
    let visited = &db.visited_symbolic_links;
    let keep = |r: &SymbolicLink| -> (b: bool)
        ensures
            b == !id_set(visited@).contains(r@.id),
        { !holds_id(visited, r.id) };
    let doomed = select_ids(
        &db.symbolic_links,
        keep,
        Ghost(|v: SymbolicLinkView| !id_set(visited@).contains(v.id)),
    );
    proof {
        db.symbolic_links.lemma_ids();
        let gone = before.tables.symbolic_links.dom().difference(before.visited_symbolic_links);
        assert(id_seq(doomed@).to_set() =~= gone);
        id_seq(doomed@).unique_seq_to_set();
        assert(without_first(before.tables.symbolic_links, doomed@, 0)
            =~= before.tables.symbolic_links);
        assert(before.log.take(before.log.len() as int) =~= before.log);
    }
    let mut k: usize = 0;
    while k < doomed.len()
        invariant
            k <= doomed@.len(),
            db.wf(),
            forall|id: int|
                id_seq(doomed@).contains(id) <==>
                    #[trigger] before.tables.symbolic_links.contains_key(id)
                    && !before.visited_symbolic_links.contains(id),
            db@ == (State {
                tables: Tables {
                    symbolic_links: without_first(before.tables.symbolic_links, doomed@, k as int),
                    ..before.tables
                },
                log: db@.log,
                ..before
            }),
            log_extended(before, db@),
        decreases doomed@.len() - k,
    {
        let id = doomed[k];
        let ghost cur = db@;
        db.record(Change::DeleteSymbolicLink { id });
        proof {
            assert(without_first(before.tables.symbolic_links, doomed@, k + 1) =~= without_first(
                before.tables.symbolic_links,
                doomed@,
                k as int,
            ).remove(id as int));
            assert(db@.log.take(before.log.len() as int) =~= cur.log.take(
                before.log.len() as int,
            ));
        }
        k += 1;
    }
    proof {
        assert forall|id: int| #[trigger]
            before.tables.symbolic_links.contains_key(id)
                && !before.visited_symbolic_links.contains(
                id,
            ) implies exists|j: int| 0 <= j < doomed@.len() && #[trigger] doomed@[j] == id by {
            let j = id_seq(doomed@).index_of(id);
            assert(id_seq(doomed@)[j] == id);
            assert(doomed@[j] == id);
        }
        assert forall|id: int| (exists|j: int|
            0 <= j < doomed@.len() && #[trigger] doomed@[j] == id)
            implies !before.visited_symbolic_links.contains(id) by {
            let j = choose|j: int| 0 <= j < doomed@.len() && #[trigger] doomed@[j] == id;
            assert(id_seq(doomed@)[j] == id);
            assert(id_seq(doomed@).contains(id));
        }
        assert(without_first(before.tables.symbolic_links, doomed@, doomed@.len() as int)
            =~= before.tables.symbolic_links.restrict(before.visited_symbolic_links));
    }
    doomed.len()
}

/// Deletes every block that no file maps, and returns how many there were.
pub fn delete_unused_blocks(db: &mut Database) -> (n: usize)
    requires
        old(db).wf(),
    ensures
        final(db).wf(),
        final(db)@ == (State {
            tables: Tables { blocks: mapped_blocks(old(db)@.tables), ..old(db)@.tables },
            log: final(db)@.log,
            ..old(db)@
        }),
        log_extended(old(db)@, final(db)@),
        n == unmapped_blocks(old(db)@.tables).len(),
{
    let ghost before = db@;
    let doomed = {
        let db_ref = &*db;
        let keep = |r: &Block| -> (b: bool)
            requires
                db_ref.wf(),
            ensures
                b == !block_mapped(db_ref@.tables, r@.id),
            { !block_is_mapped(db_ref, r.id) };
        select_ids(&db_ref.blocks, keep, Ghost(|v: BlockView| !block_mapped(before.tables, v.id)))
    };
    proof {
        db.blocks.lemma_ids();
        assert(id_seq(doomed@).to_set() =~= unmapped_blocks(before.tables));
        id_seq(doomed@).unique_seq_to_set();
        assert(without_first(before.tables.blocks, doomed@, 0) =~= before.tables.blocks);
        assert(before.log.take(before.log.len() as int) =~= before.log);
    }
    let mut k: usize = 0;
    while k < doomed.len()
        invariant
            k <= doomed@.len(),
            db.wf(),
            forall|id: int|
                id_seq(doomed@).contains(id) <==> #[trigger] before.tables.blocks.contains_key(id)
                    && !block_mapped(before.tables, id),
            db@ == (State {
                tables: Tables {
                    blocks: without_first(before.tables.blocks, doomed@, k as int),
                    ..before.tables
                },
                log: db@.log,
                ..before
            }),
            log_extended(before, db@),
        decreases doomed@.len() - k,
    {
        let id = doomed[k];
        let ghost cur = db@;
        proof {
            assert(id_seq(doomed@)[k as int] == id);
            assert(id_seq(doomed@).contains(id as int));
            assert(block_mapped(cur.tables, id as int) == block_mapped(before.tables, id as int));
        }
        db.record(Change::DeleteBlock { id });
        proof {
            assert(without_first(before.tables.blocks, doomed@, k + 1) =~= without_first(
                before.tables.blocks,
                doomed@,
                k as int,
            ).remove(id as int));
            assert(db@.log.take(before.log.len() as int) =~= cur.log.take(
                before.log.len() as int,
            ));
        }
        k += 1;
    }
    proof {
        assert forall|id: int| #[trigger]
            before.tables.blocks.contains_key(id) && !block_mapped(
                before.tables,
                id,
            ) implies exists|j: int| 0 <= j < doomed@.len() && #[trigger] doomed@[j] == id by {
            let j = id_seq(doomed@).index_of(id);
            assert(id_seq(doomed@)[j] == id);
            assert(doomed@[j] == id);
        }
        assert forall|id: int| (exists|j: int|
            0 <= j < doomed@.len() && #[trigger] doomed@[j] == id) implies !block_mapped(
            before.tables,
            id,
        ) by {
            let j = choose|j: int| 0 <= j < doomed@.len() && #[trigger] doomed@[j] == id;
            assert(id_seq(doomed@)[j] == id);
            assert(id_seq(doomed@).contains(id));
        }
        assert(without_first(before.tables.blocks, doomed@, doomed@.len() as int) =~= mapped_blocks(
            before.tables,
        ));
    }
    doomed.len()
}

/// Whether some block lies in the archive with id `archive_id`.
pub fn archive_has_blocks(db: &Database, archive_id: i64) -> (r: bool)
    requires
        db.wf(),
    ensures
        r == archive_used(db@.tables, archive_id as int),
{
    let keep = |b: &Block| -> (r: bool)
        ensures
            r == (b@.archive_id == archive_id as int),
        { b.archive_id == archive_id };
    let hits = select_ids(
        &db.blocks,
        keep,
        Ghost(|v: BlockView| v.archive_id == archive_id as int),
    );
    proof {
        let t = db@.tables;
        if hits@.len() > 0 {
            assert(t.blocks.contains_key(hits@[0] as int));
        } else if archive_used(t, archive_id as int) {
            let b = choose|b: int| #[trigger]
                t.blocks.contains_key(b) && t.blocks[b].archive_id == archive_id as int;
            assert(id_seq(hits@).contains(b));
        }
    }
    hits.len() > 0
}

/// The ids that a list of pairs begins with.
pub open spec fn pair_ids<T>(pairs: Seq<(i64, T)>) -> Seq<int> {
    Seq::new(pairs.len(), |i: int| pairs[i].0 as int)
}

/// The archives in which no block lies, each with the id of its blob if it has one.
pub fn select_unused_archives(db: &Database) -> (out: Vec<(i64, Option<Vec<u8>>)>)
    requires
        db.wf(),
    ensures
        pair_ids(out@).no_duplicates(),
        forall|id: int|
            pair_ids(out@).contains(id) <==> #[trigger] db@.tables.archives.contains_key(id)
                && !archive_used(db@.tables, id),
        forall|k: int|
            0 <= k < out@.len() ==> db@.tables.archives.contains_key((#[trigger] out@[k]).0 as int)
                && opt_bytes(out@[k].1) == db@.tables.archives[out@[k].0 as int].blob_file_id,
{
    let keep = |a: &Archive| -> (r: bool)
        requires
            db.wf(),
        ensures
            r == !archive_used(db@.tables, a@.id),
        { !archive_has_blocks(db, a.id) };
    let ids = select_ids(
        &db.archives,
        keep,
        Ghost(|v: ArchiveView| !archive_used(db@.tables, v.id)),
    );
    let mut out: Vec<(i64, Option<Vec<u8>>)> = Vec::new();
    let mut k: usize = 0;
    while k < ids.len()
        invariant
            db.wf(),
            k <= ids@.len(),
            out@.len() == k,
            forall|j: int| 0 <= j < ids@.len() ==>
                db@.tables.archives.contains_key(#[trigger] ids@[j] as int),
            forall|j: int| 0 <= j < k ==>
                (#[trigger] out@[j]).0 == ids@[j]
                    && opt_bytes(out@[j].1) == db@.tables.archives[ids@[j] as int].blob_file_id,
        decreases ids@.len() - k,
    {
        let id = ids[k];
        match db.archives.get(id) {
            Some(a) => {
                out.push((id, copy_opt_bytes(&a.blob_file_id)));
            },
            None => {
                out.push((id, None));
            },
        }
        k += 1;
    }
    proof {
        assert(pair_ids(out@) =~= id_seq(ids@));
    }
    out
}

/// The new files that can be made files of the manifest: those that are closed and
/// whose blocks all lie in uploaded archives. Each comes with its path.
pub fn select_closed_new_files(db: &Database) -> (out: Vec<(i64, Vec<u8>)>)
    requires
        db.wf(),
    ensures
        pair_ids(out@).no_duplicates(),
        forall|id: int| pair_ids(out@).contains(id) <==> #[trigger] promotable(db@, id),
        forall|k: int|
            0 <= k < out@.len() ==> db@.new_files.contains_key((#[trigger] out@[k]).0 as int)
                && out@[k].1@ == db@.new_files[out@[k].0 as int].path,
{
    let keep = |f: &NewFile| -> (r: bool)
        requires
            db.wf(),
        ensures
            r == (f@.closed && !names_pending(db@.tables, f@.mappings)),
        { f.closed && !maps_pending(db, &f.mappings) };
    let ids = select_ids(
        &db.new_files,
        keep,
        Ghost(|v: NewFileView| v.closed && !names_pending(db@.tables, v.mappings)),
    );
    let mut out: Vec<(i64, Vec<u8>)> = Vec::new();
    let mut k: usize = 0;
    while k < ids.len()
        invariant
            db.wf(),
            k <= ids@.len(),
            out@.len() == k,
            forall|j: int| 0 <= j < ids@.len() ==>
                db@.new_files.contains_key(#[trigger] ids@[j] as int),
            forall|j: int| 0 <= j < k ==>
                (#[trigger] out@[j]).0 == ids@[j]
                    && out@[j].1@ == db@.new_files[ids@[j] as int].path,
        decreases ids@.len() - k,
    {
        let id = ids[k];
        match db.new_files.get(id) {
            Some(f) => {
                out.push((id, copy_bytes(f.path.as_slice())));
            },
            None => {
                out.push((id, Vec::new()));
            },
        }
        k += 1;
    }
    proof {
        assert(pair_ids(out@) =~= id_seq(ids@));
        assert forall|id: int| pair_ids(out@).contains(id) <==> #[trigger] promotable(db@, id) by {
            if promotable(db@, id) {
                assert(db@.new_files.contains_key(id));
            }
            if pair_ids(out@).contains(id) {
                assert(db@.new_files.contains_key(id));
            }
        }
    }
    out
}

/// Whether one of `mappings` names a block that lies in an archive which is not
/// uploaded yet.
fn maps_pending(db: &Database, mappings: &Vec<Mapping>) -> (r: bool)
    requires
        db.wf(),
    ensures
        r == names_pending(db@.tables, mappings@),
{
    let mut i: usize = 0;
    while i < mappings.len()
        invariant
            db.wf(),
            i <= mappings@.len(),
            forall|j: int| 0 <= j < i ==>
                !block_pending(db@.tables, #[trigger] mappings@[j].block_id as int),
        decreases mappings@.len() - i,
    {
        match db.blocks.get(mappings[i].block_id) {
            Some(block) => {
                match db.archives.get(block.archive_id) {
                    Some(archive) => {
                        if archive.blob_file_id.is_none() {
                            return true;
                        }
                    },
                    None => {},
                }
            },
            None => {},
        }
        i += 1;
    }
    false
}

/// Deletes every row of the lasting tables and every patchset, and forgets the
/// recorded changes.
pub fn clear_tables(db: &mut Database)
    requires
        old(db).wf(),
    ensures
        final(db).wf(),
        final(db)@ == (State {
            tables: empty_tables(),
            patchsets: Map::empty(),
            base: empty_tables(),
            log: Seq::empty(),
            ..old(db)@
        }),
{
    db.archives.clear();
    db.files.clear();
    db.directories.clear();
    db.symbolic_links.clear();
    db.blocks.clear();
    db.patchsets.clear();
    db.log.clear();
    db.base = Ghost(empty_tables());
    proof {
        assert(db@.log =~= Seq::<ChangeView>::empty());
    }
}

/// Begins to record anew: forgets the recorded changes and takes the tables as they
/// are for the base.
pub fn start_recording(db: &mut Database)
    requires
        old(db).wf(),
    ensures
        final(db).wf(),
        final(db)@ == (State { base: old(db)@.tables, log: Seq::empty(), ..old(db)@ }),
{
    db.log.clear();
    db.base = Ghost(db@.tables);
    proof {
        assert(db@.log =~= Seq::<ChangeView>::empty());
    }
}

/// The changes recorded so far, in order.
pub fn recorded_changes(db: &Database) -> (out: Vec<Change>)
    requires
        db.wf(),
    ensures
        change_views(out@) == db@.log,
        replay(db@.base, change_views(out@)) == db@.tables,
        forall|i: int| 0 <= i < out@.len() ==>
            crate::tables::change_fits(#[trigger] change_views(out@)[i]),
{
    let mut out: Vec<Change> = Vec::new();
    let mut i: usize = 0;
    while i < db.log.len()
        invariant
            i <= db.log@.len(),
            out@.len() == i,
            change_views(out@) == change_views(db.log@).take(i as int),
        decreases db.log@.len() - i,
    {
        let ghost prev = out@;
        let c = db.log[i].copy();
        out.push(c);
        proof {
            let want = change_views(db.log@).take(i + 1);
            assert forall|j: int| 0 <= j < want.len() implies change_views(out@)[j] == want[j] by {
                if j < i {
                    assert(change_views(prev)[j] == change_views(db.log@).take(i as int)[j]);
                }
            }
            assert(change_views(out@) =~= want);
        }
        i += 1;
    }
    proof {
        assert(change_views(db.log@).take(db.log@.len() as int) =~= change_views(db.log@));
    }
    out
}

/// Whether no two of `mappings` share an offset.
fn offsets_are_distinct(mappings: &Vec<Mapping>) -> (r: bool)
    ensures
        r == distinct_offsets(mappings@),
{
    // Mappings mostly come in rising order of their offsets, which one pass shows.
    let mut rising = true;
    let mut i: usize = 1;
    while rising && i < mappings.len()
        invariant
            1 <= i,
            rising ==> i <= mappings@.len() || mappings@.len() == 0,
            rising ==> forall|a: int, b: int|
                0 <= a < b < i && b < mappings@.len() ==> mappings@[a].offset < mappings@[b].offset,
        decreases mappings@.len() - i + (if rising { 1int } else { 0int }),
    {
        if mappings[i - 1].offset < mappings[i].offset {
            i += 1;
        } else {
            rising = false;
        }
    }
    if rising {
        return true;
    }
    let mut b: usize = 0;
    while b < mappings.len()
        invariant
            b <= mappings@.len(),
            forall|x: int, y: int| 0 <= x < y < b ==> mappings@[x].offset != mappings@[y].offset,
        decreases mappings@.len() - b,
    {
        let mut a: usize = 0;
        while a < b
            invariant
                a <= b < mappings@.len(),
                forall|x: int| 0 <= x < a ==> mappings@[x].offset != mappings@[b as int].offset,
            decreases b - a,
        {
            if mappings[a].offset == mappings[b].offset {
                return false;
            }
            a += 1;
        }
        b += 1;
    }
    true
}

/// Whether no file but the one with id `except` has the given path.
fn file_path_is_free(db: &Database, path: &[u8], except: i64) -> (r: bool)
    requires
        db.wf(),
    ensures
        r == file_path_free(db@.tables, path@, except as int),
{
    let keep = |f: &File| -> (r: bool)
        ensures
            r == (f@.id != except && f@.path == path@),
        { f.id != except && bytes_equal(f.path.as_slice(), path) };
    let hits = select_ids(
        &db.files,
        keep,
        Ghost(|v: FileView| v.id != except && v.path == path@),
    );
    proof {
        let t = db@.tables;
        db.files.lemma_ids();
        if hits@.len() > 0 {
            assert(t.files.contains_key(hits@[0] as int));
        } else {
            assert forall|id: int| #[trigger] t.files.contains_key(id)
                && id != except implies t.files[id].path
                != path@ by {
                if t.files[id].path == path@ {
                    assert(id_seq(hits@).contains(id));
                }
            }
        }
    }
    hits.len() == 0
}

/// Whether no directory but the one with id `except` has the given path.
fn directory_path_is_free(db: &Database, path: &[u8], except: i64) -> (r: bool)
    requires
        db.wf(),
    ensures
        r == directory_path_free(db@.tables, path@, except as int),
{
    let keep = |d: &Directory| -> (r: bool)
        ensures
            r == (d@.id != except && d@.path == path@),
        { d.id != except && bytes_equal(d.path.as_slice(), path) };
    let hits = select_ids(
        &db.directories,
        keep,
        Ghost(|v: DirectoryView| v.id != except && v.path == path@),
    );
    proof {
        let t = db@.tables;
        db.directories.lemma_ids();
        if hits@.len() > 0 {
            assert(t.directories.contains_key(hits@[0] as int));
        } else {
            assert forall|id: int| #[trigger]
                t.directories.contains_key(id) && id != except implies t.directories[id].path
                != path@ by {
                if t.directories[id].path == path@ {
                    assert(id_seq(hits@).contains(id));
                }
            }
        }
    }
    hits.len() == 0
}

/// Whether no symbolic link but the one with id `except` has the given path.
fn symbolic_link_path_is_free(db: &Database, path: &[u8], except: i64) -> (r: bool)
    requires
        db.wf(),
    ensures
        r == symbolic_link_path_free(db@.tables, path@, except as int),
{
    let keep = |l: &SymbolicLink| -> (r: bool)
        ensures
            r == (l@.id != except && l@.path == path@),
        { l.id != except && bytes_equal(l.path.as_slice(), path) };
    let hits = select_ids(
        &db.symbolic_links,
        keep,
        Ghost(|v: SymbolicLinkView| v.id != except && v.path == path@),
    );
    proof {
        let t = db@.tables;
        db.symbolic_links.lemma_ids();
        if hits@.len() > 0 {
            assert(t.symbolic_links.contains_key(hits@[0] as int));
        } else {
            assert forall|id: int| #[trigger]
                t.symbolic_links.contains_key(id) && id != except implies t.symbolic_links[id].path
                != path@ by {
                if t.symbolic_links[id].path == path@ {
                    assert(id_seq(hits@).contains(id));
                }
            }
        }
    }
    hits.len() == 0
}

/// Whether no block but the one with id `except` has the given digest.
fn digest_is_free(db: &Database, digest: &[u8], except: i64) -> (r: bool)
    requires
        db.wf(),
    ensures
        r == digest_free(db@.tables, digest@, except as int),
{
    let keep = |b: &Block| -> (r: bool)
        ensures
            r == (b@.id != except && b@.digest == digest@),
        { b.id != except && bytes_equal(b.digest.as_slice(), digest) };
    let hits = select_ids(
        &db.blocks,
        keep,
        Ghost(|v: BlockView| v.id != except && v.digest == digest@),
    );
    proof {
        let t = db@.tables;
        db.blocks.lemma_ids();
        if hits@.len() > 0 {
            assert(t.blocks.contains_key(hits@[0] as int));
        } else {
            assert forall|id: int| #[trigger] t.blocks.contains_key(id)
                && id != except implies t.blocks[id].digest
                != digest@ by {
                if t.blocks[id].digest == digest@ {
                    assert(id_seq(hits@).contains(id));
                }
            }
        }
    }
    hits.len() == 0
}

/// Whether the manifest takes a change.
pub fn is_admissible(db: &Database, change: &Change) -> (r: bool)
    requires
        db.wf(),
    ensures
        r == admissible(db@.tables, change@),
{
    match change {
        Change::PutArchive { row, fresh } => *fresh || db.archives.contains(row.id),
        Change::DeleteArchive { id } => !archive_is_mapped(db, *id),
        Change::PutFile { row, fresh } => {
            (*fresh || db.files.contains(row.id)) && file_path_is_free(
                db,
                row.path.as_slice(),
                row.id,
            ) && offsets_are_distinct(&row.mappings) && mappings_have_blocks(db, &row.mappings)
                && row.mappings.len() <= crate::tables::MAX_MAPPINGS
        },
        Change::DeleteFile { id } => true,
        Change::PutDirectory { row, fresh } => {
            (*fresh || db.directories.contains(row.id)) && directory_path_is_free(
                db,
                row.path.as_slice(),
                row.id,
            )
        },
        Change::DeleteDirectory { id } => true,
        Change::PutSymbolicLink { row, fresh } => {
            (*fresh || db.symbolic_links.contains(row.id)) && symbolic_link_path_is_free(
                db,
                row.path.as_slice(),
                row.id,
            )
        },
        Change::DeleteSymbolicLink { id } => true,
        Change::PutBlock { row, fresh } => {
            (*fresh || db.blocks.contains(row.id)) && db.archives.contains(row.archive_id)
                && digest_is_free(db, row.digest.as_slice(), row.id)
        },
        Change::DeleteBlock { id } => !block_is_mapped(db, *id),
    }
}

/// Applies a change to the manifest if the manifest takes it, and records it then.
/// Returns whether it was taken.
pub fn apply_change(db: &mut Database, change: Change) -> (taken: bool)
    requires
        old(db).wf(),
    ensures
        final(db).wf(),
        taken == admissible(old(db)@.tables, change@),
        final(db)@.tables == apply(old(db)@.tables, change@),
        final(db)@ == if taken {
            recorded(old(db)@, change@)
        } else {
            old(db)@
        },
{
    if is_admissible(db, &change) {
        db.record(change);
        true
    } else {
        false
    }
}

/// A filter as a plain value.
pub open spec fn filter_view(filter: Option<&[u8]>) -> Option<Seq<u8>> {
    match filter {
        Some(f) => Some(f@),
        None => None,
    }
}

/// The ids of the files whose paths pass the filter.
pub fn select_files_by_path(db: &Database, path_filter: Option<&[u8]>) -> (out: Vec<i64>)
    requires
        db.wf(),
    ensures
        id_seq(out@).no_duplicates(),
        forall|id: int|
            id_seq(out@).contains(id) <==> #[trigger] db@.tables.files.contains_key(id) && passes(
                filter_view(path_filter),
                db@.tables.files[id].path,
            ),
{
    let keep = |f: &File| -> (r: bool)
        ensures
            r == passes(filter_view(path_filter), f@.path),
        { passes_filter(path_filter, f.path.as_slice()) };
    select_ids(&db.files, keep, Ghost(|v: FileView| passes(filter_view(path_filter), v.path)))
}

/// The ids of the directories whose paths pass the filter.
pub fn select_directories_by_path(db: &Database, path_filter: Option<&[u8]>) -> (out: Vec<i64>)
    requires
        db.wf(),
    ensures
        id_seq(out@).no_duplicates(),
        forall|id: int|
            id_seq(out@).contains(id) <==> #[trigger] db@.tables.directories.contains_key(id)
                && passes(filter_view(path_filter), db@.tables.directories[id].path),
{
    let keep = |d: &Directory| -> (r: bool)
        ensures
            r == passes(filter_view(path_filter), d@.path),
        { passes_filter(path_filter, d.path.as_slice()) };
    select_ids(
        &db.directories,
        keep,
        Ghost(|v: DirectoryView| passes(filter_view(path_filter), v.path)),
    )
}

/// The ids of the symbolic links whose paths pass the filter.
pub fn select_symbolic_links_by_path(db: &Database, path_filter: Option<&[u8]>) -> (out: Vec<
    i64,
>)
    requires
        db.wf(),
    ensures
        id_seq(out@).no_duplicates(),
        forall|id: int|
            id_seq(out@).contains(id) <==> #[trigger] db@.tables.symbolic_links.contains_key(id)
                && passes(filter_view(path_filter), db@.tables.symbolic_links[id].path),
{
    let keep = |l: &SymbolicLink| -> (r: bool)
        ensures
            r == passes(filter_view(path_filter), l@.path),
        { passes_filter(path_filter, l.path.as_slice()) };
    select_ids(
        &db.symbolic_links,
        keep,
        Ghost(|v: SymbolicLinkView| passes(filter_view(path_filter), v.path)),
    )
}

/// The ids of the files whose paths pass the filter and which map a block in the
/// archive with id `archive_id`.
pub fn select_files_by_path_and_archive(
    db: &Database,
    path_filter: Option<&[u8]>,
    archive_id: i64,
) -> (out: Vec<i64>)
    requires
        db.wf(),
    ensures
        id_seq(out@).no_duplicates(),
        forall|id: int|
            id_seq(out@).contains(id) <==> #[trigger] db@.tables.files.contains_key(id) && passes(
                filter_view(path_filter),
                db@.tables.files[id].path,
            ) && names_archive(db@.tables, db@.tables.files[id].mappings, archive_id as int),
{
    let keep = |f: &File| -> (r: bool)
        requires
            db.wf(),
        ensures
            r == (passes(filter_view(path_filter), f@.path) && names_archive(
                db@.tables,
                f@.mappings,
                archive_id as int,
            )),
        { passes_filter(path_filter, f.path.as_slice()) && maps_archive(db, &f.mappings, archive_id)
        };
    select_ids(
        &db.files,
        keep,
        Ghost(
            |v: FileView|
                passes(filter_view(path_filter), v.path) && names_archive(
                    db@.tables,
                    v.mappings,
                    archive_id as int,
                ),
        ),
    )
}

/// The ids of the archives that hold a block of a file whose path passes the filter.
pub fn select_archives_by_path(db: &Database, path_filter: Option<&[u8]>) -> (out: Vec<i64>)
    requires
        db.wf(),
    ensures
        id_seq(out@).no_duplicates(),
        forall|id: int|
            id_seq(out@).contains(id) <==> #[trigger] db@.tables.archives.contains_key(id)
                && archive_wanted(db@.tables, filter_view(path_filter), id),
{
    let keep = |a: &Archive| -> (r: bool)
        requires
            db.wf(),
        ensures
            r == archive_wanted(db@.tables, filter_view(path_filter), a@.id),
        {
            let files = select_files_by_path_and_archive(db, path_filter, a.id);
            proof {
                let t = db@.tables;
                let fv = filter_view(path_filter);
                if files@.len() > 0 {
                    let f = id_seq(files@)[0];
                    assert(id_seq(files@).contains(f));
                    assert(t.files.contains_key(f));
                } else if archive_wanted(t, fv, a@.id) {
                    let f = choose|f: int| #[trigger]
                        t.files.contains_key(f) && passes(fv, t.files[f].path) && names_archive(
                            t,
                            t.files[f].mappings,
                            a@.id,
                        );
                    assert(id_seq(files@).contains(f));
                }
            }
            files.len() > 0
        };
    select_ids(
        &db.archives,
        keep,
        Ghost(|v: ArchiveView| archive_wanted(db@.tables, filter_view(path_filter), v.id)),
    )
}

/// The sum of the lengths of the blocks that lie in the archive with id `archive_id`.
pub fn blocks_length(db: &Database, archive_id: i64) -> (total: u128)
    requires
        db.wf(),
    ensures
        total == archive_blocks_length(db@.tables, archive_id as int),
{
    let measure = |b: &Block| -> (x: u64)
        ensures
            x == length_in(archive_id as int)(b@),
        {
            if b.archive_id == archive_id {
                b.length
            } else {
                0
            }
        };
    table_sum(&db.blocks, measure, Ghost(length_in(archive_id as int)))
}

/// The sum of the blob lengths of the patchsets with id `patchset_id` or higher.
pub fn patchsets_length_from(db: &Database, patchset_id: i64) -> (total: u128)
    requires
        db.wf(),
    ensures
        total == tail_length(db@, patchset_id as int),
{
    let measure = |p: &Patchset| -> (x: u64)
        ensures
            x == length_from(patchset_id as int)(p@),
        {
            if p.id >= patchset_id {
                match p.blob_length {
                    Some(n) => n,
                    None => 0,
                }
            } else {
                0
            }
        };
    table_sum(&db.patchsets, measure, Ghost(length_from(patchset_id as int)))
}

/// The bytes that the blobs of all patchsets and archives take on the remote store,
/// or the highest number that can be told if they are more.
pub fn select_storage_used(db: &Database) -> (total: u128)
    requires
        db.wf(),
    ensures
        total == if map_sum(db@.patchsets, patchset_blob_length()) + map_sum(
            db@.tables.archives,
            archive_blob_length(),
        ) <= u128::MAX {
            map_sum(db@.patchsets, patchset_blob_length()) + map_sum(
                db@.tables.archives,
                archive_blob_length(),
            )
        } else {
            u128::MAX as nat
        },
{
    let of_patchset = |p: &Patchset| -> (x: u64)
        ensures
            x == patchset_blob_length()(p@),
        {
            match p.blob_length {
                Some(n) => n,
                None => 0,
            }
        };
    let of_archive = |a: &Archive| -> (x: u64)
        ensures
            x == archive_blob_length()(a@),
        {
            match a.blob_length {
                Some(n) => n,
                None => 0,
            }
        };
    let patchsets = table_sum(&db.patchsets, of_patchset, Ghost(patchset_blob_length()));
    let archives = table_sum(&db.archives, of_archive, Ghost(archive_blob_length()));
    if patchsets > u128::MAX - archives {
        u128::MAX
    } else {
        patchsets + archives
    }
}

/// `order` lists every position below `n` once.
pub open spec fn is_arrangement(n: nat, order: Seq<usize>) -> bool {
    &&& order.len() == n
    &&& forall|i: int| 0 <= i < order.len() ==> (#[trigger] order[i]) < n
    &&& forall|i: int, j: int| 0 <= i < j < order.len() ==> order[i] != order[j]
    &&& forall|p: int| 0 <= p < n ==> #[trigger] lists(order, p)
}

/// The ids of `ids` in the order that `order` gives.
fn arrange_ids(ids: &Vec<i64>, order: &Vec<usize>) -> (out: Vec<i64>)
    requires
        is_arrangement(ids@.len(), order@),
        id_seq(ids@).no_duplicates(),
    ensures
        out@.len() == ids@.len(),
        forall|i: int| 0 <= i < out@.len() ==> out@[i] == ids@[order@[i] as int],
        id_seq(out@).no_duplicates(),
        forall|id: int| id_seq(out@).contains(id) <==> id_seq(ids@).contains(id),
{
    let mut out: Vec<i64> = Vec::new();
    let mut i: usize = 0;
    while i < order.len()
        invariant
            i <= order@.len(),
            order@.len() == ids@.len(),
            forall|k: int| 0 <= k < order@.len() ==> (#[trigger] order@[k]) < ids@.len(),
            out@.len() == i,
            forall|k: int| 0 <= k < i ==> out@[k] == ids@[order@[k] as int],
        decreases order@.len() - i,
    {
        out.push(ids[order[i]]);
        i += 1;
    }
    proof {
        let a = id_seq(out@);
        let b = id_seq(ids@);
        assert forall|i: int, j: int| 0 <= i < a.len() && 0 <= j < a.len() && i != j implies a[i]
            != a[j] by {
            assert(a[i] == b[order@[i] as int]);
            assert(a[j] == b[order@[j] as int]);
            if i < j {
                assert(order@[i] != order@[j]);
            } else {
                assert(order@[j] != order@[i]);
            }
        }
        assert forall|id: int| a.contains(id) <==> b.contains(id) by {
            if a.contains(id) {
                let i = a.index_of(id);
                assert(b[order@[i] as int] == id);
            }
            if b.contains(id) {
                let p = b.index_of(id);
                assert(lists(order@, p));
                let i = choose|i: int| 0 <= i < order@.len() && #[trigger] order@[i] == p;
                assert(a[i] == id);
            }
        }
    }
    out
}

/// The ids of the small archives: those that hold blocks, and less than
/// `min_archive_len` bytes of them. The one with the fewest bytes comes first; among
/// archives with as many bytes, the one with the longest blob.
pub fn select_small_archives(db: &Database, min_archive_len: u64) -> (out: Vec<i64>)
    requires
        db.wf(),
    ensures
        id_seq(out@).no_duplicates(),
        forall|id: int| id_seq(out@).contains(id) <==>
            #[trigger] small_archive(db@.tables, id, min_archive_len),
        forall|i: int, j: int|
            0 <= i < j < out@.len() ==> rank_le(
                small_archive_rank(db@.tables, out@[i] as int),
                small_archive_rank(db@.tables, out@[j] as int),
            ),
{
    let keep = |a: &Archive| -> (r: bool)
        requires
            db.wf(),
        ensures
            r == (archive_used(db@.tables, a@.id) && archive_blocks_length(db@.tables, a@.id)
                < min_archive_len),
        { archive_has_blocks(db, a.id) && blocks_length(db, a.id) < min_archive_len as u128 };
    let found = select_ids(
        &db.archives,
        keep,
        Ghost(
            |v: ArchiveView|
                archive_used(db@.tables, v.id) && archive_blocks_length(db@.tables, v.id)
                    < min_archive_len,
        ),
    );
    let mut ranks: Vec<Rank> = Vec::new();
    let mut k: usize = 0;
    while k < found.len()
        invariant
            db.wf(),
            k <= found@.len(),
            ranks@.len() == k,
            forall|j: int|
                0 <= j < found@.len() ==>
                    db@.tables.archives.contains_key(#[trigger] found@[j] as int)
                    && archive_blocks_length(db@.tables, found@[j] as int) < min_archive_len,
            forall|j: int| 0 <= j < k ==>
                ranks@[j] == small_archive_rank(db@.tables, found@[j] as int),
        decreases found@.len() - k,
    {
        let id = found[k];
        let bytes = blocks_length(db, id);
        let blob: i128 = match db.archives.get(id) {
            Some(a) => match a.blob_length {
                Some(n) => -(n as i128),
                None => 1,
            },
            None => 1,
        };
        ranks.push(Rank { a: bytes as i128, b: blob, c: 0 });
        k += 1;
    }
    let order = sorted_order(&ranks);
    let out = arrange_ids(&found, &order);
    proof {
        assert forall|id: int| id_seq(out@).contains(id) <==>
            #[trigger] small_archive(db@.tables, id, min_archive_len) by {
            if small_archive(db@.tables, id, min_archive_len) {
                assert(db@.tables.archives.contains_key(id));
            }
            if id_seq(found@).contains(id) {
                assert(db@.tables.archives.contains_key(id));
            }
        }
    }
    out
}

/// The patchsets at the end whose blobs together are shorter than `max_manifest_len`,
/// the one with the highest id first, each with the id of its blob if it has one.
pub fn select_small_patchsets(db: &Database, max_manifest_len: u64) -> (out: Vec<
    (i64, Option<Vec<u8>>),
>)
    requires
        db.wf(),
    ensures
        pair_ids(out@).no_duplicates(),
        forall|id: int| pair_ids(out@).contains(id) <==>
            #[trigger] small_patchset(db@, id, max_manifest_len),
        forall|i: int, j: int| 0 <= i < j < out@.len() ==> out@[i].0 > out@[j].0,
        forall|k: int|
            0 <= k < out@.len() ==> db@.patchsets.contains_key((#[trigger] out@[k]).0 as int)
                && opt_bytes(out@[k].1) == db@.patchsets[out@[k].0 as int].blob_file_id,
{
    let keep = |p: &Patchset| -> (r: bool)
        requires
            db.wf(),
        ensures
            r == (tail_length(db@, p@.id) < max_manifest_len),
        { patchsets_length_from(db, p.id) < max_manifest_len as u128 };
    let found = select_ids(
        &db.patchsets,
        keep,
        Ghost(|v: crate::rows::PatchsetView| tail_length(db@, v.id) < max_manifest_len),
    );
    let mut ranks: Vec<Rank> = Vec::new();
    let mut k: usize = 0;
    while k < found.len()
        invariant
            k <= found@.len(),
            ranks@.len() == k,
            forall|j: int| 0 <= j < k ==>
                ranks@[j] == (Rank { a: (0 - found@[j]) as i128, b: 0, c: 0 }),
        decreases found@.len() - k,
    {
        ranks.push(Rank { a: -(found[k] as i128), b: 0, c: 0 });
        k += 1;
    }
    let order = sorted_order(&ranks);
    let ids = arrange_ids(&found, &order);
    let mut out: Vec<(i64, Option<Vec<u8>>)> = Vec::new();
    let mut k: usize = 0;
    proof {
        assert forall|j: int| 0 <= j < ids@.len() implies db@.patchsets.contains_key(
            #[trigger] ids@[j] as int,
        ) by {
            assert(ids@[j] == found@[order@[j] as int]);
        }
    }
    while k < ids.len()
        invariant
            db.wf(),
            k <= ids@.len(),
            out@.len() == k,
            forall|j: int| 0 <= j < ids@.len() ==>
                db@.patchsets.contains_key(#[trigger] ids@[j] as int),
            forall|j: int| 0 <= j < k ==> (#[trigger] out@[j]).0 == ids@[j] && opt_bytes(out@[j].1)
                == db@.patchsets[ids@[j] as int].blob_file_id,
        decreases ids@.len() - k,
    {
        let id = ids[k];
        match db.patchsets.get(id) {
            Some(p) => {
                out.push((id, copy_opt_bytes(&p.blob_file_id)));
            },
            None => {
                out.push((id, None));
            },
        }
        k += 1;
    }
    proof {
        assert(pair_ids(out@) =~= id_seq(ids@));
        assert forall|id: int| pair_ids(out@).contains(id) <==>
            #[trigger] small_patchset(db@, id, max_manifest_len) by {
            if small_patchset(db@, id, max_manifest_len) {
                assert(db@.patchsets.contains_key(id));
            }
            if id_seq(found@).contains(id) {
                assert(db@.patchsets.contains_key(id));
            }
        }
        assert forall|i: int, j: int| 0 <= i < j < out@.len() implies out@[i].0 > out@[j].0 by {
            assert(rank_le(ranks@[order@[i] as int], ranks@[order@[j] as int]));
            assert(out@[i].0 == found@[order@[i] as int]);
            assert(out@[j].0 == found@[order@[j] as int]);
            assert(id_seq(ids@)[i] != id_seq(ids@)[j]);
        }
        assert forall|k: int| 0 <= k < out@.len() implies db@.patchsets.contains_key(
            (#[trigger] out@[k]).0 as int,
        ) && opt_bytes(out@[k].1) == db@.patchsets[out@[k].0 as int].blob_file_id by {
            assert(id_seq(ids@)[k] == out@[k].0);
            assert(id_seq(ids@).contains(out@[k].0 as int));
            assert(id_seq(found@).contains(out@[k].0 as int));
            assert(db@.patchsets.contains_key(out@[k].0 as int));
        }
    }
    out
}

/// The ids that a list of blocks has.
pub open spec fn block_ids(blocks: Seq<Block>) -> Seq<int> {
    Seq::new(blocks.len(), |i: int| blocks[i].id as int)
}

/// The blocks that lie in the archive with id `archive_id`, in the order in which they
/// lie there; blocks at the same place come in the order of their ids.
pub fn select_blocks_by_archive(db: &Database, archive_id: i64) -> (out: Vec<Block>)
    requires
        db.wf(),
    ensures
        block_ids(out@).no_duplicates(),
        forall|id: int|
            block_ids(out@).contains(id) <==> #[trigger] db@.tables.blocks.contains_key(id)
                && db@.tables.blocks[id].archive_id == archive_id,
        forall|k: int|
            0 <= k < out@.len() ==> db@.tables.blocks.contains_key((#[trigger] out@[k]).id as int)
                && out@[k]@ == db@.tables.blocks[out@[k].id as int],
        forall|i: int, j: int| 0 <= i < j < out@.len() ==>
            out@[i].archive_off <= out@[j].archive_off,
        forall|i: int, j: int|
            0 <= i < j < out@.len() ==> crate::tables::lies_before(out@[i]@, out@[j]@),
{
    let keep = |b: &Block| -> (r: bool)
        ensures
            r == (b@.archive_id == archive_id as int),
        { b.archive_id == archive_id };
    let found = select_ids(
        &db.blocks,
        keep,
        Ghost(|v: BlockView| v.archive_id == archive_id as int),
    );
    let mut ranks: Vec<Rank> = Vec::new();
    let mut k: usize = 0;
    while k < found.len()
        invariant
            db.wf(),
            k <= found@.len(),
            ranks@.len() == k,
            forall|j: int| 0 <= j < found@.len() ==>
                db@.tables.blocks.contains_key(#[trigger] found@[j] as int),
            forall|j: int| 0 <= j < k ==> ranks@[j] == (Rank {
                a: db@.tables.blocks[found@[j] as int].archive_off as i128,
                b: found@[j] as i128,
                c: 0,
            }),
        decreases found@.len() - k,
    {
        let off: u64 = match db.blocks.get(found[k]) {
            Some(b) => b.archive_off,
            None => 0,
        };
        ranks.push(Rank { a: off as i128, b: found[k] as i128, c: 0 });
        k += 1;
    }
    let order = sorted_order(&ranks);
    let ids = arrange_ids(&found, &order);
    let mut out: Vec<Block> = Vec::new();
    let mut k: usize = 0;
    proof {
        assert forall|j: int| 0 <= j < ids@.len() implies db@.tables.blocks.contains_key(
            #[trigger] ids@[j] as int,
        ) by {
            assert(ids@[j] == found@[order@[j] as int]);
        }
    }
    while k < ids.len()
        invariant
            db.wf(),
            k <= ids@.len(),
            out@.len() == k,
            forall|j: int| 0 <= j < ids@.len() ==>
                db@.tables.blocks.contains_key(#[trigger] ids@[j] as int),
            forall|j: int| 0 <= j < k ==>
                (#[trigger] out@[j]).id == ids@[j] && out@[j]@ == db@.tables.blocks[ids@[j] as int],
        decreases ids@.len() - k,
    {
        let id = ids[k];
        match db.blocks.get(id) {
            Some(b) => {
                out.push(b.copy());
            },
            None => {
                out.push(Block { id, digest: Vec::new(), length: 0, archive_id, archive_off: 0 });
            },
        }
        k += 1;
    }
    proof {
        assert(block_ids(out@) =~= id_seq(ids@));
        assert forall|i: int, j: int| 0 <= i < j < out@.len() implies crate::tables::lies_before(
            out@[i]@,
            out@[j]@,
        ) by {
            assert(rank_le(ranks@[order@[i] as int], ranks@[order@[j] as int]));
            assert(ids@[i] == found@[order@[i] as int]);
            assert(ids@[j] == found@[order@[j] as int]);
            assert(id_seq(ids@)[i] != id_seq(ids@)[j]);
            db.lemma_wf();
        }
        assert forall|i: int, j: int| 0 <= i < j < out@.len() implies out@[i].archive_off
            <= out@[j].archive_off by {
            assert(crate::tables::lies_before(out@[i]@, out@[j]@));
        }
    }
    out
}

/// Where the blocks of the file with id `file_id` lie, and where they belong. With an
/// archive chosen, only the blocks in that archive are told. They come in the order of
/// their archives, within an archive in the order in which they lie there.
pub fn select_blocks_by_file(db: &Database, file_id: i64, archive_id: Option<i64>) -> (out: Vec<
    Placement,
>)
    requires
        db.wf(),
    ensures
        out@.no_duplicates(),
        forall|p: Placement|
            out@.contains(p) <==>
                db@.tables.files.contains_key(file_id as int) && #[trigger] placed(
                db@.tables,
                db@.tables.files[file_id as int].mappings,
                archive_id,
                p,
            ),
        forall|i: int, j: int|
            0 <= i < j < out@.len() ==> rank_le(placement_rank(out@[i]), placement_rank(out@[j])),
{
    let file = match db.files.get(file_id) {
        Some(f) => f,
        None => {
            let out: Vec<Placement> = Vec::new();
            assert forall|p: Placement| !out@.contains(p) by {}
            return out;
        },
    };
    let ghost t = db@.tables;
    let ghost ms = file.mappings@;
    assert(ms == t.files[file_id as int].mappings);
    assert(distinct_offsets(ms));
    let mut found: Vec<Placement> = Vec::new();
    let mut ranks: Vec<Rank> = Vec::new();
    let mut i: usize = 0;
    while i < file.mappings.len()
        invariant
            db.wf(),
            t == db@.tables,
            ms == file.mappings@,
            distinct_offsets(ms),
            i <= ms.len(),
            ranks@.len() == found@.len(),
            forall|k: int| 0 <= k < found@.len() ==>
                ranks@[k] == placement_rank(#[trigger] found@[k]),
            forall|k: int| 0 <= k < found@.len() ==>
                placed(t, ms.take(i as int), archive_id, #[trigger] found@[k]),
            forall|p: Placement| #[trigger] placed(t, ms.take(i as int), archive_id, p) ==>
                found@.contains(p),
            forall|a: int, b: int| 0 <= a < b < found@.len() ==>
                found@[a].offset != found@[b].offset,
        decreases ms.len() - i,
    {
        let m = file.mappings[i];
        let ghost before = found@;
        let ghost short = ms.take(i as int);
        let ghost long = ms.take(i + 1);
        let mut added = false;
        match db.blocks.get(m.block_id) {
            Some(block) => {
                let chosen = match archive_id {
                    Some(a) => a == block.archive_id,
                    None => true,
                };
                if chosen {
                    let p = Placement {
                        length: block.length,
                        archive_id: block.archive_id,
                        archive_off: block.archive_off,
                        offset: m.offset,
                    };
                    found.push(p);
                    ranks.push(
                        Rank {
                            a: block.archive_id as i128,
                            b: block.archive_off as i128,
                            c: m.offset as i128,
                        },
                    );
                    added = true;
                    proof {
                        assert(p == placement_of(t, ms[i as int]));
                        assert(found@[found@.len() - 1] == p);
                        assert(long[i as int] == ms[i as int]);
                        assert(t.blocks.contains_key(long[i as int].block_id as int));
                        assert(placed(t, long, archive_id, p));
                    }
                }
            },
            None => {},
        }
        proof {
            assert forall|q: Placement| placed(t, short, archive_id,
                q) implies #[trigger] placed(t, long, archive_id, q) by {
                let x = choose|x: int|
                    0 <= x < short.len()
                        && t.blocks.contains_key(#[trigger] short[x].block_id as int)
                        && in_archive(archive_id,
                            t.blocks[short[x].block_id as int].archive_id) && q
                        == placement_of(t, short[x]);
                assert(long[x] == short[x]);
                assert(t.blocks.contains_key(long[x].block_id as int));
            }
            assert forall|k: int| 0 <= k < found@.len() implies placed(t, long, archive_id,
                #[trigger] found@[k]) by {
                if k < before.len() {
                    assert(found@[k] == before[k]);
                    assert(placed(t, short, archive_id, before[k]));
                }
            }
            assert forall|q: Placement| #[trigger] placed(t, long, archive_id,
                q) implies found@.contains(q) by {
                let x = choose|x: int|
                    0 <= x < long.len() && t.blocks.contains_key(#[trigger] long[x].block_id as int)
                        && in_archive(archive_id, t.blocks[long[x].block_id as int].archive_id) && q
                        == placement_of(t, long[x]);
                if x < i {
                    assert(short[x] == long[x]);
                    assert(t.blocks.contains_key(short[x].block_id as int));
                    assert(placed(t, short, archive_id, q));
                    let k = before.index_of(q);
                    assert(found@[k] == before[k]);
                } else {
                    assert(long[x] == ms[i as int]);
                    assert(added);
                    assert(found@[found@.len() - 1] == q);
                }
            }
            assert forall|a: int, b: int| 0 <= a < b < found@.len() implies found@[a].offset
                != found@[b].offset by {
                if b == before.len() {
                    assert(found@[a] == before[a]);
                    assert(placed(t, short, archive_id, before[a]));
                    let x = choose|x: int|
                        0 <= x < short.len() && t.blocks.contains_key(
                            #[trigger] short[x].block_id as int,
                        ) && in_archive(archive_id, t.blocks[short[x].block_id as int].archive_id)
                            && before[a] == placement_of(t, short[x]);
                    assert(short[x] == ms[x]);
                    assert(ms[x].offset != ms[i as int].offset);
                } else {
                    assert(found@[a] == before[a]);
                    assert(found@[b] == before[b]);
                }
            }
        }
        i += 1;
    }
    proof {
        assert(ms.take(ms.len() as int) =~= ms);
    }
    let order = sorted_order(&ranks);
    let mut out: Vec<Placement> = Vec::new();
    let mut k: usize = 0;
    while k < order.len()
        invariant
            k <= order@.len(),
            order@.len() == found@.len(),
            forall|x: int| 0 <= x < order@.len() ==> (#[trigger] order@[x]) < found@.len(),
            out@.len() == k,
            forall|x: int| 0 <= x < k ==> out@[x] == found@[order@[x] as int],
        decreases order@.len() - k,
    {
        out.push(found[order[k]]);
        k += 1;
    }
    proof {
        assert forall|a: int, b: int| 0 <= a < out@.len() && 0 <= b < out@.len()
            && a != b implies out@[a]
            != out@[b] by {
            if a < b {
                assert(order@[a] != order@[b]);
            } else {
                assert(order@[b] != order@[a]);
            }
            let x = order@[a] as int;
            let y = order@[b] as int;
            if x < y {
                assert(found@[x].offset != found@[y].offset);
            } else {
                assert(found@[y].offset != found@[x].offset);
            }
        }
        assert forall|p: Placement| out@.contains(p) <==>
            #[trigger] placed(t, ms, archive_id, p) by {
            if out@.contains(p) {
                let a = out@.index_of(p);
                let k = order@[a] as int;
                assert(found@[k] == p);
            }
            if placed(t, ms, archive_id, p) {
                assert(found@.contains(p));
                let k = found@.index_of(p);
                assert(lists(order@, k));
                let a = choose|a: int| 0 <= a < order@.len() && #[trigger] order@[a] == k;
                assert(out@[a] == p);
            }
        }
        assert forall|i: int, j: int| 0 <= i < j < out@.len() implies rank_le(
            placement_rank(out@[i]),
            placement_rank(out@[j]),
        ) by {
            assert(rank_le(ranks@[order@[i] as int], ranks@[order@[j] as int]));
        }
    }
    out
}

/// The patchset with the given id, if there is one.
pub fn get_patchset(db: &Database, patchset_id: i64) -> (r: Option<&Patchset>)
    requires
        db.wf(),
    ensures
        r is Some <==> db@.patchsets.contains_key(patchset_id as int),
        r matches Some(row) ==> row@ == db@.patchsets[patchset_id as int],
{
    db.patchsets.get(patchset_id)
}

/// The archive with the given id, if there is one.
pub fn get_archive(db: &Database, archive_id: i64) -> (r: Option<&Archive>)
    requires
        db.wf(),
    ensures
        r is Some <==> db@.tables.archives.contains_key(archive_id as int),
        r matches Some(row) ==> row@ == db@.tables.archives[archive_id as int],
{
    db.archives.get(archive_id)
}

/// The file with the given id, if there is one.
pub fn get_file(db: &Database, file_id: i64) -> (r: Option<&File>)
    requires
        db.wf(),
    ensures
        r is Some <==> db@.tables.files.contains_key(file_id as int),
        r matches Some(row) ==> row@ == db@.tables.files[file_id as int],
{
    db.files.get(file_id)
}

/// The directory with the given id, if there is one.
pub fn get_directory(db: &Database, directory_id: i64) -> (r: Option<&Directory>)
    requires
        db.wf(),
    ensures
        r is Some <==> db@.tables.directories.contains_key(directory_id as int),
        r matches Some(row) ==> row@ == db@.tables.directories[directory_id as int],
{
    db.directories.get(directory_id)
}

/// The symbolic link with the given id, if there is one.
pub fn get_symbolic_link(db: &Database, symbolic_link_id: i64) -> (r: Option<&SymbolicLink>)
    requires
        db.wf(),
    ensures
        r is Some <==> db@.tables.symbolic_links.contains_key(symbolic_link_id as int),
        r matches Some(row) ==> row@ == db@.tables.symbolic_links[symbolic_link_id as int],
{
    db.symbolic_links.get(symbolic_link_id)
}

/// The block with the given id, if there is one.
pub fn get_block(db: &Database, block_id: i64) -> (r: Option<&Block>)
    requires
        db.wf(),
    ensures
        r is Some <==> db@.tables.blocks.contains_key(block_id as int),
        r matches Some(row) ==> row@ == db@.tables.blocks[block_id as int],
{
    db.blocks.get(block_id)
}

/// The new file with the given id, if there is one.
pub fn get_new_file(db: &Database, new_file_id: i64) -> (r: Option<&NewFile>)
    requires
        db.wf(),
    ensures
        r is Some <==> db@.new_files.contains_key(new_file_id as int),
        r matches Some(row) ==> row@ == db@.new_files[new_file_id as int],
{
    db.new_files.get(new_file_id)
}

/// Sets the next archive id aside and returns it. No archive has the id yet.
pub fn reserve_archive_id(db: &mut Database) -> (r: Result<i64, Error>)
    requires
        old(db).wf(),
    ensures
        final(db).wf(),
        match r {
            Ok(id) => {
                &&& id == old(db)@.last.archive + 1
                &&& final(db)@ == (State {
                    last: LastIds { archive: id as int, ..old(db)@.last },
                    ..old(db)@
                })
                &&& !final(db)@.tables.archives.contains_key(id as int)
                &&& !archive_used(final(db)@.tables, id as int)
            },
            Err(e) => e == Error::IdsExhausted && old(db)@.last.archive == i64::MAX && final(db)@
                == old(db)@,
        },
{
    let id = match next_id(db.last_archive_id) {
        Ok(id) => id,
        Err(e) => {
            return Err(e);
        },
    };
    db.last_archive_id = id;
    proof {
        let t = db@.tables;
        if archive_used(t, id as int) {
            let b = choose|b: int| #[trigger] t.blocks.contains_key(b)
                && t.blocks[b].archive_id == id as int;
            assert(t.archives.contains_key(t.blocks[b].archive_id));
        }
    }
    Ok(id)
}

/// Adds an archive that is not uploaded yet under an id that was set aside. Refused if
/// the id is taken.
pub fn insert_archive(db: &mut Database, archive_id: i64) -> (r: Result<(), Error>)
    requires
        old(db).wf(),
    ensures
        final(db).wf(),
        r is Err <==> old(db)@.tables.archives.contains_key(archive_id as int),
        match r {
            Ok(()) => final(db)@ == recorded(
                old(db)@,
                ChangeView::PutArchive {
                    row: ArchiveView {
                        id: archive_id as int,
                        length: None,
                        blob_file_id: None,
                        blob_length: None,
                    },
                    fresh: true,
                },
            ),
            Err(e) => e == Error::Constraint && final(db)@ == old(db)@,
        },
{
    if db.archives.contains(archive_id) {
        return Err(Error::Constraint);
    }
    db.record(
        Change::PutArchive {
            row: Archive { id: archive_id, length: None, blob_file_id: None, blob_length: None },
            fresh: true,
        },
    );
    Ok(())
}

/// Whether any change was recorded.
pub fn has_changes(db: &Database) -> (r: bool)
    requires
        db.wf(),
    ensures
        r == (db@.log.len() > 0),
        !r ==> db@.tables == db@.base,
{
    db.log.len() > 0
}

/// Whether the blocks have an id left to give out.
pub fn has_next_block_id(db: &Database) -> (r: bool)
    requires
        db.wf(),
    ensures
        r == (db@.last.block < i64::MAX),
        db@.last.block <= i64::MAX,
{
    db.last_block_id < i64::MAX
}

/// The ids of the archives that hold a block of the file with id `file_id`.
pub fn select_archives_by_file(db: &Database, file_id: i64) -> (out: Vec<i64>)
    requires
        db.wf(),
    ensures
        id_seq(out@).no_duplicates(),
        forall|a: int|
            id_seq(out@).contains(a) <==> #[trigger] db@.tables.archives.contains_key(a)
                && db@.tables.files.contains_key(file_id as int) && names_archive(
                db@.tables,
                db@.tables.files[file_id as int].mappings,
                a,
            ),
{
    match db.files.get(file_id) {
        Some(file) => {
            let keep = |a: &Archive| -> (r: bool)
                requires
                    db.wf(),
                ensures
                    r == names_archive(db@.tables, file@.mappings, a@.id),
                { maps_archive(db, &file.mappings, a.id) };
            select_ids(
                &db.archives,
                keep,
                Ghost(|v: ArchiveView| names_archive(db@.tables, file@.mappings, v.id)),
            )
        },
        None => {
            let out: Vec<i64> = Vec::new();
            assert forall|a: int| !id_seq(out@).contains(a) by {}
            out
        },
    }
}

/// The ids of all archives.
pub fn select_archives(db: &Database) -> (out: Vec<i64>)
    requires
        db.wf(),
    ensures
        id_seq(out@).no_duplicates(),
        forall|id: int| id_seq(out@).contains(id) <==>
            #[trigger] db@.tables.archives.contains_key(id),
{
    let keep = |a: &Archive| -> (r: bool)
        ensures
            r,
        { true };
    select_ids(&db.archives, keep, Ghost(|v: ArchiveView| true))
}

/// The ids of all blocks.
pub fn select_blocks(db: &Database) -> (out: Vec<i64>)
    requires
        db.wf(),
    ensures
        id_seq(out@).no_duplicates(),
        forall|id: int| id_seq(out@).contains(id) <==>
            #[trigger] db@.tables.blocks.contains_key(id),
{
    let keep = |b: &Block| -> (r: bool)
        ensures
            r,
        { true };
    select_ids(&db.blocks, keep, Ghost(|v: BlockView| true))
}

/// The ids of all patchsets.
pub fn select_patchsets(db: &Database) -> (out: Vec<i64>)
    requires
        db.wf(),
    ensures
        id_seq(out@).no_duplicates(),
        forall|id: int| id_seq(out@).contains(id) <==> #[trigger] db@.patchsets.contains_key(id),
{
    let keep = |p: &Patchset| -> (r: bool)
        ensures
            r,
        { true };
    select_ids(&db.patchsets, keep, Ghost(|v: PatchsetView| true))
}

/// The highest id that was given to an archive or set aside for one.
pub fn last_archive_id(db: &Database) -> (id: i64)
    requires
        db.wf(),
    ensures
        id == db@.last.archive,
{
    db.last_archive_id
}

/// The highest id that was given to a patchset.
pub fn last_patchset_id(db: &Database) -> (id: i64)
    requires
        db.wf(),
    ensures
        id == db@.last.patchset,
{
    db.last_patchset_id
}

/// Takes note of ids that were given out before the database was loaded, so that they
/// are not given out again: the last ids of archives and patchsets become the given
/// ones where those are higher.
pub fn resume_ids(db: &mut Database, archive_id: i64, patchset_id: i64)
    requires
        old(db).wf(),
    ensures
        final(db).wf(),
        final(db)@ == (State {
            last: LastIds {
                archive: higher(old(db)@.last.archive, archive_id as int),
                patchset: higher(old(db)@.last.patchset, patchset_id as int),
                ..old(db)@.last
            },
            ..old(db)@
        }),
{
    if archive_id > db.last_archive_id {
        db.last_archive_id = archive_id;
    }
    if patchset_id > db.last_patchset_id {
        db.last_patchset_id = patchset_id;
    }
}

} // verus!
