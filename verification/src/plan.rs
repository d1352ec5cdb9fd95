//! What a restore has to create, fetch and copy; what a listing shows; and which blobs
//! on the remote store the manifest does not know.

use crate::bytes::{copy_bytes};
use crate::config::SEPARATOR;
use crate::database::{
    filter_view, get_directory, get_file, get_symbolic_link, select_archive,
    select_archives_by_file, select_archives_by_path, select_blocks_by_file,
    select_directories_by_path, select_files_by_path, select_files_by_path_and_archive,
    select_patchset, select_symbolic_links_by_path, Database,
};
use crate::error::Error;
use crate::glob::{glob_matches, passes, STAR_BYTE};
use crate::manifest::Manifest;
use crate::names::{
    archive_name, archive_prefix, archive_prefix_bytes, decimal, manifest_prefix,
    manifest_prefix_bytes, name_id, parse_name,
};
use crate::sort::{is_sorted_order, lists, rank_le, sorted_order, Rank};
use crate::table::id_seq;
use crate::tables::{
    archive_wanted, names_archive, placed, placement_of, placement_rank, tables_wf, Placement,
    Tables,
};
use vstd::prelude::*;
use vstd::slice::slice_subrange;

verus! {

/// A path without the separators that it begins with, if it begins with one.
pub open spec fn relative(path: Seq<u8>) -> Option<Seq<u8>> {
    if path.len() > 0 && path[0] == SEPARATOR {
        Some(unrooted(path))
    } else {
        None
    }
}

/// A path without the separators that it begins with.
pub open spec fn unrooted(path: Seq<u8>) -> Seq<u8>
    decreases path.len(),
{
    if path.len() > 0 && path[0] == SEPARATOR {
        unrooted(path.drop_first())
    } else {
        path
    }
}

/// A path that begins at the root, taken relative to the root.
pub fn strip_root(path: &[u8]) -> (r: Option<Vec<u8>>)
    ensures
        match r {
            Some(p) => relative(path@) == Some(p@),
            None => relative(path@) is None,
        },
{
    if path.len() == 0 || path[0] != SEPARATOR {
        return None;
    }
    let mut start: usize = 0;
    proof {
        assert(path@.skip(0) =~= path@);
    }
    while start < path.len() && path[start] == SEPARATOR
        invariant
            start <= path@.len(),
            unrooted(path@.skip(start as int)) == unrooted(path@),
        decreases path@.len() - start,
    {
        proof {
            assert(path@.skip(start as int).drop_first() =~= path@.skip(start + 1));
            assert(path@.skip(start as int)[0] == path@[start as int]);
        }
        start += 1;
    }
    proof {
        if start < path@.len() {
            assert(path@.skip(start as int)[0] == path@[start as int]);
        }
    }
    Some(copy_bytes(slice_subrange(path, start, path.len())))
}

/// A regular file that a restore creates, empty but of its size, and whose mode it
/// sets in the end.
pub struct FileToCreate {
    pub id: i64,
    /// Where to create it, relative to the target directory.
    pub path: Vec<u8>,
    pub size: u64,
    pub mode: u32,
}

/// A directory that a restore creates, and whose mode it sets in the end.
pub struct DirectoryToCreate {
    pub id: i64,
    pub path: Vec<u8>,
    pub mode: u32,
}

/// A symbolic link that a restore creates.
pub struct LinkToCreate {
    pub id: i64,
    pub path: Vec<u8>,
    pub target: Vec<u8>,
}

/// The blocks of one file that lie in one archive.
pub struct FileCopies {
    pub file_id: i64,
    /// The file to write to, relative to the target directory.
    pub path: Vec<u8>,
    /// What to copy from the archive, in the order in which it lies there.
    pub copies: Vec<Placement>,
}

/// What a restore takes from one archive.
pub struct ArchiveCopies {
    pub archive_id: i64,
    /// The name of the archive's blob.
    pub name: Vec<u8>,
    pub files: Vec<FileCopies>,
}

/// What a restore does, in this order: create the files and the directories, fetch
/// each archive once and copy its blocks into the files, set the modes, create the
/// symbolic links.
pub struct RestorePlan {
    pub files: Vec<FileToCreate>,
    pub directories: Vec<DirectoryToCreate>,
    pub archives: Vec<ArchiveCopies>,
    pub symbolic_links: Vec<LinkToCreate>,
}

/// The ids of the files to create.
pub open spec fn created_files(files: Seq<FileToCreate>) -> Seq<int> {
    Seq::new(files.len(), |i: int| files[i].id as int)
}

/// The ids of the directories to create.
pub open spec fn created_directories(dirs: Seq<DirectoryToCreate>) -> Seq<int> {
    Seq::new(dirs.len(), |i: int| dirs[i].id as int)
}

/// The ids of the symbolic links to create.
pub open spec fn created_links(links: Seq<LinkToCreate>) -> Seq<int> {
    Seq::new(links.len(), |i: int| links[i].id as int)
}

/// The ids of the archives to fetch.
pub open spec fn fetched_archives(archives: Seq<ArchiveCopies>) -> Seq<int> {
    Seq::new(archives.len(), |i: int| archives[i].archive_id as int)
}

/// The ids of the files written from an archive.
pub open spec fn written_files(files: Seq<FileCopies>) -> Seq<int> {
    Seq::new(files.len(), |i: int| files[i].file_id as int)
}

/// The copies are what the file with id `file_id` holds in the archive with id
/// `archive_id`, in the order in which it lies there.
pub open spec fn copies_of(t: Tables, file_id: int, archive_id: i64,
    copies: Seq<Placement>) -> bool {
    &&& copies.no_duplicates()
    &&& forall|p: Placement|
        copies.contains(p) <==> #[trigger] placed(
            t,
            t.files[file_id].mappings,
            Some(archive_id),
            p,
        )
    &&& forall|i: int, j: int|
        0 <= i < j < copies.len() ==> rank_le(placement_rank(copies[i]), placement_rank(copies[j]))
}

/// The entry tells what to take from its archive: for every file that passes the
/// filter and has blocks in the archive, the places of these blocks.
pub open spec fn archive_entry_ok(t: Tables, filter: Option<Seq<u8>>,
    entry: ArchiveCopies) -> bool {
    &&& entry.name@ == archive_prefix() + decimal(entry.archive_id as int)
    &&& written_files(entry.files@).no_duplicates()
    &&& forall|f: int|
        written_files(entry.files@).contains(f) <==> #[trigger] t.files.contains_key(f) && passes(
            filter,
            t.files[f].path,
        ) && names_archive(t, t.files[f].mappings, entry.archive_id as int)
    &&& forall|k: int|
        0 <= k < entry.files@.len() ==> {
            &&& t.files.contains_key((#[trigger] entry.files@[k]).file_id as int)
            &&& relative(t.files[entry.files@[k].file_id as int].path)
                == Some(entry.files@[k].path@)
            &&& copies_of(t, entry.files@[k].file_id as int, entry.archive_id,
                entry.files@[k].copies@)
        }
}

/// The plan restores what passes the filter, and fetches no archive twice.
pub open spec fn plan_ok(t: Tables, filter: Option<Seq<u8>>, plan: RestorePlan) -> bool {
    &&& created_files(plan.files@).no_duplicates()
    &&& forall|f: int|
        created_files(plan.files@).contains(f) <==> #[trigger] t.files.contains_key(f) && passes(
            filter,
            t.files[f].path,
        )
    &&& forall|k: int|
        0 <= k < plan.files@.len() ==> {
            &&& t.files.contains_key((#[trigger] plan.files@[k]).id as int)
            &&& relative(t.files[plan.files@[k].id as int].path) == Some(plan.files@[k].path@)
            &&& plan.files@[k].size == t.files[plan.files@[k].id as int].size
            &&& plan.files@[k].mode == t.files[plan.files@[k].id as int].mode
        }
    &&& created_directories(plan.directories@).no_duplicates()
    &&& forall|d: int|
        created_directories(plan.directories@).contains(d) <==>
            #[trigger] t.directories.contains_key(d)
            && passes(filter, t.directories[d].path)
    &&& forall|k: int|
        0 <= k < plan.directories@.len() ==> {
            &&& t.directories.contains_key((#[trigger] plan.directories@[k]).id as int)
            &&& relative(t.directories[plan.directories@[k].id as int].path) == Some(
                plan.directories@[k].path@,
            )
            &&& plan.directories@[k].mode == t.directories[plan.directories@[k].id as int].mode
        }
    &&& created_links(plan.symbolic_links@).no_duplicates()
    &&& forall|l: int|
        created_links(plan.symbolic_links@).contains(l) <==>
            #[trigger] t.symbolic_links.contains_key(l)
            && passes(filter, t.symbolic_links[l].path)
    &&& forall|k: int|
        0 <= k < plan.symbolic_links@.len() ==> {
            &&& t.symbolic_links.contains_key((#[trigger] plan.symbolic_links@[k]).id as int)
            &&& relative(t.symbolic_links[plan.symbolic_links@[k].id as int].path) == Some(
                plan.symbolic_links@[k].path@,
            )
            &&& plan.symbolic_links@[k].target@
                == t.symbolic_links[plan.symbolic_links@[k].id as int].target
        }
    &&& fetched_archives(plan.archives@).no_duplicates()
    &&& forall|a: int|
        fetched_archives(plan.archives@).contains(a) <==> #[trigger] t.archives.contains_key(a)
            && archive_wanted(t, filter, a)
    &&& forall|k: int|
        0 <= k < plan.archives@.len() ==> archive_entry_ok(t, filter, #[trigger] plan.archives@[k])
}

/// Some file, directory or symbolic link that passes the filter has a path that does
/// not begin at the root.
pub open spec fn has_relative_path(t: Tables, filter: Option<Seq<u8>>) -> bool {
    ||| exists|f: int| #[trigger]
        t.files.contains_key(f) && passes(filter, t.files[f].path) && relative(t.files[f].path)
            is None
    ||| exists|d: int| #[trigger]
        t.directories.contains_key(d) && passes(filter, t.directories[d].path) && relative(
            t.directories[d].path,
        ) is None
    ||| exists|l: int| #[trigger]
        t.symbolic_links.contains_key(l) && passes(filter, t.symbolic_links[l].path) && relative(
            t.symbolic_links[l].path,
        ) is None
}

/// What is to be restored of the files that pass the filter.
fn plan_files(db: &Database, path_filter: Option<&[u8]>) -> (r: Option<Vec<FileToCreate>>)
    requires
        db.wf(),
    ensures
        r is None <==> exists|f: int| #[trigger]
            db@.tables.files.contains_key(f) && passes(
                filter_view(path_filter),
                db@.tables.files[f].path,
            ) && relative(db@.tables.files[f].path) is None,
        r matches Some(files) ==> {
            &&& created_files(files@).no_duplicates()
            &&& forall|f: int|
                created_files(files@).contains(f) <==> #[trigger] db@.tables.files.contains_key(f)
                    && passes(filter_view(path_filter), db@.tables.files[f].path)
            &&& forall|k: int|
                0 <= k < files@.len() ==> {
                    &&& db@.tables.files.contains_key((#[trigger] files@[k]).id as int)
                    &&& relative(db@.tables.files[files@[k].id as int].path)
                        == Some(files@[k].path@)
                    &&& files@[k].size == db@.tables.files[files@[k].id as int].size
                    &&& files@[k].mode == db@.tables.files[files@[k].id as int].mode
                }
        },
{
    let ids = select_files_by_path(db, path_filter);
    let mut out: Vec<FileToCreate> = Vec::new();
    let mut k: usize = 0;
    let ghost t = db@.tables;
    let ghost fv = filter_view(path_filter);
    while k < ids.len()
        invariant
            db.wf(),
            t == db@.tables,
            fv == filter_view(path_filter),
            k <= ids@.len(),
            out@.len() == k,
            id_seq(ids@).no_duplicates(),
            forall|id: int|
                id_seq(ids@).contains(id) <==>
                    #[trigger] t.files.contains_key(id) && passes(fv, t.files[id].path),
            forall|j: int|
                0 <= j < k ==> {
                    &&& (#[trigger] out@[j]).id == ids@[j]
                    &&& t.files.contains_key(ids@[j] as int)
                    &&& relative(t.files[ids@[j] as int].path) == Some(out@[j].path@)
                    &&& out@[j].size == t.files[ids@[j] as int].size
                    &&& out@[j].mode == t.files[ids@[j] as int].mode
                },
        decreases ids@.len() - k,
    {
        let id = ids[k];
        proof {
            assert(id_seq(ids@)[k as int] == id);
            assert(id_seq(ids@).contains(id as int));
            assert(t.files.contains_key(id as int));
        }
        match get_file(db, id) {
            Some(f) => match strip_root(f.path.as_slice()) {
                Some(path) => {
                    out.push(FileToCreate { id, path, size: f.size, mode: f.mode });
                },
                None => {
                    return None;
                },
            },
            None => {
                return None;
            },
        }
        k += 1;
    }
    proof {
        assert(created_files(out@) =~= id_seq(ids@));
        if exists|f: int| #[trigger]
            t.files.contains_key(f) && passes(fv, t.files[f].path) && relative(t.files[f].path)
                is None {
            let f = choose|f: int| #[trigger]
                t.files.contains_key(f) && passes(fv, t.files[f].path) && relative(
                    t.files[f].path,
                ) is None;
            let j = id_seq(ids@).index_of(f);
            assert(ids@[j] == f);
            assert(out@[j].id == ids@[j]);
        }
    }
    Some(out)
}

/// What is to be restored of the directories that pass the filter.
fn plan_directories(db: &Database, path_filter: Option<&[u8]>) -> (r: Option<
    Vec<DirectoryToCreate>,
>)
    requires
        db.wf(),
    ensures
        r is None <==> exists|d: int| #[trigger]
            db@.tables.directories.contains_key(d) && passes(
                filter_view(path_filter),
                db@.tables.directories[d].path,
            ) && relative(db@.tables.directories[d].path) is None,
        r matches Some(dirs) ==> {
            &&& created_directories(dirs@).no_duplicates()
            &&& forall|d: int|
                created_directories(dirs@).contains(d)
                    <==> #[trigger] db@.tables.directories.contains_key(d) && passes(
                    filter_view(path_filter),
                    db@.tables.directories[d].path,
                )
            &&& forall|k: int|
                0 <= k < dirs@.len() ==> {
                    &&& db@.tables.directories.contains_key((#[trigger] dirs@[k]).id as int)
                    &&& relative(db@.tables.directories[dirs@[k].id as int].path) == Some(
                        dirs@[k].path@,
                    )
                    &&& dirs@[k].mode == db@.tables.directories[dirs@[k].id as int].mode
                }
        },
{
    let ids = select_directories_by_path(db, path_filter);
    let mut out: Vec<DirectoryToCreate> = Vec::new();
    let mut k: usize = 0;
    let ghost t = db@.tables;
    let ghost fv = filter_view(path_filter);
    while k < ids.len()
        invariant
            db.wf(),
            t == db@.tables,
            fv == filter_view(path_filter),
            k <= ids@.len(),
            out@.len() == k,
            id_seq(ids@).no_duplicates(),
            forall|id: int|
                id_seq(ids@).contains(id) <==> #[trigger] t.directories.contains_key(id) && passes(
                    fv,
                    t.directories[id].path,
                ),
            forall|j: int|
                0 <= j < k ==> {
                    &&& (#[trigger] out@[j]).id == ids@[j]
                    &&& t.directories.contains_key(ids@[j] as int)
                    &&& relative(t.directories[ids@[j] as int].path) == Some(out@[j].path@)
                    &&& out@[j].mode == t.directories[ids@[j] as int].mode
                },
        decreases ids@.len() - k,
    {
        let id = ids[k];
        proof {
            assert(id_seq(ids@)[k as int] == id);
            assert(id_seq(ids@).contains(id as int));
            assert(t.directories.contains_key(id as int));
        }
        match get_directory(db, id) {
            Some(d) => match strip_root(d.path.as_slice()) {
                Some(path) => {
                    out.push(DirectoryToCreate { id, path, mode: d.mode });
                },
                None => {
                    return None;
                },
            },
            None => {
                return None;
            },
        }
        k += 1;
    }
    proof {
        assert(created_directories(out@) =~= id_seq(ids@));
        if exists|d: int| #[trigger]
            t.directories.contains_key(d) && passes(fv, t.directories[d].path) && relative(
                t.directories[d].path,
            ) is None {
            let d = choose|d: int| #[trigger]
                t.directories.contains_key(d) && passes(fv, t.directories[d].path) && relative(
                    t.directories[d].path,
                ) is None;
            let j = id_seq(ids@).index_of(d);
            assert(ids@[j] == d);
            assert(out@[j].id == ids@[j]);
        }
    }
    Some(out)
}

/// What is to be restored of the symbolic links that pass the filter.
fn plan_links(db: &Database, path_filter: Option<&[u8]>) -> (r: Option<Vec<LinkToCreate>>)
    requires
        db.wf(),
    ensures
        r is None <==> exists|l: int| #[trigger]
            db@.tables.symbolic_links.contains_key(l) && passes(
                filter_view(path_filter),
                db@.tables.symbolic_links[l].path,
            ) && relative(db@.tables.symbolic_links[l].path) is None,
        r matches Some(links) ==> {
            &&& created_links(links@).no_duplicates()
            &&& forall|l: int|
                created_links(links@).contains(l)
                    <==> #[trigger] db@.tables.symbolic_links.contains_key(l) && passes(
                    filter_view(path_filter),
                    db@.tables.symbolic_links[l].path,
                )
            &&& forall|k: int|
                0 <= k < links@.len() ==> {
                    &&& db@.tables.symbolic_links.contains_key((#[trigger] links@[k]).id as int)
                    &&& relative(db@.tables.symbolic_links[links@[k].id as int].path) == Some(
                        links@[k].path@,
                    )
                    &&& links@[k].target@ == db@.tables.symbolic_links[links@[k].id as int].target
                }
        },
{
    let ids = select_symbolic_links_by_path(db, path_filter);
    let mut out: Vec<LinkToCreate> = Vec::new();
    let mut k: usize = 0;
    let ghost t = db@.tables;
    let ghost fv = filter_view(path_filter);
    while k < ids.len()
        invariant
            db.wf(),
            t == db@.tables,
            fv == filter_view(path_filter),
            k <= ids@.len(),
            out@.len() == k,
            id_seq(ids@).no_duplicates(),
            forall|id: int|
                id_seq(ids@).contains(id) <==> #[trigger] t.symbolic_links.contains_key(id)
                    && passes(fv, t.symbolic_links[id].path),
            forall|j: int|
                0 <= j < k ==> {
                    &&& (#[trigger] out@[j]).id == ids@[j]
                    &&& t.symbolic_links.contains_key(ids@[j] as int)
                    &&& relative(t.symbolic_links[ids@[j] as int].path) == Some(out@[j].path@)
                    &&& out@[j].target@ == t.symbolic_links[ids@[j] as int].target
                },
        decreases ids@.len() - k,
    {
        let id = ids[k];
        proof {
            assert(id_seq(ids@)[k as int] == id);
            assert(id_seq(ids@).contains(id as int));
            assert(t.symbolic_links.contains_key(id as int));
        }
        match get_symbolic_link(db, id) {
            Some(l) => match strip_root(l.path.as_slice()) {
                Some(path) => {
                    out.push(LinkToCreate { id, path, target: copy_bytes(l.target.as_slice()) });
                },
                None => {
                    return None;
                },
            },
            None => {
                return None;
            },
        }
        k += 1;
    }
    proof {
        assert(created_links(out@) =~= id_seq(ids@));
        if exists|l: int| #[trigger]
            t.symbolic_links.contains_key(l) && passes(fv, t.symbolic_links[l].path) && relative(
                t.symbolic_links[l].path,
            ) is None {
            let l = choose|l: int| #[trigger]
                t.symbolic_links.contains_key(l) && passes(fv, t.symbolic_links[l].path)
                    && relative(t.symbolic_links[l].path) is None;
            let j = id_seq(ids@).index_of(l);
            assert(ids@[j] == l);
            assert(out@[j].id == ids@[j]);
        }
    }
    Some(out)
}

/// What is to be taken from the archive with id `archive_id`. `None` if a file that
/// has blocks there has a path that does not begin at the root.
fn plan_archive(db: &Database, path_filter: Option<&[u8]>, archive_id: i64) -> (r: Option<
    ArchiveCopies,
>)
    requires
        db.wf(),
    ensures
        r matches Some(entry) ==> entry.archive_id == archive_id && archive_entry_ok(
            db@.tables,
            filter_view(path_filter),
            entry,
        ),
        r is None ==> exists|f: int| #[trigger]
            db@.tables.files.contains_key(f) && passes(
                filter_view(path_filter),
                db@.tables.files[f].path,
            ) && relative(db@.tables.files[f].path) is None,
{
    let ids = select_files_by_path_and_archive(db, path_filter, archive_id);
    let mut files: Vec<FileCopies> = Vec::new();
    let mut k: usize = 0;
    let ghost t = db@.tables;
    let ghost fv = filter_view(path_filter);
    while k < ids.len()
        invariant
            db.wf(),
            t == db@.tables,
            fv == filter_view(path_filter),
            k <= ids@.len(),
            files@.len() == k,
            id_seq(ids@).no_duplicates(),
            forall|id: int|
                id_seq(ids@).contains(id) <==>
                    #[trigger] t.files.contains_key(id) && passes(fv, t.files[id].path)
                    && names_archive(t, t.files[id].mappings, archive_id as int),
            forall|j: int|
                0 <= j < k ==> {
                    &&& (#[trigger] files@[j]).file_id == ids@[j]
                    &&& t.files.contains_key(ids@[j] as int)
                    &&& relative(t.files[ids@[j] as int].path) == Some(files@[j].path@)
                    &&& copies_of(t, ids@[j] as int, archive_id, files@[j].copies@)
                },
        decreases ids@.len() - k,
    {
        let id = ids[k];
        proof {
            assert(id_seq(ids@)[k as int] == id);
            assert(id_seq(ids@).contains(id as int));
            assert(t.files.contains_key(id as int));
        }
        let path = match get_file(db, id) {
            Some(f) => match strip_root(f.path.as_slice()) {
                Some(path) => path,
                None => {
                    return None;
                },
            },
            None => {
                return None;
            },
        };
        let copies = select_blocks_by_file(db, id, Some(archive_id));
        files.push(FileCopies { file_id: id, path, copies });
        k += 1;
    }
    proof {
        assert(written_files(files@) =~= id_seq(ids@));
    }
    Some(ArchiveCopies { archive_id, name: archive_name(archive_id), files })
}

impl Manifest {
    /// Plans the restore of the files, directories and symbolic links whose paths pass
    /// the filter.
    ///
    /// Every archive that holds a block of such a file is fetched once, and all that
    /// is needed from it is copied then. Refused if a path that passes the filter does
    /// not begin at the root.
    pub fn restore_files(&self, path_filter: Option<&[u8]>) -> (r: Result<RestorePlan, Error>)
        requires
            self.wf(),
        ensures
            r is Err <==> has_relative_path(self@.tables, filter_view(path_filter)),
            r matches Err(e) ==> e == Error::NotAbsolute,
            r matches Ok(plan) ==> plan_ok(self@.tables, filter_view(path_filter), plan),
    {
        let db = self.database();
        let ghost t = db@.tables;
        let ghost fv = filter_view(path_filter);
        let files = match plan_files(db, path_filter) {
            Some(files) => files,
            None => {
                return Err(Error::NotAbsolute);
            },
        };
        let directories = match plan_directories(db, path_filter) {
            Some(dirs) => dirs,
            None => {
                return Err(Error::NotAbsolute);
            },
        };
        let symbolic_links = match plan_links(db, path_filter) {
            Some(links) => links,
            None => {
                return Err(Error::NotAbsolute);
            },
        };
        let ids = select_archives_by_path(db, path_filter);
        let mut archives: Vec<ArchiveCopies> = Vec::new();
        let mut k: usize = 0;
        while k < ids.len()
            invariant
                db.wf(),
                t == db@.tables,
                fv == filter_view(path_filter),
                k <= ids@.len(),
                archives@.len() == k,
                !(exists|f: int| #[trigger]
                    t.files.contains_key(f) && passes(fv, t.files[f].path) && relative(
                        t.files[f].path,
                    ) is None),
                forall|j: int|
                    0 <= j < k ==> (#[trigger] archives@[j]).archive_id == ids@[j]
                        && archive_entry_ok(t, fv, archives@[j]),
            decreases ids@.len() - k,
        {
            match plan_archive(db, path_filter, ids[k]) {
                Some(entry) => {
                    archives.push(entry);
                },
                None => {
                    return Err(Error::NotAbsolute);
                },
            }
            k += 1;
        }
        proof {
            assert(fetched_archives(archives@) =~= id_seq(ids@));
        }
        Ok(RestorePlan { files, directories, archives, symbolic_links })
    }
}

/// What a listing tells of a file.
pub struct FileListing {
    pub id: i64,
    pub path: Vec<u8>,
    pub size: u64,
    /// In how many archives blocks of the file lie.
    pub archives: usize,
    /// How many blocks the file is made of.
    pub blocks: usize,
}

/// What a listing tells of a directory.
pub struct DirectoryListing {
    pub id: i64,
    pub path: Vec<u8>,
    /// How many files lie below the directory.
    pub files: usize,
}

/// What a listing tells of a symbolic link.
pub struct LinkListing {
    pub id: i64,
    pub path: Vec<u8>,
}

/// A listing of what the manifest holds.
pub struct Listing {
    pub files: Vec<FileListing>,
    pub directories: Vec<DirectoryListing>,
    pub symbolic_links: Vec<LinkListing>,
}

/// The pattern that the paths below a directory match: the path of the directory, a
/// separator unless it ends with one, and `*`.
pub open spec fn below(path: Seq<u8>) -> Seq<u8> {
    if path.len() > 0 && path.last() == SEPARATOR {
        path.push(STAR_BYTE)
    } else {
        path.push(SEPARATOR).push(STAR_BYTE)
    }
}

/// The pattern that the paths below a directory match.
pub fn below_pattern(path: &[u8]) -> (r: Vec<u8>)
    ensures
        r@ == below(path@),
{
    let mut r = copy_bytes(path);
    if !(path.len() > 0 && path[path.len() - 1] == SEPARATOR) {
        r.push(SEPARATOR);
    }
    r.push(STAR_BYTE);
    r
}

/// The ids of the listed files.
pub open spec fn listed_files(files: Seq<FileListing>) -> Seq<int> {
    Seq::new(files.len(), |i: int| files[i].id as int)
}

/// The ids of the listed directories.
pub open spec fn listed_directories(dirs: Seq<DirectoryListing>) -> Seq<int> {
    Seq::new(dirs.len(), |i: int| dirs[i].id as int)
}

/// The ids of the listed symbolic links.
pub open spec fn listed_links(links: Seq<LinkListing>) -> Seq<int> {
    Seq::new(links.len(), |i: int| links[i].id as int)
}

/// The listing shows what passes the filter.
pub open spec fn listing_ok(t: Tables, filter: Option<Seq<u8>>, listing: Listing) -> bool {
    &&& listed_files(listing.files@).no_duplicates()
    &&& forall|f: int|
        listed_files(listing.files@).contains(f) <==> #[trigger] t.files.contains_key(f) && passes(
            filter,
            t.files[f].path,
        )
    &&& forall|k: int|
        0 <= k < listing.files@.len() ==> {
            &&& t.files.contains_key((#[trigger] listing.files@[k]).id as int)
            &&& listing.files@[k].path@ == t.files[listing.files@[k].id as int].path
            &&& listing.files@[k].size == t.files[listing.files@[k].id as int].size
            &&& listing.files@[k].blocks == t.files[listing.files@[k].id as int].mappings.len()
            &&& listing.files@[k].archives == Set::new(
                |a: int|
                    t.archives.contains_key(a) && names_archive(
                        t,
                        t.files[listing.files@[k].id as int].mappings,
                        a,
                    ),
            ).len()
        }
    &&& listed_directories(listing.directories@).no_duplicates()
    &&& forall|d: int|
        listed_directories(listing.directories@).contains(d)
            <==> #[trigger] t.directories.contains_key(d) && passes(filter, t.directories[d].path)
    &&& forall|k: int|
        0 <= k < listing.directories@.len() ==> {
            &&& t.directories.contains_key((#[trigger] listing.directories@[k]).id as int)
            &&& listing.directories@[k].path@
                == t.directories[listing.directories@[k].id as int].path
            &&& listing.directories@[k].files == Set::new(
                |f: int|
                    t.files.contains_key(f) && glob_matches(
                        below(t.directories[listing.directories@[k].id as int].path),
                        t.files[f].path,
                    ),
            ).len()
        }
    &&& listed_links(listing.symbolic_links@).no_duplicates()
    &&& forall|l: int|
        listed_links(listing.symbolic_links@).contains(l)
            <==> #[trigger] t.symbolic_links.contains_key(l) && passes(
            filter,
            t.symbolic_links[l].path,
        )
    &&& forall|k: int|
        0 <= k < listing.symbolic_links@.len() ==> {
            &&& t.symbolic_links.contains_key((#[trigger] listing.symbolic_links@[k]).id as int)
            &&& listing.symbolic_links@[k].path@
                == t.symbolic_links[listing.symbolic_links@[k].id as int].path
        }
}

/// What a listing tells of the files that pass the filter.
fn list_some_files(db: &Database, path_filter: Option<&[u8]>) -> (files: Vec<FileListing>)
    requires
        db.wf(),
    ensures
        listed_files(files@).no_duplicates(),
        forall|f: int|
            listed_files(files@).contains(f) <==> #[trigger] db@.tables.files.contains_key(f)
                && passes(filter_view(path_filter), db@.tables.files[f].path),
        forall|k: int|
            0 <= k < files@.len() ==> {
                &&& db@.tables.files.contains_key((#[trigger] files@[k]).id as int)
                &&& files@[k].path@ == db@.tables.files[files@[k].id as int].path
                &&& files@[k].size == db@.tables.files[files@[k].id as int].size
                &&& files@[k].blocks == db@.tables.files[files@[k].id as int].mappings.len()
                &&& files@[k].archives == Set::new(
                    |a: int|
                        db@.tables.archives.contains_key(a) && names_archive(
                            db@.tables,
                            db@.tables.files[files@[k].id as int].mappings,
                            a,
                        ),
                ).len()
            },
{
    let ghost t = db@.tables;
    let file_ids = select_files_by_path(db, path_filter);
    let mut files: Vec<FileListing> = Vec::new();
    let mut k: usize = 0;
    while k < file_ids.len()
        invariant
            db.wf(),
            t == db@.tables,
            k <= file_ids@.len(),
            files@.len() == k,
            forall|id: int| id_seq(file_ids@).contains(id) ==> #[trigger] t.files.contains_key(id),
            forall|j: int|
                0 <= j < k ==> {
                    &&& (#[trigger] files@[j]).id == file_ids@[j]
                    &&& t.files.contains_key(file_ids@[j] as int)
                    &&& files@[j].path@ == t.files[file_ids@[j] as int].path
                    &&& files@[j].size == t.files[file_ids@[j] as int].size
                    &&& files@[j].blocks == t.files[file_ids@[j] as int].mappings.len()
                    &&& files@[j].archives == Set::new(
                        |a: int|
                            t.archives.contains_key(a) && names_archive(
                                t,
                                t.files[file_ids@[j] as int].mappings,
                                a,
                            ),
                    ).len()
                },
        decreases file_ids@.len() - k,
    {
        let id = file_ids[k];
        proof {
            assert(id_seq(file_ids@)[k as int] == id);
            assert(id_seq(file_ids@).contains(id as int));
            assert(t.files.contains_key(id as int));
        }
        let archives = select_archives_by_file(db, id);
        proof {
            let ids = id_seq(archives@);
            let want = Set::new(
                |a: int|
                    t.archives.contains_key(a) && names_archive(t, t.files[id as int].mappings, a),
            );
            assert forall|a: int| ids.to_set().contains(a) <==> want.contains(a) by {
                if ids.contains(a) {
                    assert(t.archives.contains_key(a));
                }
                if want.contains(a) {
                    assert(t.archives.contains_key(a));
                }
            }
            assert(ids.to_set() =~= want);
            ids.unique_seq_to_set();
        }
        match get_file(db, id) {
            Some(f) => {
                files.push(
                    FileListing {
                        id,
                        path: copy_bytes(f.path.as_slice()),
                        size: f.size,
                        archives: archives.len(),
                        blocks: f.mappings.len(),
                    },
                );
            },
            None => {
                files.push(FileListing { id, path: Vec::new(), size: 0, archives: 0, blocks: 0 });
            },
        }
        k += 1;
    }
    proof {
        assert(listed_files(files@) =~= id_seq(file_ids@));
    }
    files
}

/// What a listing tells of the directories that pass the filter.
fn list_some_directories(db: &Database, path_filter: Option<&[u8]>) -> (dirs: Vec<
    DirectoryListing,
>)
    requires
        db.wf(),
    ensures
        listed_directories(dirs@).no_duplicates(),
        forall|d: int|
            listed_directories(dirs@).contains(d) <==>
                #[trigger] db@.tables.directories.contains_key(d)
                && passes(filter_view(path_filter), db@.tables.directories[d].path),
        forall|k: int|
            0 <= k < dirs@.len() ==> {
                &&& db@.tables.directories.contains_key((#[trigger] dirs@[k]).id as int)
                &&& dirs@[k].path@ == db@.tables.directories[dirs@[k].id as int].path
                &&& dirs@[k].files == Set::new(
                    |f: int|
                        db@.tables.files.contains_key(f) && glob_matches(
                            below(db@.tables.directories[dirs@[k].id as int].path),
                            db@.tables.files[f].path,
                        ),
                ).len()
            },
{
    let ghost t = db@.tables;
    let dir_ids = select_directories_by_path(db, path_filter);
    let mut directories: Vec<DirectoryListing> = Vec::new();
    let mut k: usize = 0;
    while k < dir_ids.len()
        invariant
            db.wf(),
            t == db@.tables,
            k <= dir_ids@.len(),
            directories@.len() == k,
            forall|id: int| id_seq(dir_ids@).contains(id) ==>
                #[trigger] t.directories.contains_key(id),
            forall|j: int|
                0 <= j < k ==> {
                    &&& (#[trigger] directories@[j]).id == dir_ids@[j]
                    &&& t.directories.contains_key(dir_ids@[j] as int)
                    &&& directories@[j].path@ == t.directories[dir_ids@[j] as int].path
                    &&& directories@[j].files == Set::new(
                        |f: int|
                            t.files.contains_key(f) && glob_matches(
                                below(t.directories[dir_ids@[j] as int].path),
                                t.files[f].path,
                            ),
                    ).len()
                },
        decreases dir_ids@.len() - k,
    {
        let id = dir_ids[k];
        proof {
            assert(id_seq(dir_ids@)[k as int] == id);
            assert(id_seq(dir_ids@).contains(id as int));
            assert(t.directories.contains_key(id as int));
        }
        match get_directory(db, id) {
            Some(d) => {
                let pattern = below_pattern(d.path.as_slice());
                let inside = select_files_by_path(db, Some(pattern.as_slice()));
                proof {
                    let ids = id_seq(inside@);
                    let want = Set::new(
                        |f: int|
                            t.files.contains_key(f) && glob_matches(
                                below(t.directories[id as int].path),
                                t.files[f].path,
                            ),
                    );
                    assert(pattern@ == below(t.directories[id as int].path));
                    assert forall|f: int| ids.to_set().contains(f) <==> want.contains(f) by {
                        if ids.contains(f) {
                            assert(t.files.contains_key(f));
                        }
                        if want.contains(f) {
                            assert(t.files.contains_key(f));
                        }
                    }
                    assert(ids.to_set() =~= want);
                    ids.unique_seq_to_set();
                }
                directories.push(
                    DirectoryListing { id, path: copy_bytes(d.path.as_slice()),
                        files: inside.len() },
                );
            },
            None => {
                directories.push(DirectoryListing { id, path: Vec::new(), files: 0 });
            },
        }
        k += 1;
    }
    proof {
        assert(listed_directories(directories@) =~= id_seq(dir_ids@));
    }
    directories
}

/// What a listing tells of the symbolic links that pass the filter.
fn list_some_links(db: &Database, path_filter: Option<&[u8]>) -> (links: Vec<LinkListing>)
    requires
        db.wf(),
    ensures
        listed_links(links@).no_duplicates(),
        forall|l: int|
            listed_links(links@).contains(l) <==>
                #[trigger] db@.tables.symbolic_links.contains_key(l)
                && passes(filter_view(path_filter), db@.tables.symbolic_links[l].path),
        forall|k: int|
            0 <= k < links@.len() ==> {
                &&& db@.tables.symbolic_links.contains_key((#[trigger] links@[k]).id as int)
                &&& links@[k].path@ == db@.tables.symbolic_links[links@[k].id as int].path
            },
{
    let ghost t = db@.tables;
    let link_ids = select_symbolic_links_by_path(db, path_filter);
    let mut symbolic_links: Vec<LinkListing> = Vec::new();
    let mut k: usize = 0;
    while k < link_ids.len()
        invariant
            db.wf(),
            t == db@.tables,
            k <= link_ids@.len(),
            symbolic_links@.len() == k,
            forall|id: int| id_seq(link_ids@).contains(id) ==>
                #[trigger] t.symbolic_links.contains_key(id),
            forall|j: int|
                0 <= j < k ==> (#[trigger] symbolic_links@[j]).id == link_ids@[j]
                    && t.symbolic_links.contains_key(link_ids@[j] as int)
                    && symbolic_links@[j].path@ == t.symbolic_links[link_ids@[j] as int].path,
        decreases link_ids@.len() - k,
    {
        let id = link_ids[k];
        proof {
            assert(id_seq(link_ids@)[k as int] == id);
            assert(id_seq(link_ids@).contains(id as int));
            assert(t.symbolic_links.contains_key(id as int));
        }
        match get_symbolic_link(db, id) {
            Some(l) => {
                symbolic_links.push(LinkListing { id, path: copy_bytes(l.path.as_slice()) });
            },
            None => {
                symbolic_links.push(LinkListing { id, path: Vec::new() });
            },
        }
        k += 1;
    }
    proof {
        assert(listed_links(symbolic_links@) =~= id_seq(link_ids@));
    }
    symbolic_links
}

impl Manifest {
    /// Lists the files, directories and symbolic links whose paths pass the filter:
    /// of a file its size, the number of its blocks and of the archives they lie in;
    /// of a directory the number of files below it.
    pub fn list_files(&self, path_filter: Option<&[u8]>) -> (listing: Listing)
        requires
            self.wf(),
        ensures
            listing_ok(self@.tables, filter_view(path_filter), listing),
    {
        let db = self.database();
        let files = list_some_files(db, path_filter);
        let directories = list_some_directories(db, path_filter);
        let symbolic_links = list_some_links(db, path_filter);
        Listing { files, directories, symbolic_links }
    }
}

/// A blob as the remote store lists it.
pub struct Blob {
    pub name: Vec<u8>,
    /// The id that the remote store gave the blob.
    pub file_id: Vec<u8>,
    pub length: u64,
}

/// The id in the name of every blob, as far as the names hold one.
pub open spec fn blob_ids(blobs: Seq<Blob>, prefix: Seq<u8>) -> Seq<Option<i64>> {
    Seq::new(blobs.len(), |i: int| name_id(blobs[i].name@, prefix))
}

/// The positions pick out, in rising order, the blobs whose ids are not among `known`.
pub open spec fn picks_unknown(ids: Seq<Option<i64>>, known: Set<int>, picked: Seq<usize>) -> bool {
    &&& forall|k: int| 0 <= k < picked.len() ==> (#[trigger] picked[k]) < ids.len()
    &&& forall|i: int, j: int| 0 <= i < j < picked.len() ==> picked[i] < picked[j]
    &&& forall|p: int|
        0 <= p < ids.len() ==> (crate::sort::lists(picked, p) <==>
            ids[p] is Some && !known.contains(
            (#[trigger] ids[p]).unwrap() as int,
        ))
}

/// The blobs that a purge removes, as positions in the two lists of blobs.
pub struct Purge {
    pub patchsets: Vec<usize>,
    pub archives: Vec<usize>,
}

/// The ids in the names of the blobs. `None` if a name holds no id.
fn parse_blobs(blobs: &Vec<Blob>, prefix: &[u8]) -> (r: Option<Vec<i64>>)
    ensures
        r is None <==> exists|i: int| 0 <= i < blobs@.len()
            && (#[trigger] blob_ids(blobs@, prefix@)[i]) is None,
        r matches Some(ids) ==> ids@.len() == blobs@.len() && forall|i: int|
            0 <= i < ids@.len() ==> blob_ids(blobs@, prefix@)[i] == Some(#[trigger] ids@[i]),
{
    let mut ids: Vec<i64> = Vec::new();
    let mut i: usize = 0;
    while i < blobs.len()
        invariant
            i <= blobs@.len(),
            ids@.len() == i,
            forall|j: int| 0 <= j < i ==> blob_ids(blobs@, prefix@)[j] == Some(#[trigger] ids@[j]),
        decreases blobs@.len() - i,
    {
        match parse_name(blobs[i].name.as_slice(), prefix) {
            Some(id) => {
                ids.push(id);
            },
            None => {
                assert(blob_ids(blobs@, prefix@)[i as int] is None);
                return None;
            },
        }
        i += 1;
    }
    proof {
        if exists|i: int| 0 <= i < blobs@.len()
            && (#[trigger] blob_ids(blobs@, prefix@)[i]) is None {
            let i = choose|i: int| 0 <= i < blobs@.len()
                && (#[trigger] blob_ids(blobs@, prefix@)[i]) is None;
            assert(blob_ids(blobs@, prefix@)[i] == Some(ids@[i]));
        }
    }
    Some(ids)
}

impl Manifest {
    /// The blobs on the remote store that the manifest does not know: patchsets and
    /// archives whose ids no row has. Refused if the name of a blob holds no id.
    pub fn purge_storage(&self, patchset_blobs: &Vec<Blob>, archive_blobs: &Vec<Blob>) -> (r:
        Result<Purge, Error>)
        requires
            self.wf(),
        ensures
            r is Err <==> (exists|i: int|
                0 <= i < patchset_blobs@.len() && (#[trigger] blob_ids(
                    patchset_blobs@,
                    manifest_prefix(),
                )[i]) is None) || (exists|i: int|
                0 <= i < archive_blobs@.len() && (#[trigger] blob_ids(
                    archive_blobs@,
                    archive_prefix(),
                )[i]) is None),
            r matches Err(e) ==> e == Error::BadName,
            r matches Ok(purge) ==> picks_unknown(
                blob_ids(patchset_blobs@, manifest_prefix()),
                self@.patchsets.dom(),
                purge.patchsets@,
            ) && picks_unknown(
                blob_ids(archive_blobs@, archive_prefix()),
                self@.tables.archives.dom(),
                purge.archives@,
            ),
    {
        let db = self.database();
        let mp = manifest_prefix_bytes();
        let ap = archive_prefix_bytes();
        let patchset_ids = match parse_blobs(patchset_blobs, mp.as_slice()) {
            Some(ids) => ids,
            None => {
                return Err(Error::BadName);
            },
        };
        let archive_ids = match parse_blobs(archive_blobs, ap.as_slice()) {
            Some(ids) => ids,
            None => {
                return Err(Error::BadName);
            },
        };
        let ghost pids = blob_ids(patchset_blobs@, manifest_prefix());
        let ghost aids = blob_ids(archive_blobs@, archive_prefix());
        let mut patchsets: Vec<usize> = Vec::new();
        let mut i: usize = 0;
        while i < patchset_ids.len()
            invariant
                db.wf(),
                db@ == self@,
                i <= patchset_ids@.len(),
                patchset_ids@.len() == pids.len(),
                forall|j: int| 0 <= j < pids.len() ==> pids[j] == Some(#[trigger] patchset_ids@[j]),
                forall|k: int| 0 <= k < patchsets@.len() ==> (#[trigger] patchsets@[k]) < i,
                forall|a: int, b: int| 0 <= a < b < patchsets@.len() ==>
                    patchsets@[a] < patchsets@[b],
                forall|p: int|
                    0 <= p < i ==> (crate::sort::lists(patchsets@, p) <==>
                        !self@.patchsets.dom().contains(
                        (#[trigger] pids[p]).unwrap() as int,
                    )),
            decreases patchset_ids@.len() - i,
        {
            let known = select_patchset(db, patchset_ids[i]);
            let ghost before = patchsets@;
            if !known {
                patchsets.push(i);
            }
            proof {
                let now = patchsets@;
                assert forall|p: int| 0 <= p < i + 1 implies (crate::sort::lists(now, p) <==>
                    !self@.patchsets.dom().contains(
                    (#[trigger] pids[p]).unwrap() as int,
                )) by {
                    assert(pids[p] == Some(patchset_ids@[p]));
                    if crate::sort::lists(before, p) {
                        let k = choose|k: int| 0 <= k < before.len() && #[trigger] before[k] == p;
                        assert(now[k] == p);
                    }
                    if crate::sort::lists(now, p) {
                        let k = choose|k: int| 0 <= k < now.len() && #[trigger] now[k] == p;
                        if k < before.len() {
                            assert(before[k] == p);
                        }
                    }
                    if p == i && !known {
                        assert(now[now.len() - 1] == p);
                    }
                }
            }
            i += 1;
        }
        let mut archives: Vec<usize> = Vec::new();
        let mut i: usize = 0;
        while i < archive_ids.len()
            invariant
                db.wf(),
                db@ == self@,
                i <= archive_ids@.len(),
                archive_ids@.len() == aids.len(),
                forall|j: int| 0 <= j < aids.len() ==> aids[j] == Some(#[trigger] archive_ids@[j]),
                forall|k: int| 0 <= k < archives@.len() ==> (#[trigger] archives@[k]) < i,
                forall|a: int, b: int| 0 <= a < b < archives@.len() ==> archives@[a] < archives@[b],
                forall|p: int|
                    0 <= p < i ==> (crate::sort::lists(archives@, p) <==>
                        !self@.tables.archives.dom().contains(
                        (#[trigger] aids[p]).unwrap() as int,
                    )),
            decreases archive_ids@.len() - i,
        {
            let known = select_archive(db, archive_ids[i]);
            let ghost before = archives@;
            if !known {
                archives.push(i);
            }
            proof {
                let now = archives@;
                assert forall|p: int| 0 <= p < i + 1 implies (crate::sort::lists(now, p) <==>
                    !self@.tables.archives.dom().contains(
                    (#[trigger] aids[p]).unwrap() as int,
                )) by {
                    assert(aids[p] == Some(archive_ids@[p]));
                    if crate::sort::lists(before, p) {
                        let k = choose|k: int| 0 <= k < before.len() && #[trigger] before[k] == p;
                        assert(now[k] == p);
                    }
                    if crate::sort::lists(now, p) {
                        let k = choose|k: int| 0 <= k < now.len() && #[trigger] now[k] == p;
                        if k < before.len() {
                            assert(before[k] == p);
                        }
                    }
                    if p == i && !known {
                        assert(now[now.len() - 1] == p);
                    }
                }
            }
            i += 1;
        }
        proof {
            assert forall|p: int| 0 <= p < pids.len() implies (crate::sort::lists(patchsets@,
                p) <==> pids[p] is Some && !self@.patchsets.dom().contains(
                (#[trigger] pids[p]).unwrap() as int,
            )) by {
                assert(pids[p] == Some(patchset_ids@[p]));
            }
            assert forall|p: int| 0 <= p < aids.len() implies (crate::sort::lists(archives@,
                p) <==> aids[p] is Some && !self@.tables.archives.dom().contains(
                (#[trigger] aids[p]).unwrap() as int,
            )) by {
                assert(aids[p] == Some(archive_ids@[p]));
            }
        }
        Ok(Purge { patchsets, archives })
    }
}

/// The order in which patchsets are applied: by rising id, each id once. Of blobs
/// with the same id the one listed last is taken.
pub open spec fn is_patchset_order(ids: Seq<Option<i64>>, order: Seq<(i64, usize)>) -> bool {
    &&& forall|i: int, j: int| 0 <= i < j < order.len() ==> order[i].0 < order[j].0
    &&& forall|k: int|
        0 <= k < order.len() ==> {
            &&& (#[trigger] order[k]).1 < ids.len()
            &&& ids[order[k].1 as int] == Some(order[k].0)
            &&& forall|j: int| order[k].1 < j < ids.len() ==> #[trigger] ids[j] != Some(order[k].0)
        }
    &&& forall|p: int| 0 <= p < ids.len() ==> has_id(order, #[trigger] ids[p])
}

/// One of `order` has the id `id`.
pub open spec fn has_id(order: Seq<(i64, usize)>, id: Option<i64>) -> bool {
    exists|k: int| 0 <= k < order.len() && Some((#[trigger] order[k]).0) == id
}

/// The order in which the listed patchsets are applied when the manifest is rebuilt:
/// by rising id. Each entry holds the id and the position of the blob in the list.
/// Refused if the name of a blob holds no id.
pub fn order_patchsets(blobs: &Vec<Blob>) -> (r: Result<Vec<(i64, usize)>, Error>)
    ensures
        r is Err <==> exists|i: int| 0 <= i < blobs@.len()
            && (#[trigger] blob_ids(blobs@, manifest_prefix())[i]) is None,
        r matches Err(e) ==> e == Error::BadName,
        r matches Ok(order) ==> is_patchset_order(blob_ids(blobs@, manifest_prefix()), order@),
{
    let mp = manifest_prefix_bytes();
    let ids = match parse_blobs(blobs, mp.as_slice()) {
        Some(ids) => ids,
        None => {
            return Err(Error::BadName);
        },
    };
    let ghost want = blob_ids(blobs@, manifest_prefix());
    let n = ids.len();
    let mut ranks: Vec<Rank> = Vec::new();
    let mut i: usize = 0;
    while i < n
        invariant
            i <= n,
            n == ids@.len(),
            ranks@.len() == i,
            forall|j: int| 0 <= j < i ==>
                ranks@[j] == (Rank { a: ids@[j] as i128, b: j as i128, c: 0 }),
        decreases n - i,
    {
        ranks.push(Rank { a: ids[i] as i128, b: i as i128, c: 0 });
        i += 1;
    }
    let sorted = sorted_order(&ranks);
    let mut out: Vec<(i64, usize)> = Vec::new();
    let mut k: usize = 0;
    while k < n
        invariant
            k <= n,
            n == ids@.len(),
            n == want.len(),
            ranks@.len() == n,
            forall|j: int| 0 <= j < n ==> want[j] == Some(#[trigger] ids@[j]),
            forall|j: int| 0 <= j < n ==>
                ranks@[j] == (Rank { a: ids@[j] as i128, b: j as i128, c: 0 }),
            is_sorted_order(ranks@, sorted@),
            forall|a: int, b: int| 0 <= a < b < out@.len() ==> out@[a].0 < out@[b].0,
            k < n && out@.len() > 0 ==> out@[out@.len() - 1].0 < ids@[sorted@[k as int] as int],
            forall|m: int|
                0 <= m < out@.len() ==> {
                    &&& (#[trigger] out@[m]).1 < n
                    &&& ids@[out@[m].1 as int] == out@[m].0
                    &&& forall|j: int| out@[m].1 < j < n ==> #[trigger] ids@[j] != out@[m].0
                },
            forall|p: int|
                0 <= p < k ==> has_id(out@, Some(#[trigger] ids@[sorted@[p] as int])) || (k < n
                    && ids@[sorted@[p] as int] == ids@[sorted@[k as int] as int]),
        decreases n - k,
    {
        let at = sorted[k];
        let id = ids[at];
        let keep = if k + 1 == n {
            true
        } else {
            ids[sorted[k + 1]] != id
        };
        let ghost before = out@;
        proof {
            if k + 1 < n {
                assert(rank_le(ranks@[sorted@[k as int] as int], ranks@[sorted@[k + 1] as int]));
            }
        }
        if keep {
            out.push((id, at));
            proof {
                let now = out@;
                assert(now[now.len() - 1] == (id, at));
                assert forall|j: int| at < j < n implies #[trigger] ids@[j] != id by {
                    if ids@[j] == id {
                        assert(lists(sorted@, j));
                        let q = choose|q: int| 0 <= q < sorted@.len() && #[trigger] sorted@[q] == j;
                        if q < k {
                            assert(rank_le(ranks@[sorted@[q] as int],
                                ranks@[sorted@[k as int] as int]));
                        } else if q > k {
                            assert(rank_le(ranks@[sorted@[k
                                + 1] as int], ranks@[sorted@[q] as int]) || q == k + 1);
                        }
                    }
                }
                assert forall|m: int| 0 <= m < now.len() implies {
                    &&& (#[trigger] now[m]).1 < n
                    &&& ids@[now[m].1 as int] == now[m].0
                    &&& forall|j: int| now[m].1 < j < n ==> #[trigger] ids@[j] != now[m].0
                } by {
                    if m < before.len() {
                        assert(now[m] == before[m]);
                    }
                }
                assert forall|a: int,
                    b: int| 0 <= a < b < now.len() implies now[a].0 < now[b].0 by {
                    if b < before.len() {
                        assert(now[a] == before[a] && now[b] == before[b]);
                    } else {
                        assert(now[a] == before[a]);
                        if a < before.len() - 1 {
                            assert(before[a].0 < before[before.len() - 1].0);
                        }
                    }
                }
                assert forall|p: int| 0 <= p < k
                    + 1 implies has_id(now, Some(#[trigger] ids@[sorted@[p] as int])) || (k + 1 < n
                    && ids@[sorted@[p] as int] == ids@[sorted@[k + 1] as int]) by {
                    let v = ids@[sorted@[p] as int];
                    if p < k && has_id(before, Some(v)) {
                        let m = choose|m: int| 0 <= m < before.len()
                            && Some((#[trigger] before[m]).0) == Some(v);
                        assert(now[m] == before[m]);
                    } else {
                        assert(v == id);
                        assert(Some(now[now.len() - 1].0) == Some(v));
                    }
                }
            }
        } else {
            proof {
                assert forall|p: int| 0 <= p < k
                    + 1 implies has_id(out@, Some(#[trigger] ids@[sorted@[p] as int])) || (k + 1 < n
                    && ids@[sorted@[p] as int] == ids@[sorted@[k + 1] as int]) by {}
            }
        }
        k += 1;
    }
    proof {
        assert forall|k: int| 0 <= k < out@.len() implies {
            &&& (#[trigger] out@[k]).1 < want.len()
            &&& want[out@[k].1 as int] == Some(out@[k].0)
            &&& forall|j: int| out@[k].1 < j < want.len() ==> #[trigger] want[j] != Some(out@[k].0)
        } by {
            assert forall|j: int| out@[k].1 < j < want.len() implies #[trigger] want[j] != Some(out@[k].0) by {
                assert(want[j] == Some(ids@[j]));
                assert(ids@[j] != out@[k].0);
            }
        }
        assert forall|p: int| 0 <= p < want.len() implies has_id(out@, #[trigger] want[p]) by {
            assert(lists(sorted@, p));
            let q = choose|q: int| 0 <= q < sorted@.len() && #[trigger] sorted@[q] == p;
            assert(has_id(out@, Some(ids@[sorted@[q] as int])));
            assert(want[p] == Some(ids@[p]));
        }
    }
    Ok(out)
}

/// The plan holds a copy for the mapping: some archive of the plan is the one in which
/// the block of the mapping lies, and under it the file is listed with the place of
/// the block.
pub open spec fn copies_mapping(t: Tables, plan: RestorePlan, f: int, i: int) -> bool {
    exists|a: int, k: int|
        0 <= a < plan.archives@.len() && 0 <= k < plan.archives@[a].files@.len()
            && plan.archives@[a].archive_id
                == t.blocks[t.files[f].mappings[i].block_id as int].archive_id
            && #[trigger] plan.archives@[a].files@[k].file_id == f
            && plan.archives@[a].files@[k].copies@.contains(placement_of(t, t.files[f].mappings[i]))
}

/// A restore copies every block of every file that passes the filter: for each
/// mapping of such a file the plan fetches the archive of its block and copies the
/// block from its place there to its place in the file. No archive is fetched twice,
/// as the plan lists each archive once.
pub proof fn lemma_plan_covers(t: Tables, filter: Option<Seq<u8>>, plan: RestorePlan, f: int,
    i: int)
    requires
        tables_wf(t),
        plan_ok(t, filter, plan),
        t.files.contains_key(f),
        passes(filter, t.files[f].path),
        0 <= i < t.files[f].mappings.len(),
    ensures
        copies_mapping(t, plan, f, i),
        fetched_archives(plan.archives@).no_duplicates(),
{
    let ms = t.files[f].mappings;
    let b = ms[i].block_id as int;
    assert(crate::tables::blocks_exist(t, ms));
    assert(t.blocks.contains_key(b));
    let archive = t.blocks[b].archive_id;
    assert(t.archives.contains_key(archive));
    assert(names_archive(t, ms, archive));
    assert(archive_wanted(t, filter, archive));
    let ids = fetched_archives(plan.archives@);
    assert(ids.contains(archive));
    let a = ids.index_of(archive);
    let entry = plan.archives@[a];
    assert(entry.archive_id == archive);
    assert(archive_entry_ok(t, filter, entry));
    let files = written_files(entry.files@);
    assert(files.contains(f));
    let k = files.index_of(f);
    assert(entry.files@[k].file_id == f);
    let p = placement_of(t, ms[i]);
    assert(copies_of(t, f, entry.archive_id, entry.files@[k].copies@));
    assert(placed(t, ms, Some(entry.archive_id), p));
    assert(entry.files@[k].copies@.contains(p));
}

} // verus!
