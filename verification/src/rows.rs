//! The rows of the manifest, and what each of them stands for.

use crate::bytes::{bytes_equal, copy_bytes};
use crate::table::Row;
use vstd::prelude::*;

verus! {

/// A byte string that may be absent, as a plain value.
pub open spec fn opt_bytes(v: Option<Vec<u8>>) -> Option<Seq<u8>> {
    match v {
        Some(b) => Some(b@),
        None => None,
    }
}

/// A copy of a byte string that may be absent.
pub fn copy_opt_bytes(v: &Option<Vec<u8>>) -> (r: Option<Vec<u8>>)
    ensures
        opt_bytes(r) == opt_bytes(*v),
{
    match v {
        Some(b) => Some(copy_bytes(b.as_slice())),
        None => None,
    }
}

/// Whether two byte strings that may be absent are the same.
pub fn same_opt_bytes(a: &Option<Vec<u8>>, b: &Option<Vec<u8>>) -> (r: bool)
    ensures
        r == (opt_bytes(*a) == opt_bytes(*b)),
{
    match (a, b) {
        (Some(x), Some(y)) => bytes_equal(x.as_slice(), y.as_slice()),
        (None, None) => true,
        _ => false,
    }
}

/// Whether two numbers that may be absent are the same.
pub fn same_opt_u64(a: Option<u64>, b: Option<u64>) -> (r: bool)
    ensures
        r == (a == b),
{
    match (a, b) {
        (Some(x), Some(y)) => x == y,
        (None, None) => true,
        _ => false,
    }
}

/// One uploaded change-set of the manifest.
pub struct Patchset {
    pub id: i64,
    /// Id that the remote store gave the blob; absent until it is uploaded.
    pub blob_file_id: Option<Vec<u8>>,
    /// Length of the blob; absent until it is uploaded.
    pub blob_length: Option<u64>,
}

pub struct PatchsetView {
    pub id: int,
    pub blob_file_id: Option<Seq<u8>>,
    pub blob_length: Option<u64>,
}

impl View for Patchset {
    type V = PatchsetView;

    open spec fn view(&self) -> PatchsetView {
        PatchsetView {
            id: self.id as int,
            blob_file_id: opt_bytes(self.blob_file_id),
            blob_length: self.blob_length,
        }
    }
}

impl Row for Patchset {
    open spec fn id_of(v: PatchsetView) -> int {
        v.id
    }

    fn id(&self) -> i64 {
        self.id
    }
}

/// A pack of blocks that is stored as one remote blob.
pub struct Archive {
    pub id: i64,
    /// Sum of the lengths of the blocks in it; absent until it is uploaded.
    pub length: Option<u64>,
    /// Id that the remote store gave the blob; absent until it is uploaded.
    pub blob_file_id: Option<Vec<u8>>,
    /// Length of the blob; absent until it is uploaded.
    pub blob_length: Option<u64>,
}

pub struct ArchiveView {
    pub id: int,
    pub length: Option<u64>,
    pub blob_file_id: Option<Seq<u8>>,
    pub blob_length: Option<u64>,
}

impl View for Archive {
    type V = ArchiveView;

    open spec fn view(&self) -> ArchiveView {
        ArchiveView {
            id: self.id as int,
            length: self.length,
            blob_file_id: opt_bytes(self.blob_file_id),
            blob_length: self.blob_length,
        }
    }
}

impl Row for Archive {
    open spec fn id_of(v: ArchiveView) -> int {
        v.id
    }

    fn id(&self) -> i64 {
        self.id
    }
}

impl Archive {
    /// Whether two rows hold the same.
    pub fn same(&self, other: &Archive) -> (r: bool)
        ensures
            r == (self@ == other@),
    {
        self.id == other.id && same_opt_u64(self.length, other.length) && same_opt_bytes(
            &self.blob_file_id,
            &other.blob_file_id,
        ) && same_opt_u64(self.blob_length, other.blob_length)
    }

    pub fn copy(&self) -> (r: Archive)
        ensures
            r@ == self@,
    {
        Archive {
            id: self.id,
            length: self.length,
            blob_file_id: copy_opt_bytes(&self.blob_file_id),
            blob_length: self.blob_length,
        }
    }
}

/// Places a block at an offset of a file.
#[derive(Clone, Copy, Debug, PartialEq, Eq, Structural)]
pub struct Mapping {
    pub offset: u64,
    pub block_id: i64,
}

/// Whether two lists hold the same mappings in the same order.
pub fn same_mappings(a: &Vec<Mapping>, b: &Vec<Mapping>) -> (r: bool)
    ensures
        r == (a@ == b@),
{
    if a.len() != b.len() {
        return false;
    }
    let mut i: usize = 0;
    while i < a.len()
        invariant
            a@.len() == b@.len(),
            i <= a@.len(),
            forall|j: int| 0 <= j < i ==> a@[j] == b@[j],
        decreases a@.len() - i,
    {
        if a[i].offset != b[i].offset || a[i].block_id != b[i].block_id {
            return false;
        }
        i += 1;
    }
    assert(a@ =~= b@);
    true
}

/// A fresh vector with the same mappings.
pub fn copy_mappings(src: &Vec<Mapping>) -> (r: Vec<Mapping>)
    ensures
        r@ == src@,
{
    let mut out: Vec<Mapping> = Vec::new();
    let mut i: usize = 0;
    while i < src.len()
        invariant
            i <= src@.len(),
            out@ == src@.take(i as int),
        decreases src@.len() - i,
    {
        out.push(src[i]);
        assert(src@.take(i + 1) =~= src@.take(i as int).push(src@[i as int]));
        i += 1;
    }
    assert(src@.take(src@.len() as int) =~= src@);
    out
}

/// A regular file as it was last backed up, with the blocks that make it up.
pub struct File {
    pub id: i64,
    pub path: Vec<u8>,
    pub size: u64,
    pub mode: u32,
    pub mappings: Vec<Mapping>,
}

pub struct FileView {
    pub id: int,
    pub path: Seq<u8>,
    pub size: u64,
    pub mode: u32,
    pub mappings: Seq<Mapping>,
}

impl View for File {
    type V = FileView;

    open spec fn view(&self) -> FileView {
        FileView {
            id: self.id as int,
            path: self.path@,
            size: self.size,
            mode: self.mode,
            mappings: self.mappings@,
        }
    }
}

impl Row for File {
    open spec fn id_of(v: FileView) -> int {
        v.id
    }

    fn id(&self) -> i64 {
        self.id
    }
}

impl File {
    /// Whether two rows hold the same.
    pub fn same(&self, other: &File) -> (r: bool)
        ensures
            r == (self@ == other@),
    {
        self.id == other.id && self.size == other.size && self.mode == other.mode && bytes_equal(
            self.path.as_slice(),
            other.path.as_slice(),
        ) && same_mappings(&self.mappings, &other.mappings)
    }

    pub fn copy(&self) -> (r: File)
        ensures
            r@ == self@,
    {
        File {
            id: self.id,
            path: copy_bytes(self.path.as_slice()),
            size: self.size,
            mode: self.mode,
            mappings: copy_mappings(&self.mappings),
        }
    }
}

/// A directory as it was last backed up.
pub struct Directory {
    pub id: i64,
    pub path: Vec<u8>,
    pub mode: u32,
}

pub struct DirectoryView {
    pub id: int,
    pub path: Seq<u8>,
    pub mode: u32,
}

impl View for Directory {
    type V = DirectoryView;

    open spec fn view(&self) -> DirectoryView {
        DirectoryView { id: self.id as int, path: self.path@, mode: self.mode }
    }
}

impl Row for Directory {
    open spec fn id_of(v: DirectoryView) -> int {
        v.id
    }

    fn id(&self) -> i64 {
        self.id
    }
}

impl Directory {
    /// Whether two rows hold the same.
    pub fn same(&self, other: &Directory) -> (r: bool)
        ensures
            r == (self@ == other@),
    {
        self.id == other.id && self.mode == other.mode && bytes_equal(
            self.path.as_slice(),
            other.path.as_slice(),
        )
    }

    pub fn copy(&self) -> (r: Directory)
        ensures
            r@ == self@,
    {
        Directory { id: self.id, path: copy_bytes(self.path.as_slice()), mode: self.mode }
    }
}

/// A symbolic link as it was last backed up.
pub struct SymbolicLink {
    pub id: i64,
    pub path: Vec<u8>,
    pub target: Vec<u8>,
}

pub struct SymbolicLinkView {
    pub id: int,
    pub path: Seq<u8>,
    pub target: Seq<u8>,
}

impl View for SymbolicLink {
    type V = SymbolicLinkView;

    open spec fn view(&self) -> SymbolicLinkView {
        SymbolicLinkView { id: self.id as int, path: self.path@, target: self.target@ }
    }
}

impl Row for SymbolicLink {
    open spec fn id_of(v: SymbolicLinkView) -> int {
        v.id
    }

    fn id(&self) -> i64 {
        self.id
    }
}

impl SymbolicLink {
    /// Whether two rows hold the same.
    pub fn same(&self, other: &SymbolicLink) -> (r: bool)
        ensures
            r == (self@ == other@),
    {
        self.id == other.id && bytes_equal(self.path.as_slice(), other.path.as_slice())
            && bytes_equal(self.target.as_slice(), other.target.as_slice())
    }

    pub fn copy(&self) -> (r: SymbolicLink)
        ensures
            r@ == self@,
    {
        SymbolicLink {
            id: self.id,
            path: copy_bytes(self.path.as_slice()),
            target: copy_bytes(self.target.as_slice()),
        }
    }
}

/// A deduplicated chunk of file content, found by its digest, and where its bytes lie.
pub struct Block {
    pub id: i64,
    pub digest: Vec<u8>,
    pub length: u64,
    pub archive_id: i64,
    pub archive_off: u64,
}

pub struct BlockView {
    pub id: int,
    pub digest: Seq<u8>,
    pub length: u64,
    pub archive_id: int,
    pub archive_off: u64,
}

impl View for Block {
    type V = BlockView;

    open spec fn view(&self) -> BlockView {
        BlockView {
            id: self.id as int,
            digest: self.digest@,
            length: self.length,
            archive_id: self.archive_id as int,
            archive_off: self.archive_off,
        }
    }
}

impl Row for Block {
    open spec fn id_of(v: BlockView) -> int {
        v.id
    }

    fn id(&self) -> i64 {
        self.id
    }
}

impl Block {
    /// Whether two rows hold the same.
    pub fn same(&self, other: &Block) -> (r: bool)
        ensures
            r == (self@ == other@),
    {
        self.id == other.id && self.length == other.length && self.archive_id
            == other.archive_id && self.archive_off == other.archive_off && bytes_equal(
            self.digest.as_slice(),
            other.digest.as_slice(),
        )
    }

    pub fn copy(&self) -> (r: Block)
        ensures
            r@ == self@,
    {
        Block {
            id: self.id,
            digest: copy_bytes(self.digest.as_slice()),
            length: self.length,
            archive_id: self.archive_id,
            archive_off: self.archive_off,
        }
    }
}

/// A regular file that the running session is reading, with the blocks seen so far.
pub struct NewFile {
    pub id: i64,
    pub path: Vec<u8>,
    pub size: u64,
    pub mode: u32,
    /// Set once all of the file's bytes have been stored.
    pub closed: bool,
    pub mappings: Vec<Mapping>,
}

pub struct NewFileView {
    pub id: int,
    pub path: Seq<u8>,
    pub size: u64,
    pub mode: u32,
    pub closed: bool,
    pub mappings: Seq<Mapping>,
}

impl View for NewFile {
    type V = NewFileView;

    open spec fn view(&self) -> NewFileView {
        NewFileView {
            id: self.id as int,
            path: self.path@,
            size: self.size,
            mode: self.mode,
            closed: self.closed,
            mappings: self.mappings@,
        }
    }
}

impl Row for NewFile {
    open spec fn id_of(v: NewFileView) -> int {
        v.id
    }

    fn id(&self) -> i64 {
        self.id
    }
}

} // verus!
