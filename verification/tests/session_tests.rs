use b2_backup::codec::{decode_changes, encode_changes, read_fields, write_field};
use b2_backup::config::Config;
use b2_backup::database::{
    get_archive, get_block, get_file, get_patchset, has_changes, insert_new_mapping,
    open_connection, select_archive, select_block, select_blocks_by_archive,
    select_blocks_by_file, select_directory, select_file, select_files_by_path, select_patchset,
    select_small_archives, select_storage_used, select_symbolic_link, Database,
};
use b2_backup::digest::block_digest;
use b2_backup::error::Error;
use b2_backup::manifest::{
    collect_closed_new_files, combine_patchsets, delete_unused_archives, store_block,
    FileWriter, Manifest, Sealed, Update,
};
use b2_backup::names::{archive_name, parse_name};
use b2_backup::pack::{pack, unpack};
use b2_backup::plan::{order_patchsets, Blob};
use b2_backup::rows::{Block, Mapping};
use b2_backup::split::{split, Splitter};
use b2_backup::tables::Change;

const KEY: [u8; 32] = [7u8; 32];

fn pseudo_random(len: usize, seed: u64) -> Vec<u8> {
    let mut x = seed;
    let mut out = Vec::with_capacity(len);
    for _ in 0..len {
        x = x.wrapping_mul(6364136223846793005).wrapping_add(1442695040888963407);
        out.push(((x >> 33) & 0xFF) as u8);
    }
    out
}

fn config(min_archive_len: u64) -> Config {
    Config {
        app_key_id: String::new(),
        app_key: String::new(),
        bucket_id: String::new(),
        bucket_name: String::new(),
        key: "07".repeat(32),
        includes: vec![b"/a".to_vec()],
        excludes: Vec::new(),
        keep_deleted_files: false,
        num_threads: None,
        compression_level: 3,
        min_archive_len,
        max_manifest_len: 10_000_000,
        small_archives_upper_limit: 10,
        small_archives_lower_limit: 5,
        small_patchsets_limit: 25,
    }
}

/// A remote store in memory.
struct Remote {
    blobs: Vec<(Vec<u8>, Vec<u8>, Vec<u8>)>,
    uploads: u64,
    downloads: Vec<Vec<u8>>,
    removed: Vec<Vec<u8>>,
}

impl Remote {
    fn new() -> Remote {
        Remote { blobs: Vec::new(), uploads: 0, downloads: Vec::new(), removed: Vec::new() }
    }

    fn upload(&mut self, name: &[u8], data: &[u8]) -> (Vec<u8>, u64) {
        let blob = pack(&KEY, 3, data).unwrap();
        self.uploads += 1;
        let file_id = format!("id{}", self.uploads).into_bytes();
        let len = blob.len() as u64;
        self.blobs.push((name.to_vec(), file_id.clone(), blob));
        (file_id, len)
    }

    fn download(&mut self, name: &[u8]) -> Vec<u8> {
        self.downloads.push(name.to_vec());
        let blob = &self.blobs.iter().rev().find(|b| b.0 == name).unwrap().2;
        unpack(&KEY, blob).unwrap()
    }

    fn remove(&mut self, name: &[u8], file_id: &[u8]) {
        self.removed.push(name.to_vec());
        self.blobs.retain(|b| !(b.0 == name && b.1 == file_id));
    }

    fn list(&self, prefix: &[u8]) -> Vec<Blob> {
        self.blobs
            .iter()
            .filter(|b| b.0.starts_with(prefix))
            .map(|b| Blob { name: b.0.clone(), file_id: b.1.clone(), length: b.2.len() as u64 })
            .collect()
    }

    fn names(&self, prefix: &[u8]) -> Vec<Vec<u8>> {
        self.blobs.iter().filter(|b| b.0.starts_with(prefix)).map(|b| b.0.clone()).collect()
    }
}

fn upload_sealed(update: &mut Update, remote: &mut Remote, sealed: Sealed) {
    let (file_id, len) = remote.upload(&archive_name(sealed.archive_id), &sealed.bytes);
    update.archive_uploaded(sealed.archive_id, sealed.length, &file_id, len).unwrap();
}

fn store_file(update: &mut Update, remote: &mut Remote, min: u64, path: &[u8], data: &[u8]) {
    let id = update.open_file(path, data.len() as u64, 0o644).unwrap();
    let mut offset = 0u64;
    for chunk in split(data) {
        if let Some(sealed) = store_block(update, min, id, offset, &chunk).unwrap() {
            upload_sealed(update, remote, sealed);
        }
        offset += chunk.len() as u64;
    }
    update.close_file(id);
}

/// Ends a session as the tool does. Returns the manifest and whether a patchset was
/// uploaded.
fn end_session(mut update: Update, remote: &mut Remote, interrupted: bool, keep: bool) -> (Manifest, bool) {
    if let Some(sealed) = update.seal(interrupted).unwrap() {
        upload_sealed(&mut update, remote, sealed);
    }
    let done = update.finish(interrupted || keep).unwrap();
    let mut manifest = Manifest::open(done.db);
    if done.changes.is_empty() {
        return (manifest, false);
    }
    let bytes = encode_changes(&done.changes).unwrap();
    let (id, name) = manifest.begin_patchset().unwrap();
    let (file_id, len) = remote.upload(&name, &bytes);
    manifest.patchset_uploaded(id, &file_id, len);
    for (archive_id, file_id) in done.unused_archives {
        if let Some(file_id) = file_id {
            remote.remove(&archive_name(archive_id), &file_id);
        }
    }
    (manifest, true)
}

fn backup(manifest: Manifest, remote: &mut Remote, min: u64, files: &[(&[u8], &[u8])]) -> (Manifest, bool) {
    let mut update = manifest.update().unwrap();
    update.directory(b"/a", 0o755).unwrap();
    for (path, data) in files {
        store_file(&mut update, remote, min, path, data);
    }
    end_session(update, remote, false, false)
}

fn restore(remote: &mut Remote) -> Manifest {
    let mut manifest = Manifest::open(open_connection());
    manifest.restore_manifest();
    let blobs = remote.list(b"manifest_");
    for (id, at) in order_patchsets(&blobs).unwrap() {
        let bytes = remote.download(&blobs[at].name);
        manifest.apply_patchset(&bytes, id, &blobs[at].file_id, blobs[at].length).unwrap();
    }
    manifest
}

fn all_blocks(db: &Database) -> Vec<(i64, Vec<u8>, u64, i64, u64)> {
    let mut ids = b2_backup::database::select_blocks(db);
    ids.sort();
    ids.into_iter()
        .map(|id| {
            let b = get_block(db, id).unwrap();
            (b.id, b.digest.clone(), b.length, b.archive_id, b.archive_off)
        })
        .collect()
}

#[test]
fn first_backup_uploads_archives_and_one_patchset() {
    let data = pseudo_random(1 << 20, 12345);
    let mut remote = Remote::new();
    let (manifest, uploaded) = backup(Manifest::open(open_connection()), &mut remote, 300_000, &[(b"/a/f", &data)]);
    assert!(uploaded);
    let db = manifest.database();
    assert_eq!(remote.names(b"manifest_"), vec![b"manifest_1".to_vec()]);
    let blocks = all_blocks(db);
    assert_eq!(blocks.len(), 43);
    assert_eq!(blocks.iter().map(|b| b.2).sum::<u64>(), 1 << 20);
    // the archives were sealed at 300 000 bytes or more; the last holds the rest
    assert_eq!(remote.names(b"archive_").len(), 4);
    for id in 1..=4 {
        let row = get_archive(db, id).unwrap();
        assert!(row.blob_file_id.is_some());
        let held: u64 = blocks.iter().filter(|b| b.3 == id).map(|b| b.2).sum();
        assert_eq!(row.length, Some(held));
        assert!(id == 4 || held >= 300_000);
    }
    assert!(!select_archive(db, 5));
    let file = get_file(db, select_file(db, b"/a/f").unwrap()).unwrap();
    assert_eq!(file.size, 1 << 20);
    assert_eq!(file.mappings.len(), 43);
    assert_eq!(select_directory(db, b"/a"), Some(1));
    assert!(get_patchset(db, 1).unwrap().blob_file_id.is_some());
}

#[test]
fn archive_bytes_are_the_blocks_in_the_order_they_were_stored() {
    let mut remote = Remote::new();
    let files: Vec<(Vec<u8>, Vec<u8>)> =
        (0..100u8).map(|i| (format!("/a/{}", i).into_bytes(), vec![i; 100])).collect();
    let borrowed: Vec<(&[u8], &[u8])> = files.iter().map(|f| (&f.0[..], &f.1[..])).collect();
    let (manifest, _) = backup(Manifest::open(open_connection()), &mut remote, 50_000_000, &borrowed);
    assert_eq!(remote.names(b"archive_"), vec![b"archive_1".to_vec()]);
    let bytes = remote.download(b"archive_1");
    let want: Vec<u8> = files.iter().flat_map(|f| f.1.clone()).collect();
    assert_eq!(bytes, want);
    let db = manifest.database();
    for block in select_blocks_by_archive(db, 1) {
        let at = block.archive_off as usize;
        assert_eq!(block_digest(&bytes[at..at + block.length as usize]), block.digest);
    }
    assert_eq!(select_files_by_path(db, None).len(), 100);
}

#[test]
fn backing_up_unchanged_files_again_changes_nothing() {
    let data = pseudo_random(200_000, 1);
    let mut remote = Remote::new();
    let (manifest, _) = backup(Manifest::open(open_connection()), &mut remote, 50_000_000, &[(b"/a/f", &data)]);
    let before = all_blocks(manifest.database());
    let uploads = remote.uploads;
    let (manifest, uploaded) = backup(manifest, &mut remote, 50_000_000, &[(b"/a/f", &data)]);
    assert!(!uploaded);
    assert_eq!(remote.uploads, uploads);
    assert_eq!(all_blocks(manifest.database()), before);
    assert!(!select_patchset(manifest.database(), 2));
}

#[test]
fn a_known_block_is_only_mapped() {
    let mut update = Manifest::open(open_connection()).update().unwrap();
    let a = update.open_file(b"/a", 3, 0).unwrap();
    let b = update.open_file(b"/b", 3, 0).unwrap();
    assert!(store_block(&mut update, 1000, a, 0, b"abc").unwrap().is_none());
    assert_eq!(update.archive_len(), 3);
    assert!(store_block(&mut update, 1000, b, 0, b"abc").unwrap().is_none());
    assert!(store_block(&mut update, 1000, b, 3, b"abc").unwrap().is_none());
    assert_eq!(update.archive_len(), 3);
    let db = update.database();
    assert_eq!(all_blocks(db).len(), 1);
    assert_eq!(select_block(db, &block_digest(b"abc")), Some(1));
}

#[test]
fn a_block_is_refused_where_its_place_is_taken() {
    let mut update = Manifest::open(open_connection()).update().unwrap();
    let a = update.open_file(b"/a", 3, 0).unwrap();
    store_block(&mut update, 1000, a, 0, b"abc").unwrap();
    assert_eq!(store_block(&mut update, 1000, a, 0, b"xyz").err(), Some(Error::Constraint));
    assert_eq!(store_block(&mut update, 1000, a + 1, 0, b"xyz").err(), Some(Error::Constraint));
    assert_eq!(update.archive_len(), 3);
    assert_eq!(select_block(update.database(), &block_digest(b"xyz")), None);
    assert_eq!(update.open_file(b"/a", 3, 0), Err(Error::Constraint));
}

#[test]
fn an_archive_is_sealed_once_it_holds_enough() {
    let mut update = Manifest::open(open_connection()).update().unwrap();
    assert_eq!(update.archive_id(), 1);
    let a = update.open_file(b"/a", 9, 0).unwrap();
    assert!(store_block(&mut update, 6, a, 0, b"abc").unwrap().is_none());
    let sealed = store_block(&mut update, 6, a, 3, b"def").unwrap().unwrap();
    assert_eq!((sealed.archive_id, sealed.length), (1, 6));
    assert_eq!(sealed.bytes, b"abcdef".to_vec());
    assert_eq!((update.archive_id(), update.archive_len()), (2, 0));
    assert!(select_archive(update.database(), 1));
    assert!(!select_archive(update.database(), 2));
    assert!(store_block(&mut update, 6, a, 6, b"ghi").unwrap().is_none());
    assert_eq!(get_block(update.database(), 3).unwrap().archive_id, 2);
    assert_eq!(update.archive_uploaded(2, 3, b"x", 1), Err(Error::Constraint));
}

#[test]
fn new_files_wait_for_the_upload_of_their_archives() {
    let mut update = Manifest::open(open_connection()).update().unwrap();
    let a = update.open_file(b"/a", 3, 0o600).unwrap();
    store_block(&mut update, 1000, a, 0, b"abc").unwrap();
    update.close_file(a);
    let sealed = update.seal(false).unwrap().unwrap();
    assert_eq!(select_file(update.database(), b"/a"), None);
    update.archive_uploaded(sealed.archive_id, sealed.length, b"fid", 9).unwrap();
    let db = update.database();
    let file = get_file(db, select_file(db, b"/a").unwrap()).unwrap();
    assert_eq!((file.size, file.mode), (3, 0o600));
    assert_eq!(file.mappings, vec![Mapping { offset: 0, block_id: 1 }]);
}

#[test]
fn appending_to_a_file_adds_few_blocks() {
    let mut data = pseudo_random(1 << 20, 12345);
    let mut remote = Remote::new();
    let (manifest, _) = backup(Manifest::open(open_connection()), &mut remote, 50_000_000, &[(b"/a/f", &data)]);
    let before = all_blocks(manifest.database()).len();
    data.extend_from_slice(&pseudo_random(1024, 4));
    let (manifest, uploaded) = backup(manifest, &mut remote, 50_000_000, &[(b"/a/f", &data)]);
    assert!(uploaded);
    let db = manifest.database();
    let file = get_file(db, select_file(db, b"/a/f").unwrap()).unwrap();
    assert_eq!(file.size, (1 << 20) + 1024);
    let added = all_blocks(db).iter().filter(|b| b.0 > before as i64).count();
    assert!(added >= 1 && added <= 2);
    assert_eq!(remote.names(b"manifest_").len(), 2);
}

#[test]
fn a_deleted_file_goes_with_its_blocks_and_archives() {
    let data = pseudo_random(100_000, 3);
    let mut remote = Remote::new();
    let (manifest, _) = backup(Manifest::open(open_connection()), &mut remote, 50_000_000, &[(b"/a/f", &data)]);
    assert_eq!(remote.names(b"archive_").len(), 1);
    let (manifest, uploaded) = backup(manifest, &mut remote, 50_000_000, &[]);
    assert!(uploaded);
    let db = manifest.database();
    assert_eq!(select_file(db, b"/a/f"), None);
    assert!(all_blocks(db).is_empty());
    assert!(!select_archive(db, 1));
    assert!(remote.names(b"archive_").is_empty());
    assert_eq!(remote.removed, vec![b"archive_1".to_vec()]);
    assert_eq!(select_directory(db, b"/a"), Some(1));
}

#[test]
fn deleted_files_stay_where_they_are_kept() {
    let data = pseudo_random(50_000, 3);
    let mut remote = Remote::new();
    let (manifest, _) = backup(Manifest::open(open_connection()), &mut remote, 50_000_000, &[(b"/a/f", &data)]);
    let update = manifest.update().unwrap();
    let (manifest, uploaded) = end_session(update, &mut remote, false, true);
    assert!(!uploaded);
    assert!(select_file(manifest.database(), b"/a/f").is_some());
    assert_eq!(remote.names(b"archive_").len(), 1);
}

#[test]
fn the_manifest_is_rebuilt_from_its_patchsets() {
    let data = pseudo_random(300_000, 8);
    let more = pseudo_random(100_000, 9);
    let mut remote = Remote::new();
    let (manifest, _) = backup(Manifest::open(open_connection()), &mut remote, 100_000, &[(b"/a/f", &data)]);
    let (manifest, _) = backup(manifest, &mut remote, 100_000, &[(b"/a/f", &data), (b"/a/g", &more)]);
    let (manifest, _) = backup(manifest, &mut remote, 100_000, &[(b"/a/g", &more)]);
    let rebuilt = restore(&mut remote);
    let (a, b) = (manifest.database(), rebuilt.database());
    assert_eq!(all_blocks(a), all_blocks(b));
    assert!(!all_blocks(a).is_empty());
    assert_eq!(select_files_by_path(a, None), select_files_by_path(b, None));
    for id in select_files_by_path(a, None) {
        let (x, y) = (get_file(a, id).unwrap(), get_file(b, id).unwrap());
        assert_eq!((&x.path, x.size, x.mode, &x.mappings), (&y.path, y.size, y.mode, &y.mappings));
    }
    for id in 1..20 {
        assert_eq!(select_archive(a, id), select_archive(b, id));
        if let (Some(x), Some(y)) = (get_archive(a, id), get_archive(b, id)) {
            assert_eq!((x.length, &x.blob_file_id, x.blob_length), (y.length, &y.blob_file_id, y.blob_length));
        }
        assert_eq!(select_patchset(a, id), select_patchset(b, id));
        if let (Some(x), Some(y)) = (get_patchset(a, id), get_patchset(b, id)) {
            assert_eq!((&x.blob_file_id, x.blob_length), (&y.blob_file_id, y.blob_length));
        }
    }
    assert_eq!(select_directory(b, b"/a"), Some(1));
    assert_eq!(select_storage_used(a), select_storage_used(b));
    assert_eq!(remote.names(b"manifest_").len(), 3);
}

#[test]
fn an_interrupted_session_keeps_what_is_safe() {
    let data = pseudo_random(300_000, 8);
    let late = pseudo_random(50_000, 10);
    let mut remote = Remote::new();
    let (manifest, _) = backup(Manifest::open(open_connection()), &mut remote, 50_000_000, &[(b"/a/old", &data)]);
    let mut update = manifest.update().unwrap();
    store_file(&mut update, &mut remote, 50_000_000, b"/a/new", &late);
    // the interrupt comes before `/a/old` is seen again
    let (manifest, _) = end_session(update, &mut remote, true, false);
    let db = manifest.database();
    assert!(select_file(db, b"/a/old").is_some());
    assert_eq!(select_file(db, b"/a/new"), None);
    assert_eq!(remote.names(b"archive_").len(), 1);
    for block in all_blocks(db) {
        assert!(get_archive(db, block.3).unwrap().blob_file_id.is_some());
    }
    assert!(!select_archive(db, 2));
    for id in b2_backup::database::select_archives(db) {
        assert!(get_archive(db, id).unwrap().blob_file_id.is_some());
    }
    let plan = manifest.restore_files(None).unwrap();
    assert_eq!(plan.files.len(), 1);
}

#[test]
fn small_archives_are_collected_into_one() {
    let mut remote = Remote::new();
    let first = pseudo_random(10_000_000, 21);
    let second = pseudo_random(10_000_000, 22);
    let (manifest, _) = backup(Manifest::open(open_connection()), &mut remote, 50_000_000, &[(b"/a/f", &first)]);
    let update = manifest.update().unwrap();
    let mut update = update;
    update.directory(b"/a", 0o755).unwrap();
    store_file(&mut update, &mut remote, 50_000_000, b"/a/g", &second);
    let (manifest, _) = end_session(update, &mut remote, false, true);
    assert_eq!(remote.names(b"archive_").len(), 2);
    let before = all_blocks(manifest.database());

    let c = config(50_000_000);
    assert!(!manifest.maybe_collect_small_archives(&c, false));
    assert!(!manifest.maybe_collect_small_archives(&c, true));
    let small = manifest.collect_small_archives(&c).unwrap();
    assert_eq!(small.len(), 2);
    let mut update = manifest.update().unwrap();
    for id in small {
        let bytes = remote.download(&archive_name(id));
        update.absorb_archive(id, &bytes).unwrap();
        if update.archive_len() >= c.min_archive_len {
            break;
        }
    }
    let joined = update.archive_id();
    let (manifest, uploaded) = end_session(update, &mut remote, false, true);
    assert!(uploaded);
    let db = manifest.database();
    assert_eq!(remote.names(b"archive_"), vec![archive_name(joined)]);
    let after = all_blocks(db);
    assert_eq!(after.len(), before.len());
    for (old, new) in before.iter().zip(after.iter()) {
        assert_eq!((old.0, &old.1, old.2), (new.0, &new.1, new.2));
        assert_eq!(new.3, joined);
    }
    let bytes = remote.download(&archive_name(joined));
    assert_eq!(bytes.len(), 20_000_000);
    for block in select_blocks_by_archive(db, joined) {
        let at = block.archive_off as usize;
        assert_eq!(block_digest(&bytes[at..at + block.length as usize]), block.digest);
    }
    assert_eq!(select_small_archives(db, 50_000_000), vec![joined]);
    assert_eq!(manifest.collect_small_archives(&c).err(), Some(Error::NotEnoughSmallArchives));
}

#[test]
fn a_block_with_the_wrong_bytes_is_not_moved() {
    let mut remote = Remote::new();
    let data = pseudo_random(100_000, 21);
    let (manifest, _) = backup(Manifest::open(open_connection()), &mut remote, 50_000_000, &[(b"/a/f", &data)]);
    let mut bytes = remote.download(b"archive_1");
    let last = bytes.len() - 1;
    bytes[last] ^= 1;
    let blocks = all_blocks(manifest.database());
    let mut update = manifest.update().unwrap();
    let bad = blocks.last().unwrap().0;
    assert_eq!(update.absorb_archive(1, &bytes), Err(Error::DigestMismatch { block_id: bad }));
    // no block was moved, not even those before it
    assert!(select_blocks_by_archive(update.database(), update.archive_id()).is_empty());
    assert_eq!(update.archive_len(), 0);
    assert!(!select_archive(update.database(), update.archive_id()));
    assert!(!has_changes(update.database()));
    let first = blocks.first().unwrap().0;
    assert_eq!(update.absorb_archive(1, &bytes[..10]), Err(Error::BlockOutOfRange { block_id: first }));
    assert_eq!(update.absorb_archive(update.archive_id(), &bytes), Err(Error::Constraint));
    assert_eq!(all_blocks(update.database()), blocks);
}

#[test]
fn moved_blocks_lie_one_behind_the_other_in_the_order_they_had() {
    let mut remote = Remote::new();
    let first = pseudo_random(300_000, 41);
    let second = pseudo_random(200_000, 42);
    let (manifest, _) = backup(Manifest::open(open_connection()), &mut remote, 50_000_000, &[(b"/a/f", &first)]);
    let mut update = manifest.update().unwrap();
    store_file(&mut update, &mut remote, 50_000_000, b"/a/g", &second);
    let (manifest, _) = end_session(update, &mut remote, false, true);
    let db = manifest.database();
    let mut archives: Vec<i64> = all_blocks(db).iter().map(|b| b.3).collect();
    archives.dedup();
    assert_eq!(archives.len(), 2);
    let (a1, a2) = (archives[0], archives[1]);
    let one = select_blocks_by_archive(db, a1);
    let two = select_blocks_by_archive(db, a2);
    assert!(one.len() > 1 && two.len() > 1);
    let files = select_files_by_path(db, None).len();

    let mut update = manifest.update().unwrap();
    let joined = update.archive_id();
    assert!(!update.is_full(1));
    assert!(update.is_full(0));
    update.absorb_archive(a2, &remote.download(&archive_name(a2))).unwrap();
    assert_eq!(update.archive_len(), 200_000);
    assert!(update.is_full(200_000));
    assert!(!update.is_full(200_001));
    update.absorb_archive(a1, &remote.download(&archive_name(a1))).unwrap();
    assert_eq!(update.archive_len(), 500_000);

    let db = update.database();
    let mut expected = Vec::new();
    let mut at = 0u64;
    for b in two.iter().chain(one.iter()) {
        expected.push((b.id, b.digest.clone(), b.length, joined, at));
        at += b.length;
    }
    let moved: Vec<_> = select_blocks_by_archive(db, joined)
        .into_iter()
        .map(|b| (b.id, b.digest, b.length, b.archive_id, b.archive_off))
        .collect();
    assert_eq!(moved, expected);
    assert!(select_blocks_by_archive(db, a1).is_empty());
    assert!(select_blocks_by_archive(db, a2).is_empty());
    assert_eq!(select_files_by_path(db, None).len(), files);

    let sealed = update.seal(false).unwrap().unwrap();
    let mut bytes = second.clone();
    bytes.extend_from_slice(&first);
    assert_eq!(sealed.bytes, bytes);
}

#[test]
fn small_patchsets_are_joined_into_one() {
    let mut remote = Remote::new();
    let mut manifest = Manifest::open(open_connection());
    for round in 0..3u64 {
        let data = pseudo_random(40_000, 30 + round);
        let path = format!("/a/f{}", round).into_bytes();
        let mut update = manifest.update().unwrap();
        update.directory(b"/a", 0o755).unwrap();
        store_file(&mut update, &mut remote, 50_000_000, &path, &data);
        manifest = end_session(update, &mut remote, false, true).0;
    }
    let mut c = config(50_000_000);
    c.small_patchsets_limit = 2;
    assert!(manifest.maybe_collect_small_patchsets(&c));
    c.small_patchsets_limit = 3;
    assert!(!manifest.maybe_collect_small_patchsets(&c));
    c.small_patchsets_limit = 0;
    assert!(!manifest.maybe_collect_small_patchsets(&c));

    let small = manifest.collect_small_patchsets(&c).unwrap();
    assert_eq!(small.iter().map(|p| p.0).collect::<Vec<i64>>(), vec![3, 2, 1]);
    let parts: Vec<Vec<u8>> =
        small.iter().rev().map(|p| remote.download(&b2_backup::names::patchset_name(p.0))).collect();
    let joined = combine_patchsets(&parts).unwrap();
    let (id, name) = manifest.begin_patchset().unwrap();
    assert_eq!(id, 4);
    let (file_id, len) = remote.upload(&name, &joined);
    manifest.patchset_uploaded(id, &file_id, len);
    manifest.delete_patchsets(&small);
    for (old, file_id) in &small {
        remote.remove(&b2_backup::names::patchset_name(*old), file_id);
    }
    assert_eq!(remote.names(b"manifest_"), vec![b"manifest_4".to_vec()]);
    assert!(!select_patchset(manifest.database(), 1));
    assert!(select_patchset(manifest.database(), 4));

    let rebuilt = restore(&mut remote);
    assert_eq!(all_blocks(rebuilt.database()), all_blocks(manifest.database()));
    assert_eq!(select_files_by_path(rebuilt.database(), None).len(), 3);
    assert!(select_patchset(rebuilt.database(), 4));
    c.max_manifest_len = 1;
    assert_eq!(manifest.collect_small_patchsets(&c).err(), Some(Error::NotEnoughSmallPatchsets));
}

#[test]
fn joining_refuses_bytes_that_hold_no_changes() {
    assert_eq!(combine_patchsets(&vec![vec![1, 2, 3]]), Err(Error::BadPatchset));
    assert_eq!(combine_patchsets(&Vec::new()), Ok(Vec::new()));
}

#[test]
fn directories_and_links_are_noted_and_seen() {
    let mut update = Manifest::open(open_connection()).update().unwrap();
    update.directory(b"/a", 0o755).unwrap();
    update.directory(b"/a", 0o700).unwrap();
    update.symlink(b"/a/l", b"target").unwrap();
    update.symlink(b"/a/l", b"other").unwrap();
    let done = update.finish(false).unwrap();
    let db = &done.db;
    assert_eq!(b2_backup::database::get_directory(db, select_directory(db, b"/a").unwrap()).unwrap().mode, 0o700);
    let link = b2_backup::database::get_symbolic_link(db, select_symbolic_link(db, b"/a/l").unwrap()).unwrap();
    assert_eq!(link.target, b"other".to_vec());
    assert_eq!(done.changes.len(), 4);
    assert!(done.unused_archives.is_empty());
}

#[test]
fn garbage_collection_returns_the_archives_it_deleted() {
    let mut db = open_connection();
    let a = b2_backup::database::insert_def_archive(&mut db).unwrap();
    b2_backup::database::update_archive(&mut db, a, 3, b"fid", 9);
    b2_backup::database::insert_block(&mut db, &block_digest(b"abc"), 3, a, 0).unwrap();
    let unused = delete_unused_archives(&mut db, true);
    assert_eq!(unused, vec![(a, Some(b"fid".to_vec()))]);
    assert!(!select_archive(&db, a));
    assert_eq!(select_block(&db, &block_digest(b"abc")), None);
    assert!(delete_unused_archives(&mut db, false).is_empty());
}

#[test]
fn new_files_with_missing_blocks_do_not_become_files() {
    let mut db = open_connection();
    let nf = b2_backup::database::insert_new_file(&mut db, b"/f", 1, 0).unwrap();
    insert_new_mapping(&mut db, nf, 0, 42).unwrap();
    b2_backup::database::update_new_file(&mut db, nf);
    assert_eq!(collect_closed_new_files(&mut db), Ok(()));
    assert_eq!(select_file(&db, b"/f"), None);
    assert!(!has_changes(&db));
}

#[test]
fn changes_are_written_and_read_back() {
    let data = pseudo_random(100_000, 5);
    let mut remote = Remote::new();
    let mut update = Manifest::open(open_connection()).update().unwrap();
    update.directory(b"/a", 0o755).unwrap();
    update.symlink(b"/a/l", b"f").unwrap();
    store_file(&mut update, &mut remote, 50_000_000, b"/a/f", &data);
    if let Some(sealed) = update.seal(false).unwrap() {
        upload_sealed(&mut update, &mut remote, sealed);
    }
    let done = update.finish(false).unwrap();
    let bytes = encode_changes(&done.changes).unwrap();
    let read = decode_changes(&bytes).unwrap();
    assert_eq!(read.len(), done.changes.len());
    assert_eq!(encode_changes(&read).unwrap(), bytes);
    let kinds: Vec<u8> = read
        .iter()
        .map(|c| match c {
            Change::PutArchive { .. } => 1,
            Change::PutFile { .. } => 3,
            Change::PutDirectory { .. } => 5,
            Change::PutSymbolicLink { .. } => 7,
            Change::PutBlock { .. } => 9,
            _ => 0,
        })
        .collect();
    assert!(kinds.contains(&1) && kinds.contains(&3) && kinds.contains(&5) && kinds.contains(&7) && kinds.contains(&9));
}

#[test]
fn a_delete_is_written_as_its_kind_and_its_id() {
    let bytes = encode_changes(&vec![Change::DeleteFile { id: 3 }]).unwrap();
    let mut want = vec![8, 0, 0, 0, 0, 0, 0, 0, 4, 0, 0, 0, 0, 0, 0, 0];
    want.extend_from_slice(&[8, 0, 0, 0, 0, 0, 0, 0, 3, 0, 0, 0, 0, 0, 0, 0x80]);
    assert_eq!(bytes, want);
    match decode_changes(&bytes).unwrap().as_slice() {
        [Change::DeleteFile { id: 3 }] => {}
        _ => panic!("another change was read"),
    }
}

#[test]
fn a_block_is_written_with_all_it_holds() {
    let row = Block { id: -2, digest: vec![9; 32], length: 77, archive_id: i64::MAX, archive_off: u64::MAX };
    let bytes = encode_changes(&vec![Change::PutBlock { row, fresh: true }]).unwrap();
    match decode_changes(&bytes).unwrap().as_slice() {
        [Change::PutBlock { row, fresh: true }] => {
            assert_eq!((row.id, row.length, row.archive_id, row.archive_off), (-2, 77, i64::MAX, u64::MAX));
            assert_eq!(row.digest, vec![9; 32]);
        }
        _ => panic!("another change was read"),
    }
}

#[test]
fn bytes_that_hold_no_changes_are_refused() {
    assert!(decode_changes(&[]).unwrap().is_empty());
    assert!(decode_changes(&[1, 2, 3]).is_none());
    let mut unknown = Vec::new();
    write_field(&mut unknown, &99u64.to_le_bytes());
    write_field(&mut unknown, &[0; 8]);
    assert!(decode_changes(&unknown).is_none());
    let mut short = Vec::new();
    write_field(&mut short, &4u64.to_le_bytes());
    assert!(decode_changes(&short).is_none());
    let whole = encode_changes(&vec![Change::DeleteBlock { id: 1 }]).unwrap();
    assert!(decode_changes(&whole[..whole.len() - 1]).is_none());
}

#[test]
fn fields_are_written_with_their_length_before_them() {
    let mut out = Vec::new();
    write_field(&mut out, b"ab");
    write_field(&mut out, b"");
    assert_eq!(out, vec![2, 0, 0, 0, 0, 0, 0, 0, b'a', b'b', 0, 0, 0, 0, 0, 0, 0, 0]);
    assert_eq!(read_fields(&out), Some(vec![b"ab".to_vec(), Vec::new()]));
    assert_eq!(read_fields(&out[..9]), None);
    assert_eq!(read_fields(&out[..12]), None);
}

#[test]
fn a_patchset_is_applied_once() {
    let bytes = encode_changes(&vec![Change::PutDirectory {
        row: b2_backup::rows::Directory { id: 4, path: b"/d".to_vec(), mode: 1 },
        fresh: true,
    }])
    .unwrap();
    let mut manifest = Manifest::open(open_connection());
    assert_eq!(manifest.apply_patchset(&bytes, 1, b"fid", 5), Ok(()));
    assert_eq!(select_directory(manifest.database(), b"/d"), Some(4));
    assert_eq!(manifest.apply_patchset(&bytes, 1, b"fid", 5), Err(Error::Constraint));
    assert_eq!(manifest.apply_patchset(&[1], 2, b"fid", 5), Err(Error::BadPatchset));
    assert!(!select_patchset(manifest.database(), 2));
}

#[test]
fn a_stream_in_pieces_is_split_as_a_whole() {
    let data = pseudo_random(1 << 20, 12345);
    let whole = split(&data);
    for piece in [1usize, 7, 64, 4096, 100_000, 1 << 20] {
        let mut splitter = Splitter::new();
        let mut chunks = Vec::new();
        for part in data.chunks(piece.max(500)) {
            chunks.extend(splitter.push(part));
        }
        chunks.extend(splitter.finish());
        assert_eq!(chunks, whole);
    }
    let mut byte_wise = Splitter::new();
    let mut chunks = Vec::new();
    for b in &data[..30_000] {
        chunks.extend(byte_wise.push(&[*b]));
    }
    chunks.extend(byte_wise.finish());
    assert_eq!(chunks, split(&data[..30_000]));
    assert_eq!(Splitter::new().finish(), None);
}

#[test]
fn blob_names_of_the_remote_parse() {
    assert_eq!(parse_name(&archive_name(12), b"archive_"), Some(12));
}

#[test]
fn a_session_ends_with_its_patchset() {
    let mut update = Manifest::open(open_connection()).update().unwrap();
    update.directory(b"/a", 0o755).unwrap();
    let ended = update.end_session(false).unwrap();
    let patchset = ended.patchset.unwrap();
    assert_eq!((patchset.id, patchset.name), (1, b"manifest_1".to_vec()));
    assert_eq!(decode_changes(&patchset.bytes).unwrap().len(), 1);
    assert!(select_patchset(ended.manifest.database(), 1));
    assert!(get_patchset(ended.manifest.database(), 1).unwrap().blob_file_id.is_none());
    assert!(ended.unused_archives.is_empty());

    let mut again = ended.manifest.update().unwrap();
    again.directory(b"/a", 0o755).unwrap();
    let ended = again.end_session(false).unwrap();
    assert!(ended.patchset.is_none());
    assert!(!select_patchset(ended.manifest.database(), 2));
}

#[test]
fn a_hundred_mebibytes_go_into_three_archives_and_one_patchset() {
    let data = pseudo_random(100 << 20, 2024);
    let mut remote = Remote::new();
    let (manifest, uploaded) =
        backup(Manifest::open(open_connection()), &mut remote, 50_000_000, &[(b"/a/f", &data)]);
    assert!(uploaded);
    let db = manifest.database();
    assert_eq!(remote.names(b"manifest_").len(), 1);
    let blocks = all_blocks(db);
    let total: u64 = blocks.iter().map(|b| b.2).sum();
    assert_eq!(total, 100 << 20);
    assert_eq!(remote.names(b"archive_").len() as u64, (total + 49_999_999) / 50_000_000);
    assert_eq!(b2_backup::database::select_archives(db).len(), 3);
}

#[test]
fn patchsets_that_were_never_uploaded_are_not_joined() {
    let mut manifest = Manifest::open(open_connection());
    manifest.begin_patchset().unwrap();
    manifest.begin_patchset().unwrap();
    assert_eq!(manifest.collect_small_patchsets(&config(1)).err(), Some(Error::NotUploaded));
}

#[test]
fn a_session_cannot_begin_without_an_archive_id() {
    let mut db = open_connection();
    b2_backup::database::resume_ids(&mut db, i64::MAX, 0);
    assert_eq!(Manifest::open(db).update().err(), Some(Error::IdsExhausted));
}

#[test]
fn a_kibibyte_appended_to_a_hundred_mebibytes_adds_two_blocks_at_most() {
    let mut data = pseudo_random(100 << 20, 2024);
    let mut remote = Remote::new();
    let (manifest, _) =
        backup(Manifest::open(open_connection()), &mut remote, 50_000_000, &[(b"/a/f", &data)]);
    let before = all_blocks(manifest.database()).len();
    data.extend_from_slice(&pseudo_random(1024, 4));
    let (manifest, uploaded) = backup(manifest, &mut remote, 50_000_000, &[(b"/a/f", &data)]);
    assert!(uploaded);
    let db = manifest.database();
    let file = get_file(db, select_file(db, b"/a/f").unwrap()).unwrap();
    assert_eq!(file.size, (100 << 20) + 1024);
    let added = all_blocks(db).iter().filter(|b| b.0 > before as i64).count();
    assert!(added >= 1 && added <= 2);
    assert_eq!(remote.names(b"manifest_").len(), 2);
}

#[test]
fn the_blocks_of_a_file_are_placed_one_behind_the_other() {
    let mut update = Manifest::open(open_connection()).update().unwrap();
    let id = update.open_file(b"/f", 9, 0).unwrap();
    let mut writer = FileWriter::new(id);
    assert_eq!((writer.new_file_id(), writer.offset()), (id, 0));
    assert!(writer.write(&mut update, 1000, b"abcd").unwrap().is_none());
    assert!(writer.write(&mut update, 1000, b"ef").unwrap().is_none());
    assert!(writer.write(&mut update, 1000, b"abcd").unwrap().is_none());
    assert_eq!(writer.offset(), 10);
    let file = b2_backup::database::get_new_file(update.database(), id).unwrap();
    assert_eq!(
        file.mappings,
        vec![
            Mapping { offset: 0, block_id: 1 },
            Mapping { offset: 4, block_id: 2 },
            Mapping { offset: 6, block_id: 1 },
        ]
    );
    let mut other = FileWriter::new(id);
    assert_eq!(other.write(&mut update, 1000, b"x").err(), Some(Error::Constraint));
    assert_eq!(other.offset(), 0);
}
