use b2_backup::database::{
    insert_block, insert_def_archive, insert_directory, insert_file, insert_mappings,
    insert_new_file, insert_new_mapping, insert_patchset, insert_symbolic_link, open_connection,
    update_archive, Database,
};
use b2_backup::error::Error;
use b2_backup::manifest::Manifest;
use b2_backup::plan::{order_patchsets, Blob};
use b2_backup::tables::Placement;

fn add_file(db: &mut Database, path: &[u8], size: u64, blocks: &[(u64, i64)]) -> i64 {
    let nf = insert_new_file(db, path, size, 0o640).unwrap();
    for (offset, block) in blocks {
        insert_new_mapping(db, nf, *offset, *block).unwrap();
    }
    let id = insert_file(db, nf).unwrap();
    insert_mappings(db, id, nf).unwrap();
    b2_backup::database::delete_new_file(db, nf);
    id
}

fn sample() -> Manifest {
    let mut db = open_connection();
    for _ in 0..2 {
        let a = insert_def_archive(&mut db).unwrap();
        update_archive(&mut db, a, 30, b"fid", 100);
    }
    insert_block(&mut db, &[1; 32], 10, 1, 0).unwrap();
    insert_block(&mut db, &[2; 32], 20, 1, 10).unwrap();
    insert_block(&mut db, &[3; 32], 5, 2, 0).unwrap();
    add_file(&mut db, b"/a/f", 35, &[(0, 2), (20, 3), (25, 1)]);
    add_file(&mut db, b"/a/sub/g", 10, &[(0, 1)]);
    add_file(&mut db, b"/b/h", 0, &[]);
    insert_directory(&mut db, b"/a", 0o755).unwrap();
    insert_directory(&mut db, b"/a/sub", 0o700).unwrap();
    insert_directory(&mut db, b"/b", 0o711).unwrap();
    insert_symbolic_link(&mut db, b"/a/l", b"f").unwrap();
    insert_patchset(&mut db, 3, b"p3", 10).unwrap();
    Manifest::open(db)
}

fn blob(name: &str) -> Blob {
    Blob { name: name.as_bytes().to_vec(), file_id: format!("id-{}", name).into_bytes(), length: 1 }
}

#[test]
fn a_restore_creates_what_passes_the_filter() {
    let plan = sample().restore_files(None).unwrap();
    let files: Vec<(Vec<u8>, u64, u32)> = plan.files.iter().map(|f| (f.path.clone(), f.size, f.mode)).collect();
    assert_eq!(
        files,
        vec![(b"a/f".to_vec(), 35, 0o640), (b"a/sub/g".to_vec(), 10, 0o640), (b"b/h".to_vec(), 0, 0o640)]
    );
    let dirs: Vec<(Vec<u8>, u32)> = plan.directories.iter().map(|d| (d.path.clone(), d.mode)).collect();
    assert_eq!(dirs, vec![(b"a".to_vec(), 0o755), (b"a/sub".to_vec(), 0o700), (b"b".to_vec(), 0o711)]);
    assert_eq!(plan.symbolic_links.len(), 1);
    assert_eq!((plan.symbolic_links[0].path.clone(), plan.symbolic_links[0].target.clone()), (b"a/l".to_vec(), b"f".to_vec()));
}

#[test]
fn a_restore_fetches_every_archive_once_and_copies_every_block() {
    let plan = sample().restore_files(None).unwrap();
    let ids: Vec<i64> = plan.archives.iter().map(|a| a.archive_id).collect();
    assert_eq!(ids, vec![1, 2]);
    assert_eq!(plan.archives[0].name, b"archive_1".to_vec());
    let first = &plan.archives[0];
    assert_eq!(first.files.len(), 2);
    assert_eq!(first.files[0].path, b"a/f".to_vec());
    assert_eq!(
        first.files[0].copies,
        vec![
            Placement { length: 10, archive_id: 1, archive_off: 0, offset: 25 },
            Placement { length: 20, archive_id: 1, archive_off: 10, offset: 0 },
        ]
    );
    assert_eq!(first.files[1].path, b"a/sub/g".to_vec());
    assert_eq!(first.files[1].copies, vec![Placement { length: 10, archive_id: 1, archive_off: 0, offset: 0 }]);
    let second = &plan.archives[1];
    assert_eq!(second.files.len(), 1);
    assert_eq!(second.files[0].copies, vec![Placement { length: 5, archive_id: 2, archive_off: 0, offset: 20 }]);
    // the copies of a file cover it without gap or overlap
    let mut spans: Vec<(u64, u64)> = plan
        .archives
        .iter()
        .flat_map(|a| a.files.iter())
        .filter(|f| f.path == b"a/f".to_vec())
        .flat_map(|f| f.copies.iter().map(|c| (c.offset, c.length)))
        .collect();
    spans.sort();
    assert_eq!(spans, vec![(0, 20), (20, 5), (25, 10)]);
}

#[test]
fn a_restore_with_a_filter_leaves_the_rest() {
    let plan = sample().restore_files(Some(b"/a/sub*")).unwrap();
    assert_eq!(plan.files.len(), 1);
    assert_eq!(plan.directories.len(), 1);
    assert!(plan.symbolic_links.is_empty());
    assert_eq!(plan.archives.len(), 1);
    assert_eq!(plan.archives[0].archive_id, 1);
    assert_eq!(plan.archives[0].files.len(), 1);
    let none = sample().restore_files(Some(b"/zzz")).unwrap();
    assert!(none.files.is_empty() && none.archives.is_empty() && none.directories.is_empty());
}

#[test]
fn a_restore_refuses_a_path_that_is_not_rooted() {
    let mut db = open_connection();
    insert_directory(&mut db, b"rel", 0o755).unwrap();
    insert_directory(&mut db, b"/abs", 0o755).unwrap();
    let manifest = Manifest::open(db);
    assert_eq!(manifest.restore_files(None).err(), Some(Error::NotAbsolute));
    assert!(manifest.restore_files(Some(b"/a*")).is_ok());
}

#[test]
fn a_listing_counts_blocks_archives_and_files() {
    let listing = sample().list_files(None);
    let files: Vec<(Vec<u8>, u64, usize, usize)> =
        listing.files.iter().map(|f| (f.path.clone(), f.size, f.archives, f.blocks)).collect();
    assert_eq!(
        files,
        vec![(b"/a/f".to_vec(), 35, 2, 3), (b"/a/sub/g".to_vec(), 10, 1, 1), (b"/b/h".to_vec(), 0, 0, 0)]
    );
    let dirs: Vec<(Vec<u8>, usize)> = listing.directories.iter().map(|d| (d.path.clone(), d.files)).collect();
    assert_eq!(dirs, vec![(b"/a".to_vec(), 2), (b"/a/sub".to_vec(), 1), (b"/b".to_vec(), 1)]);
    assert_eq!(listing.symbolic_links.len(), 1);
    assert_eq!(listing.symbolic_links[0].path, b"/a/l".to_vec());
    let some = sample().list_files(Some(b"/b*"));
    assert_eq!((some.files.len(), some.directories.len(), some.symbolic_links.len()), (1, 1, 0));
}

#[test]
fn a_purge_removes_the_blobs_that_the_manifest_does_not_know() {
    let manifest = sample();
    let patchsets = vec![blob("manifest_1"), blob("manifest_3"), blob("manifest_4")];
    let archives = vec![blob("archive_2"), blob("archive_9"), blob("archive_1"), blob("archive_0")];
    let purge = manifest.purge_storage(&patchsets, &archives).unwrap();
    assert_eq!(purge.patchsets, vec![0, 2]);
    assert_eq!(purge.archives, vec![1, 3]);
    let nothing = manifest.purge_storage(&Vec::new(), &Vec::new()).unwrap();
    assert!(nothing.patchsets.is_empty() && nothing.archives.is_empty());
}

#[test]
fn a_purge_refuses_a_name_without_an_id() {
    let manifest = sample();
    assert_eq!(manifest.purge_storage(&vec![blob("manifest_x")], &Vec::new()).err(), Some(Error::BadName));
    assert_eq!(manifest.purge_storage(&Vec::new(), &vec![blob("archive_1"), blob("archive_")]).err(), Some(Error::BadName));
}

#[test]
fn patchsets_are_applied_by_rising_id() {
    let blobs = vec![blob("manifest_10"), blob("manifest_2"), blob("manifest_33"), blob("manifest_1")];
    assert_eq!(order_patchsets(&blobs), Ok(vec![(1, 3), (2, 1), (10, 0), (33, 2)]));
    assert_eq!(order_patchsets(&Vec::new()), Ok(Vec::new()));
}

#[test]
fn of_patchsets_with_one_id_the_last_listed_is_applied() {
    let blobs = vec![blob("manifest_2"), blob("manifest_1"), blob("manifest_manifest_2"), blob("manifest_+1")];
    assert_eq!(order_patchsets(&blobs), Ok(vec![(1, 3), (2, 2)]));
}

#[test]
fn a_patchset_name_without_an_id_is_refused() {
    assert_eq!(order_patchsets(&vec![blob("manifest_1"), blob("manifest_one")]), Err(Error::BadName));
}
