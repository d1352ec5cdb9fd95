use b2_backup::database::{
    apply_change, archive_has_blocks, archive_is_mapped, block_is_mapped, blocks_length,
    clear_tables, delete_archive, delete_mappings, delete_new_file, delete_patchset,
    delete_unused_blocks, delete_unvisited_directories, delete_unvisited_files,
    delete_unvisited_symbolic_links, delete_visited_objects, get_archive, get_block,
    get_directory, get_file, get_new_file, get_patchset, get_symbolic_link, has_changes,
    insert_archive, insert_block, insert_def_archive, insert_def_patchset, insert_directory,
    insert_file, insert_mappings, insert_new_file, insert_new_mapping, insert_patchset,
    insert_symbolic_link, insert_visited_directory, insert_visited_file,
    insert_visited_symbolic_link, is_admissible, open_connection, patchsets_length_from,
    recorded_changes, reserve_archive_id, select_archive, select_archives_by_file,
    select_archives_by_path, select_block, select_blocks_by_archive, select_blocks_by_file,
    select_closed_new_files, select_directories_by_path, select_directory, select_file,
    select_files_by_path, select_files_by_path_and_archive, select_patchset,
    select_small_archives, select_small_patchsets, select_storage_used, select_symbolic_link,
    select_symbolic_links_by_path, select_unused_archives, start_recording, update_archive,
    update_block, update_directory, update_file, update_new_file, update_patchset,
    update_symbolic_link, Database,
};
use b2_backup::error::Error;
use b2_backup::rows::{Archive, Block, File, Mapping};
use b2_backup::tables::{Change, Placement};

fn digest(n: u8) -> Vec<u8> {
    vec![n; 32]
}

/// Two uploaded archives, three blocks, and a file `/a/f` that maps two of them.
fn sample() -> Database {
    let mut db = open_connection();
    let a1 = insert_def_archive(&mut db).unwrap();
    let a2 = insert_def_archive(&mut db).unwrap();
    update_archive(&mut db, a1, 30, b"fid1", 100);
    update_archive(&mut db, a2, 5, b"fid2", 50);
    insert_block(&mut db, &digest(1), 10, a1, 0).unwrap();
    insert_block(&mut db, &digest(2), 20, a1, 10).unwrap();
    insert_block(&mut db, &digest(3), 5, a2, 0).unwrap();
    let nf = insert_new_file(&mut db, b"/a/f", 15, 0o644).unwrap();
    insert_new_mapping(&mut db, nf, 0, 1).unwrap();
    insert_new_mapping(&mut db, nf, 10, 3).unwrap();
    let f = insert_file(&mut db, nf).unwrap();
    insert_mappings(&mut db, f, nf).unwrap();
    delete_new_file(&mut db, nf);
    db
}

#[test]
fn a_fresh_database_is_empty() {
    let db = open_connection();
    assert!(!select_archive(&db, 1));
    assert!(!select_patchset(&db, 1));
    assert_eq!(select_file(&db, b"/a"), None);
    assert_eq!(select_block(&db, &digest(1)), None);
    assert!(!has_changes(&db));
    assert_eq!(select_storage_used(&db), 0);
    assert!(select_unused_archives(&db).is_empty());
}

#[test]
fn patchsets_are_added_noted_and_deleted() {
    let mut db = open_connection();
    assert_eq!(insert_def_patchset(&mut db), Ok(1));
    assert_eq!(insert_def_patchset(&mut db), Ok(2));
    assert!(select_patchset(&db, 1));
    assert!(get_patchset(&db, 1).unwrap().blob_file_id.is_none());
    update_patchset(&mut db, 1, b"fid", 77);
    let row = get_patchset(&db, 1).unwrap();
    assert_eq!(row.blob_file_id, Some(b"fid".to_vec()));
    assert_eq!(row.blob_length, Some(77));
    update_patchset(&mut db, 9, b"none", 1);
    assert!(!select_patchset(&db, 9));
    delete_patchset(&mut db, 1);
    assert!(!select_patchset(&db, 1));
    // an id is not given out again
    assert_eq!(insert_def_patchset(&mut db), Ok(3));
}

#[test]
fn a_patchset_under_a_taken_id_is_refused() {
    let mut db = open_connection();
    assert_eq!(insert_patchset(&mut db, 7, b"a", 1), Ok(()));
    assert_eq!(insert_patchset(&mut db, 7, b"b", 2), Err(Error::Constraint));
    assert_eq!(get_patchset(&db, 7).unwrap().blob_length, Some(1));
    assert_eq!(insert_def_patchset(&mut db), Ok(8));
}

#[test]
fn patchsets_do_not_count_as_recorded_changes() {
    let mut db = open_connection();
    insert_def_patchset(&mut db).unwrap();
    assert!(!has_changes(&db));
}

#[test]
fn archives_are_added_and_noted() {
    let mut db = open_connection();
    assert_eq!(insert_def_archive(&mut db), Ok(1));
    assert!(select_archive(&db, 1));
    assert!(get_archive(&db, 1).unwrap().blob_file_id.is_none());
    update_archive(&mut db, 1, 10, b"fid", 20);
    let row = get_archive(&db, 1).unwrap();
    assert_eq!((row.length, row.blob_length), (Some(10), Some(20)));
    assert_eq!(row.blob_file_id, Some(b"fid".to_vec()));
    assert!(has_changes(&db));
}

#[test]
fn an_archive_id_can_be_set_aside_before_the_archive_is_added() {
    let mut db = open_connection();
    assert_eq!(reserve_archive_id(&mut db), Ok(1));
    assert!(!select_archive(&db, 1));
    assert!(!has_changes(&db));
    assert_eq!(insert_def_archive(&mut db), Ok(2));
    assert_eq!(insert_archive(&mut db, 1), Ok(()));
    assert_eq!(insert_archive(&mut db, 1), Err(Error::Constraint));
}

#[test]
fn deleting_an_archive_deletes_its_blocks() {
    let mut db = sample();
    let mut extra = insert_def_archive(&mut db).unwrap();
    insert_block(&mut db, &digest(9), 4, extra, 0).unwrap();
    assert!(archive_has_blocks(&db, extra));
    assert_eq!(delete_archive(&mut db, extra), Ok(()));
    assert!(!select_archive(&db, extra));
    assert_eq!(select_block(&db, &digest(9)), None);
    extra += 100;
    assert_eq!(delete_archive(&mut db, extra), Ok(()));
}

#[test]
fn an_archive_with_mapped_blocks_is_not_deleted() {
    let mut db = sample();
    assert!(archive_is_mapped(&db, 1));
    assert_eq!(delete_archive(&mut db, 1), Err(Error::Constraint));
    assert!(select_archive(&db, 1));
    assert_eq!(select_block(&db, &digest(1)), Some(1));
}

#[test]
fn blocks_are_found_by_digest() {
    let db = sample();
    assert_eq!(select_block(&db, &digest(2)), Some(2));
    assert_eq!(select_block(&db, &digest(7)), None);
    let row = get_block(&db, 2).unwrap();
    assert_eq!((row.length, row.archive_id, row.archive_off), (20, 1, 10));
}

#[test]
fn a_block_with_a_taken_digest_or_without_archive_is_refused() {
    let mut db = sample();
    assert_eq!(insert_block(&mut db, &digest(1), 1, 1, 99), Err(Error::Constraint));
    assert_eq!(insert_block(&mut db, &digest(8), 1, 77, 0), Err(Error::Constraint));
    assert_eq!(insert_block(&mut db, &digest(8), 1, 2, 5), Ok(4));
}

#[test]
fn a_block_is_moved_to_another_archive() {
    let mut db = sample();
    assert_eq!(update_block(&mut db, 2, 2, 5), Ok(()));
    let row = get_block(&db, 2).unwrap();
    assert_eq!((row.archive_id, row.archive_off, row.length), (2, 5, 20));
    assert_eq!(row.digest, digest(2));
    assert_eq!(update_block(&mut db, 2, 99, 0), Err(Error::Constraint));
    assert_eq!(update_block(&mut db, 99, 99, 0), Ok(()));
}

#[test]
fn files_are_made_from_new_files() {
    let db = sample();
    let id = select_file(&db, b"/a/f").unwrap();
    let file = get_file(&db, id).unwrap();
    assert_eq!((file.size, file.mode), (15, 0o644));
    assert_eq!(
        file.mappings,
        vec![Mapping { offset: 0, block_id: 1 }, Mapping { offset: 10, block_id: 3 }]
    );
    assert!(get_new_file(&db, 1).is_none());
}

#[test]
fn a_file_with_a_taken_path_is_refused() {
    let mut db = sample();
    let nf = insert_new_file(&mut db, b"/a/f", 1, 0).unwrap();
    assert_eq!(insert_file(&mut db, nf), Err(Error::Constraint));
    assert_eq!(insert_file(&mut db, nf + 50), Err(Error::InvalidNewFile));
}

#[test]
fn a_file_takes_size_and_mode_of_a_new_file() {
    let mut db = sample();
    let nf = insert_new_file(&mut db, b"/other", 99, 0o600).unwrap();
    assert_eq!(update_file(&mut db, 1, nf), Ok(()));
    let file = get_file(&db, 1).unwrap();
    assert_eq!((file.size, file.mode, file.mappings.len()), (99, 0o600, 2));
    assert_eq!(file.path, b"/a/f".to_vec());
    assert_eq!(update_file(&mut db, 1, nf + 1), Err(Error::InvalidNewFile));
    assert_eq!(update_file(&mut db, 77, nf), Ok(()));
}

#[test]
fn mappings_are_taken_from_and_given_to_a_file() {
    let mut db = sample();
    delete_mappings(&mut db, 1);
    assert!(get_file(&db, 1).unwrap().mappings.is_empty());
    assert!(!block_is_mapped(&db, 1));
    let nf = insert_new_file(&mut db, b"/n", 0, 0).unwrap();
    insert_new_mapping(&mut db, nf, 0, 2).unwrap();
    assert_eq!(insert_mappings(&mut db, 1, nf), Ok(()));
    assert_eq!(get_file(&db, 1).unwrap().mappings, vec![Mapping { offset: 0, block_id: 2 }]);
    assert!(block_is_mapped(&db, 2));
}

#[test]
fn mappings_that_break_the_tables_are_refused() {
    let mut db = sample();
    let taken = insert_new_file(&mut db, b"/n1", 0, 0).unwrap();
    insert_new_mapping(&mut db, taken, 10, 2).unwrap();
    assert_eq!(insert_mappings(&mut db, 1, taken), Err(Error::Constraint));
    let missing = insert_new_file(&mut db, b"/n2", 0, 0).unwrap();
    insert_new_mapping(&mut db, missing, 100, 99).unwrap();
    assert_eq!(insert_mappings(&mut db, 1, missing), Err(Error::Constraint));
    assert_eq!(insert_mappings(&mut db, 55, taken), Err(Error::Constraint));
    let empty = insert_new_file(&mut db, b"/n3", 0, 0).unwrap();
    assert_eq!(insert_mappings(&mut db, 55, empty), Ok(()));
    assert_eq!(insert_mappings(&mut db, 1, 999), Ok(()));
    assert_eq!(get_file(&db, 1).unwrap().mappings.len(), 2);
}

#[test]
fn directories_are_added_found_and_changed() {
    let mut db = open_connection();
    assert_eq!(insert_directory(&mut db, b"/a", 0o755), Ok(1));
    assert_eq!(insert_directory(&mut db, b"/a", 0o700), Err(Error::Constraint));
    assert_eq!(select_directory(&db, b"/a"), Some(1));
    assert_eq!(select_directory(&db, b"/b"), None);
    update_directory(&mut db, 1, 0o700);
    assert_eq!(get_directory(&db, 1).unwrap().mode, 0o700);
    update_directory(&mut db, 5, 0o700);
    assert!(get_directory(&db, 5).is_none());
}

#[test]
fn symbolic_links_are_added_found_and_changed() {
    let mut db = open_connection();
    assert_eq!(insert_symbolic_link(&mut db, b"/l", b"/a"), Ok(1));
    assert_eq!(insert_symbolic_link(&mut db, b"/l", b"/b"), Err(Error::Constraint));
    assert_eq!(select_symbolic_link(&db, b"/l"), Some(1));
    assert_eq!(select_symbolic_link(&db, b"/m"), None);
    update_symbolic_link(&mut db, 1, b"/c");
    assert_eq!(get_symbolic_link(&db, 1).unwrap().target, b"/c".to_vec());
}

#[test]
fn a_change_that_changes_nothing_is_not_recorded() {
    let mut db = open_connection();
    insert_directory(&mut db, b"/a", 0o755).unwrap();
    insert_symbolic_link(&mut db, b"/l", b"/a").unwrap();
    start_recording(&mut db);
    update_directory(&mut db, 1, 0o755);
    update_symbolic_link(&mut db, 1, b"/a");
    assert!(!has_changes(&db));
    update_directory(&mut db, 1, 0o700);
    assert!(has_changes(&db));
    assert_eq!(recorded_changes(&db).len(), 1);
}

#[test]
fn new_files_take_mappings_at_free_offsets() {
    let mut db = open_connection();
    let nf = insert_new_file(&mut db, b"/f", 3, 0o600).unwrap();
    assert_eq!(insert_new_file(&mut db, b"/f", 3, 0o600), Err(Error::Constraint));
    assert_eq!(insert_new_mapping(&mut db, nf, 0, 1), Ok(()));
    assert_eq!(insert_new_mapping(&mut db, nf, 0, 2), Err(Error::Constraint));
    assert_eq!(insert_new_mapping(&mut db, nf + 1, 0, 2), Err(Error::Constraint));
    assert!(!get_new_file(&db, nf).unwrap().closed);
    update_new_file(&mut db, nf);
    assert!(get_new_file(&db, nf).unwrap().closed);
    delete_visited_objects(&mut db);
    assert!(get_new_file(&db, nf).is_none());
}

#[test]
fn only_closed_new_files_in_uploaded_archives_can_become_files() {
    let mut db = sample();
    let pending = insert_def_archive(&mut db).unwrap();
    let fresh = insert_block(&mut db, &digest(5), 1, pending, 0).unwrap();
    let open = insert_new_file(&mut db, b"/open", 0, 0).unwrap();
    let waits = insert_new_file(&mut db, b"/waits", 0, 0).unwrap();
    insert_new_mapping(&mut db, waits, 0, fresh).unwrap();
    update_new_file(&mut db, waits);
    let done = insert_new_file(&mut db, b"/done", 0, 0).unwrap();
    insert_new_mapping(&mut db, done, 0, 1).unwrap();
    update_new_file(&mut db, done);
    assert_eq!(select_closed_new_files(&db), vec![(done, b"/done".to_vec())]);
    update_archive(&mut db, pending, 1, b"fid", 1);
    let mut ids: Vec<i64> = select_closed_new_files(&db).into_iter().map(|p| p.0).collect();
    ids.sort();
    assert_eq!(ids, vec![waits, done]);
    assert!(open != waits);
}

#[test]
fn rows_that_were_not_seen_are_deleted() {
    let mut db = sample();
    insert_directory(&mut db, b"/a", 0o755).unwrap();
    insert_directory(&mut db, b"/gone", 0o755).unwrap();
    insert_symbolic_link(&mut db, b"/l", b"/a").unwrap();
    insert_visited_directory(&mut db, 1);
    assert_eq!(delete_unvisited_directories(&mut db), 1);
    assert_eq!(select_directory(&db, b"/gone"), None);
    assert_eq!(select_directory(&db, b"/a"), Some(1));
    assert_eq!(delete_unvisited_symbolic_links(&mut db), 1);
    insert_visited_file(&mut db, 1);
    assert_eq!(delete_unvisited_files(&mut db), 0);
    delete_visited_objects(&mut db);
    assert_eq!(delete_unvisited_files(&mut db), 1);
    assert_eq!(select_file(&db, b"/a/f"), None);
    insert_visited_symbolic_link(&mut db, 1);
}

#[test]
fn blocks_that_no_file_maps_are_deleted() {
    let mut db = sample();
    assert_eq!(delete_unused_blocks(&mut db), 1);
    assert_eq!(select_block(&db, &digest(2)), None);
    assert_eq!(select_block(&db, &digest(1)), Some(1));
    assert_eq!(select_block(&db, &digest(3)), Some(3));
    assert_eq!(delete_unused_blocks(&mut db), 0);
}

#[test]
fn archives_without_blocks_are_unused() {
    let mut db = sample();
    assert!(select_unused_archives(&db).is_empty());
    let empty = insert_def_archive(&mut db).unwrap();
    assert_eq!(select_unused_archives(&db), vec![(empty, None)]);
    update_archive(&mut db, empty, 0, b"fid3", 40);
    assert_eq!(select_unused_archives(&db), vec![(empty, Some(b"fid3".to_vec()))]);
}

#[test]
fn paths_are_selected_by_a_filter() {
    let mut db = sample();
    insert_directory(&mut db, b"/a", 0o755).unwrap();
    insert_directory(&mut db, b"/b", 0o755).unwrap();
    insert_symbolic_link(&mut db, b"/a/l", b"f").unwrap();
    assert_eq!(select_files_by_path(&db, None), vec![1]);
    assert_eq!(select_files_by_path(&db, Some(b"/a/*")), vec![1]);
    assert!(select_files_by_path(&db, Some(b"/b/*")).is_empty());
    assert_eq!(select_directories_by_path(&db, None), vec![1, 2]);
    assert_eq!(select_directories_by_path(&db, Some(b"/b")), vec![2]);
    assert_eq!(select_symbolic_links_by_path(&db, Some(b"*l")), vec![1]);
    assert!(select_symbolic_links_by_path(&db, Some(b"/b*")).is_empty());
}

#[test]
fn archives_and_files_are_selected_by_what_they_hold() {
    let db = sample();
    assert_eq!(select_archives_by_path(&db, None), vec![1, 2]);
    assert!(select_archives_by_path(&db, Some(b"/none")).is_empty());
    assert_eq!(select_files_by_path_and_archive(&db, None, 2), vec![1]);
    assert!(select_files_by_path_and_archive(&db, Some(b"/x"), 2).is_empty());
    assert!(select_files_by_path_and_archive(&db, None, 3).is_empty());
    assert_eq!(select_archives_by_file(&db, 1), vec![1, 2]);
    assert!(select_archives_by_file(&db, 9).is_empty());
}

#[test]
fn blocks_of_an_archive_come_in_the_order_of_their_places() {
    let mut db = sample();
    update_block(&mut db, 1, 1, 500).unwrap();
    let blocks = select_blocks_by_archive(&db, 1);
    let places: Vec<(i64, u64)> = blocks.iter().map(|b| (b.id, b.archive_off)).collect();
    assert_eq!(places, vec![(2, 10), (1, 500)]);
    assert_eq!(blocks[0].digest, digest(2));
    assert!(select_blocks_by_archive(&db, 9).is_empty());
}

#[test]
fn blocks_of_a_file_come_by_archive_and_place() {
    let mut db = sample();
    let nf = insert_new_file(&mut db, b"/n", 0, 0).unwrap();
    insert_new_mapping(&mut db, nf, 15, 2).unwrap();
    insert_mappings(&mut db, 1, nf).unwrap();
    let all = select_blocks_by_file(&db, 1, None);
    assert_eq!(
        all,
        vec![
            Placement { length: 10, archive_id: 1, archive_off: 0, offset: 0 },
            Placement { length: 20, archive_id: 1, archive_off: 10, offset: 15 },
            Placement { length: 5, archive_id: 2, archive_off: 0, offset: 10 },
        ]
    );
    assert_eq!(
        select_blocks_by_file(&db, 1, Some(2)),
        vec![Placement { length: 5, archive_id: 2, archive_off: 0, offset: 10 }]
    );
    assert!(select_blocks_by_file(&db, 1, Some(3)).is_empty());
    assert!(select_blocks_by_file(&db, 7, None).is_empty());
}

#[test]
fn small_archives_come_with_the_fewest_bytes_first() {
    let mut db = sample();
    assert_eq!(blocks_length(&db, 1), 30);
    assert_eq!(blocks_length(&db, 2), 5);
    assert_eq!(select_small_archives(&db, 31), vec![2, 1]);
    assert_eq!(select_small_archives(&db, 30), vec![2]);
    assert!(select_small_archives(&db, 5).is_empty());
    // an archive without blocks is not small, and among equals the longer blob is first
    let a3 = insert_def_archive(&mut db).unwrap();
    let a4 = insert_def_archive(&mut db).unwrap();
    update_archive(&mut db, a4, 5, b"fid4", 60);
    insert_block(&mut db, &digest(4), 5, a4, 0).unwrap();
    assert_eq!(select_small_archives(&db, 31), vec![a4, 2, 1]);
    assert!(!select_small_archives(&db, 31).contains(&a3));
}

#[test]
fn small_patchsets_are_the_tail_below_the_limit() {
    let mut db = open_connection();
    insert_patchset(&mut db, 1, b"f1", 100).unwrap();
    insert_patchset(&mut db, 2, b"f2", 30).unwrap();
    insert_patchset(&mut db, 3, b"f3", 20).unwrap();
    insert_patchset(&mut db, 4, b"f4", 10).unwrap();
    assert_eq!(patchsets_length_from(&db, 2), 60);
    assert_eq!(
        select_small_patchsets(&db, 61),
        vec![(4, Some(b"f4".to_vec())), (3, Some(b"f3".to_vec())), (2, Some(b"f2".to_vec()))]
    );
    assert_eq!(select_small_patchsets(&db, 60).len(), 2);
    assert_eq!(select_small_patchsets(&db, 10).len(), 0);
    assert_eq!(select_small_patchsets(&db, 1000).len(), 4);
    assert_eq!(select_storage_used(&db), 160);
}

#[test]
fn storage_used_counts_patchsets_and_archives() {
    let mut db = sample();
    insert_patchset(&mut db, 1, b"p", 7).unwrap();
    assert_eq!(select_storage_used(&db), 157);
}

#[test]
fn recorded_changes_rebuild_the_tables() {
    let db = sample();
    let changes = recorded_changes(&db);
    assert!(changes.len() >= 7);
    let mut copy = open_connection();
    for c in changes {
        assert!(apply_change(&mut copy, c));
    }
    assert_eq!(select_file(&copy, b"/a/f"), Some(1));
    assert_eq!(get_file(&copy, 1).unwrap().mappings, get_file(&db, 1).unwrap().mappings);
    assert_eq!(select_block(&copy, &digest(3)), Some(3));
    assert_eq!(get_archive(&copy, 2).unwrap().blob_file_id, Some(b"fid2".to_vec()));
    assert_eq!(insert_def_archive(&mut copy), Ok(3));
}

#[test]
fn changes_that_break_the_tables_are_left_out() {
    let mut db = sample();
    let orphan = Change::PutBlock {
        row: Block { id: 9, digest: digest(9), length: 1, archive_id: 77, archive_off: 0 },
        fresh: true,
    };
    assert!(!is_admissible(&db, &orphan));
    assert!(!apply_change(&mut db, orphan));
    assert!(get_block(&db, 9).is_none());
    let twin = Change::PutBlock {
        row: Block { id: 9, digest: digest(1), length: 1, archive_id: 1, archive_off: 0 },
        fresh: true,
    };
    assert!(!apply_change(&mut db, twin));
    let stale = Change::PutArchive {
        row: Archive { id: 50, length: None, blob_file_id: None, blob_length: None },
        fresh: false,
    };
    assert!(!apply_change(&mut db, stale));
    let dangling = Change::PutFile {
        row: File {
            id: 5,
            path: b"/x".to_vec(),
            size: 0,
            mode: 0,
            mappings: vec![Mapping { offset: 0, block_id: 99 }],
        },
        fresh: true,
    };
    assert!(!apply_change(&mut db, dangling));
    let doubled = Change::PutFile {
        row: File {
            id: 5,
            path: b"/x".to_vec(),
            size: 0,
            mode: 0,
            mappings: vec![Mapping { offset: 3, block_id: 1 }, Mapping { offset: 3, block_id: 2 }],
        },
        fresh: true,
    };
    assert!(!apply_change(&mut db, doubled));
    assert!(!apply_change(&mut db, Change::DeleteBlock { id: 1 }));
    assert!(!apply_change(&mut db, Change::DeleteArchive { id: 1 }));
    assert!(apply_change(&mut db, Change::DeleteBlock { id: 2 }));
    assert!(apply_change(&mut db, Change::DeleteFile { id: 1 }));
    assert!(apply_change(&mut db, Change::DeleteArchive { id: 1 }));
    assert!(get_block(&db, 1).is_none());
}

#[test]
fn a_change_of_an_existing_row_replaces_it() {
    let mut db = sample();
    let replace = Change::PutArchive {
        row: Archive { id: 1, length: Some(1), blob_file_id: Some(b"new".to_vec()), blob_length: Some(2) },
        fresh: true,
    };
    assert!(apply_change(&mut db, replace));
    assert_eq!(get_archive(&db, 1).unwrap().blob_file_id, Some(b"new".to_vec()));
}

#[test]
fn clearing_the_tables_leaves_nothing() {
    let mut db = sample();
    insert_patchset(&mut db, 1, b"p", 7).unwrap();
    clear_tables(&mut db);
    assert_eq!(select_file(&db, b"/a/f"), None);
    assert!(!select_archive(&db, 1));
    assert!(!select_patchset(&db, 1));
    assert!(!has_changes(&db));
    assert_eq!(insert_def_archive(&mut db), Ok(3));
}

#[test]
fn a_table_that_has_given_out_its_last_id_gives_none() {
    let mut db = open_connection();
    insert_patchset(&mut db, i64::MAX, b"p", 1).unwrap();
    assert_eq!(insert_def_patchset(&mut db), Err(Error::IdsExhausted));
    b2_backup::database::resume_ids(&mut db, i64::MAX, 0);
    assert_eq!(insert_def_archive(&mut db), Err(Error::IdsExhausted));
    assert_eq!(reserve_archive_id(&mut db), Err(Error::IdsExhausted));
    assert_eq!(b2_backup::database::last_archive_id(&db), i64::MAX);
    assert_eq!(b2_backup::database::last_patchset_id(&db), i64::MAX);
}

#[test]
fn all_rows_of_a_table_are_listed() {
    let mut db = sample();
    insert_patchset(&mut db, 4, b"p", 1).unwrap();
    assert_eq!(b2_backup::database::select_archives(&db), vec![1, 2]);
    assert_eq!(b2_backup::database::select_blocks(&db), vec![1, 2, 3]);
    assert_eq!(b2_backup::database::select_patchsets(&db), vec![4]);
}
