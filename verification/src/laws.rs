//! What holds of the library as a whole.

use crate::codec::{changes_of, decoded, unframes};
use crate::database::pair_ids;
use crate::digest::blake3_hash;
use crate::error::Error;
use crate::manifest::{
    block_stored, collected, deduplicated, promotion_done, promotion_kept, session_closed, swept,
    Sealed, UpdateView,
};
use crate::manifest::block_with;
use crate::rows::{BlockView, Mapping};
use crate::split::{concat, lemma_concat_one_more};
use crate::manifest::{update_wf, uploaded};
use crate::tables::{block_pending, has_digest, noted, settled};
use crate::rows::opt_bytes;
use crate::tables::{archive_used, empty_tables, replay, ChangeView, State, Tables};
use vstd::prelude::*;

verus! {

/// The changes of a run of sessions, one after the other.
pub open spec fn joined(logs: Seq<Seq<ChangeView>>) -> Seq<ChangeView>
    decreases logs.len(),
{
    if logs.len() == 0 {
        Seq::empty()
    } else {
        joined(logs.drop_last()) + logs.last()
    }
}

/// Replaying the patchsets of all sessions rebuilds the manifest.
///
/// Let every session find the manifest as the session before it left it, the first
/// one finding it empty, and let the changes that each session recorded, applied to
/// what it found, give what it left. Then the changes of all sessions, applied in
/// order to the empty manifest, give the manifest that the last session left.
pub proof fn lemma_replay_rebuilds(states: Seq<Tables>, logs: Seq<Seq<ChangeView>>)
    requires
        states.len() == logs.len() + 1,
        states[0] == empty_tables(),
        forall|i: int| 0 <= i < logs.len() ==>
            replay(states[i], #[trigger] logs[i]) == states[i + 1],
    ensures
        replay(empty_tables(), joined(logs)) == states.last(),
    decreases logs.len(),
{
    if logs.len() > 0 {
        lemma_replay_rebuilds(states.drop_last(), logs.drop_last());
        crate::tables::lemma_replay_concat(empty_tables(), joined(logs.drop_last()), logs.last());
        assert(states.drop_last().last() == states[logs.len() - 1]);
    }
}

/// Storing a block that is known adds no block and writes no byte: the tables, the
/// recorded changes and the archive in the making stay as they are.
pub proof fn lemma_known_block_adds_nothing(
    u: UpdateView,
    new_file_id: int,
    offset: u64,
    digest: Seq<u8>,
)
    ensures
        deduplicated(u, new_file_id, offset, digest).db.tables == u.db.tables,
        deduplicated(u, new_file_id, offset, digest).db.log == u.db.log,
        deduplicated(u, new_file_id, offset, digest).db.last == u.db.last,
        deduplicated(u, new_file_id, offset, digest).archive_id == u.archive_id,
        deduplicated(u, new_file_id, offset, digest).archive_len == u.archive_len,
        deduplicated(u, new_file_id, offset, digest).blocks == u.blocks,
{
}

/// Fields that are written one run after another are read as one run.
pub proof fn lemma_unframes_concat(a: Seq<u8>, b: Seq<u8>)
    requires
        unframes(a) is Some,
        unframes(b) is Some,
    ensures
        unframes(a + b) == Some(unframes(a).unwrap() + unframes(b).unwrap()),
    decreases a.len(),
{
    if a.len() == 0 {
        assert(a + b =~= b);
        assert(unframes(a).unwrap() + unframes(b).unwrap() =~= unframes(b).unwrap());
    } else {
        let n = vstd::bytes::spec_u64_from_le_bytes(a.take(8)) as int;
        let ab = a + b;
        assert(ab.take(8) =~= a.take(8));
        assert(ab.skip(8 + n) =~= a.skip(8 + n) + b);
        assert(ab.subrange(8, 8 + n) =~= a.subrange(8, 8 + n));
        lemma_unframes_concat(a.skip(8 + n), b);
        let rest = unframes(a.skip(8 + n)).unwrap();
        assert(seq![a.subrange(8, 8 + n)] + (rest + unframes(b).unwrap()) =~= (seq![
            a.subrange(8, 8 + n),
        ] + rest) + unframes(b).unwrap());
    }
}

/// Changes whose fields follow one another are read one after the other.
pub proof fn lemma_changes_of_concat(f: Seq<Seq<u8>>, g: Seq<Seq<u8>>)
    requires
        changes_of(f) is Some,
        changes_of(g) is Some,
    ensures
        changes_of(f + g) == Some(changes_of(f).unwrap() + changes_of(g).unwrap()),
    decreases f.len(),
{
    if f.len() == 0 {
        assert(f + g =~= g);
        assert(changes_of(f).unwrap() + changes_of(g).unwrap() =~= changes_of(g).unwrap());
    } else {
        let kind = crate::codec::as_num(f[0]).unwrap();
        let n = crate::codec::fields_after(kind).unwrap() as int;
        let fg = f + g;
        assert(fg[0] == f[0]);
        assert(fg.subrange(1, 1 + n) =~= f.subrange(1, 1 + n));
        assert(fg.skip(1 + n) =~= f.skip(1 + n) + g);
        lemma_changes_of_concat(f.skip(1 + n), g);
        let c = crate::codec::change_from(kind, f.subrange(1, 1 + n)).unwrap();
        let rest = changes_of(f.skip(1 + n)).unwrap();
        assert(seq![c] + (rest + changes_of(g).unwrap()) =~= (seq![c] + rest) + changes_of(
            g,
        ).unwrap());
    }
}

/// A patchset joined from two holds the changes of the first, then those of the
/// second: applying it is applying the one after the other.
pub proof fn lemma_joined_patchsets(t: Tables, a: Seq<u8>, b: Seq<u8>)
    requires
        decoded(a) is Some,
        decoded(b) is Some,
    ensures
        decoded(a + b) == Some(decoded(a).unwrap() + decoded(b).unwrap()),
        replay(t, decoded(a + b).unwrap())
            == replay(replay(t, decoded(a).unwrap()), decoded(b).unwrap()),
{
    lemma_unframes_concat(a, b);
    lemma_changes_of_concat(unframes(a).unwrap(), unframes(b).unwrap());
    crate::tables::lemma_replay_concat(t, decoded(a).unwrap(), decoded(b).unwrap());
}

/// One of `unused` is the archive with id `a`, and holds the id of the blob `blob`.
pub open spec fn lists_archive(unused: Seq<(i64, Option<Vec<u8>>)>, a: int,
    blob: Option<Seq<u8>>) -> bool {
    exists|k: int| 0 <= k < unused.len() && (#[trigger] unused[k]).0 == a
        && opt_bytes(unused[k].1) == blob
}

/// An archive that a session deletes is handed out for the removal of its blob.
///
/// If an archive of the manifest is gone when the session has ended, because no block
/// lies in it any more, then the session lists it among the unused archives, with the
/// id of its blob as the manifest held it.
pub proof fn lemma_deleted_archive_is_listed(
    start: State,
    keep_unvisited_files: bool,
    tables: Tables,
    unused: Seq<(i64, Option<Vec<u8>>)>,
    a: int,
)
    requires
        session_closed(start, keep_unvisited_files, tables, unused),
        start.tables.archives.contains_key(a),
        !tables.archives.contains_key(a),
    ensures
        lists_archive(unused, a, start.tables.archives[a].blob_file_id),
{
    let before = choose|before: State|
        {
            &&& promotion_done(start, before)
            &&& tables == collected(before, keep_unvisited_files)
            &&& forall|id: int|
                pair_ids(unused).contains(id) <==>
                    #[trigger] before.tables.archives.contains_key(id)
                    && !archive_used(swept(before, keep_unvisited_files), id)
            &&& forall|k: int|
                0 <= k < unused.len() ==> before.tables.archives.contains_key(
                    (#[trigger] unused[k]).0 as int,
                ) && opt_bytes(unused[k].1)
                    == before.tables.archives[unused[k].0 as int].blob_file_id
        };
    assert(promotion_kept(start, before));
    assert(before.tables.archives == start.tables.archives);
    assert(before.tables.archives.contains_key(a));
    assert(!archive_used(swept(before, keep_unvisited_files), a));
    assert(pair_ids(unused).contains(a));
    let k = pair_ids(unused).index_of(a);
    assert(unused[k].0 == a);
}

/// Whether the block `blocks[k]` is stored into the update `states[k]` and gives the
/// update `states[k + 1]`, the block being new and the archive in the making not full
/// with it.
pub open spec fn added_at(
    states: Seq<UpdateView>,
    blocks: Seq<Seq<u8>>,
    files: Seq<int>,
    offsets: Seq<u64>,
    min_archive_len: u64,
    k: int,
) -> bool {
    &&& !has_digest(states[k].db.tables, blake3_hash(blocks[k]))
    &&& block_stored(
        states[k],
        states[k + 1],
        min_archive_len,
        files[k],
        offsets[k],
        blocks[k],
        Ok::<Option<Sealed>, Error>(None),
    )
}

/// Whether `states` is a run of updates in which one block after the other is stored
/// into the same archive in the making: `blocks[k]` at `offsets[k]` of the new file
/// `files[k]`, each block being new when it is stored.
pub open spec fn adds_blocks(
    states: Seq<UpdateView>,
    blocks: Seq<Seq<u8>>,
    files: Seq<int>,
    offsets: Seq<u64>,
    min_archive_len: u64,
) -> bool {
    &&& states.len() == blocks.len() + 1
    &&& files.len() == blocks.len()
    &&& offsets.len() == blocks.len()
    &&& forall|k: int|
        0 <= k < blocks.len() ==> #[trigger] added_at(
            states,
            blocks,
            files,
            offsets,
            min_archive_len,
            k,
        )
}

/// Whether the `k`-th block of a run that began with the update `first` is in the
/// update `now` where the run put it: under the `k`-th id after those that `first`
/// had, in the archive in the making, behind the bytes that the archive had and the
/// blocks stored before it.
pub open spec fn lies_in_order(
    first: UpdateView,
    now: UpdateView,
    blocks: Seq<Seq<u8>>,
    k: int,
) -> bool {
    let id = first.db.last.block + 1 + k;
    &&& now.db.tables.blocks.contains_key(id)
    &&& now.db.tables.blocks[id] == (BlockView {
        id,
        digest: blake3_hash(blocks[k]),
        length: blocks[k].len() as u64,
        archive_id: first.archive_id as int,
        archive_off: (first.archive_len + concat(blocks.take(k)).len()) as u64,
    })
}

/// An archive holds its blocks in the order in which they were stored.
///
/// Let one new block after the other be stored into the same archive in the making.
/// Then after `n` of them the bytes of the archive are the bytes that it had, followed
/// by the blocks in the order in which they were stored and by nothing else, and each
/// block lies where the bytes before it end.
pub proof fn lemma_blocks_in_order(
    states: Seq<UpdateView>,
    blocks: Seq<Seq<u8>>,
    files: Seq<int>,
    offsets: Seq<u64>,
    min_archive_len: u64,
    n: int,
)
    requires
        adds_blocks(states, blocks, files, offsets, min_archive_len),
        0 <= n <= blocks.len(),
    ensures
        states[n].archive_id == states[0].archive_id,
        states[n].archive_len == states[0].archive_len + concat(blocks.take(n)).len(),
        states[n].blocks == states[0].blocks + concat(blocks.take(n)),
        states[n].db.last.block == states[0].db.last.block + n,
        forall|k: int| 0 <= k < n ==> #[trigger] lies_in_order(states[0], states[n], blocks, k),
    decreases n,
{
    if n == 0 {
        assert(blocks.take(0) =~= Seq::<Seq<u8>>::empty());
        assert(states[0].blocks + concat(blocks.take(0)) =~= states[0].blocks);
    } else {
        lemma_blocks_in_order(states, blocks, files, offsets, min_archive_len, n - 1);
        assert(added_at(states, blocks, files, offsets, min_archive_len, n - 1));
        lemma_concat_one_more(blocks.take(n - 1), blocks[n - 1]);
        assert(blocks.take(n) =~= blocks.take(n - 1).push(blocks[n - 1]));
        assert(states[n].blocks =~= states[0].blocks + concat(blocks.take(n)));
        assert forall|k: int| 0 <= k < n implies #[trigger] lies_in_order(
            states[0],
            states[n],
            blocks,
            k,
        ) by {
            if k < n - 1 {
                assert(lies_in_order(states[0], states[n - 1], blocks, k));
            }
        }
    }
}

/// The id of the block that a mapping names once `block` was stored into the update
/// `u`: that of the block with its digest if one is known, else the next id.
pub open spec fn stored_id(u: UpdateView, block: Seq<u8>) -> i64 {
    if has_digest(u.db.tables, blake3_hash(block)) {
        block_with(u.db.tables, blake3_hash(block)) as i64
    } else {
        (u.db.last.block + 1) as i64
    }
}

/// Whether the block `blocks[k]` of a file is stored into the update `updates[k]`
/// where the blocks before it end, with `results[k]` as the outcome, a success, and
/// `updates[k + 1]` as the update afterwards.
pub open spec fn wrote_at(
    updates: Seq<UpdateView>,
    blocks: Seq<Seq<u8>>,
    results: Seq<Result<Option<Sealed>, Error>>,
    new_file_id: int,
    min_archive_len: u64,
    k: int,
) -> bool {
    &&& concat(blocks.take(k)).len() <= u64::MAX
    &&& results[k] is Ok
    &&& block_stored(
        updates[k],
        updates[k + 1],
        min_archive_len,
        new_file_id,
        concat(blocks.take(k)).len() as u64,
        blocks[k],
        results[k],
    )
}

/// Whether `updates` is a run in which the blocks of one new file are stored one after
/// the other, each where the blocks before it end, as a file writer stores them.
pub open spec fn writes_file(
    updates: Seq<UpdateView>,
    blocks: Seq<Seq<u8>>,
    results: Seq<Result<Option<Sealed>, Error>>,
    new_file_id: int,
    min_archive_len: u64,
) -> bool {
    &&& updates.len() == blocks.len() + 1
    &&& results.len() == blocks.len()
    &&& forall|k: int|
        0 <= k < blocks.len() ==> #[trigger] wrote_at(
            updates,
            blocks,
            results,
            new_file_id,
            min_archive_len,
            k,
        )
}

/// Whether the mapping of the `k`-th block of a run is in the update `now` what the run
/// made it: it stands behind the mappings that the new file had in `first` and those
/// of the blocks before it, begins where the blocks before it end, and names the block
/// that was stored for it.
pub open spec fn mapped_in_order(
    first: UpdateView,
    now: UpdateView,
    updates: Seq<UpdateView>,
    blocks: Seq<Seq<u8>>,
    new_file_id: int,
    k: int,
) -> bool {
    now.db.new_files[new_file_id].mappings[first.db.new_files[new_file_id].mappings.len() + k]
        == (Mapping {
        offset: concat(blocks.take(k)).len() as u64,
        block_id: stored_id(updates[k], blocks[k]),
    })
}

/// The mappings of a file follow its blocks.
///
/// Let the blocks of one new file be stored one after the other, each where the blocks
/// before it end. Then after `n` of them the new file has one mapping more for each, in
/// their order behind those that it had; the mapping of each block begins where the
/// bytes of the blocks before it end, and names the block that was stored for it: the
/// block with its digest.
pub proof fn lemma_file_in_order(
    updates: Seq<UpdateView>,
    blocks: Seq<Seq<u8>>,
    results: Seq<Result<Option<Sealed>, Error>>,
    new_file_id: int,
    min_archive_len: u64,
    n: int,
)
    requires
        writes_file(updates, blocks, results, new_file_id, min_archive_len),
        0 <= n <= blocks.len(),
    ensures
        n > 0 ==> updates[n].db.new_files.contains_key(new_file_id),
        updates[n].db.new_files[new_file_id].mappings.len()
            == updates[0].db.new_files[new_file_id].mappings.len() + n,
        updates[n].db.new_files[new_file_id].mappings.take(
            updates[0].db.new_files[new_file_id].mappings.len() as int,
        ) == updates[0].db.new_files[new_file_id].mappings,
        forall|k: int|
            0 <= k < n ==> #[trigger] mapped_in_order(
                updates[0],
                updates[n],
                updates,
                blocks,
                new_file_id,
                k,
            ),
    decreases n,
{
    let had = updates[0].db.new_files[new_file_id].mappings;
    if n == 0 {
        assert(had.take(had.len() as int) =~= had);
    } else {
        lemma_file_in_order(updates, blocks, results, new_file_id, min_archive_len, n - 1);
        assert(wrote_at(updates, blocks, results, new_file_id, min_archive_len, n - 1));
        let before = updates[n - 1].db.new_files[new_file_id].mappings;
        let now = updates[n].db.new_files[new_file_id].mappings;
        assert(now == before.push(
            Mapping {
                offset: concat(blocks.take(n - 1)).len() as u64,
                block_id: stored_id(updates[n - 1], blocks[n - 1]),
            },
        ));
        assert(now.take(had.len() as int) =~= before.take(had.len() as int));
        assert forall|k: int| 0 <= k < n implies #[trigger] mapped_in_order(
            updates[0],
            updates[n],
            updates,
            blocks,
            new_file_id,
            k,
        ) by {
            if k < n - 1 {
                assert(mapped_in_order(
                    updates[0],
                    updates[n - 1],
                    updates,
                    blocks,
                    new_file_id,
                    k,
                ));
            }
        }
    }
}

/// Storing a block keeps the files restorable: no file maps the block that is added,
/// and no block that a file maps changes its archive.
pub proof fn lemma_settled_stored(
    before: UpdateView,
    after: UpdateView,
    min_archive_len: u64,
    new_file_id: int,
    offset: u64,
    block: Seq<u8>,
    r: Result<Option<Sealed>, Error>,
)
    requires
        update_wf(before),
        block_stored(before, after, min_archive_len, new_file_id, offset, block, r),
        settled(before.db.tables),
    ensures
        settled(after.db.tables),
{
    let t = before.db.tables;
    let now = after.db.tables;
    assert forall|f: int, i: int|
        now.files.contains_key(f) && 0 <= i < now.files[f].mappings.len() implies !block_pending(
        now,
        (#[trigger] now.files[f].mappings[i]).block_id as int,
    ) by {
        let b = now.files[f].mappings[i].block_id as int;
        assert(t.files.contains_key(f) && t.files[f] == now.files[f]);
        assert(!block_pending(t, t.files[f].mappings[i].block_id as int));
        assert(t.blocks.contains_key(b));
        assert(t.archives.contains_key(t.blocks[b].archive_id));
    }
}

/// Noting that an archive was uploaded keeps the files restorable.
pub proof fn lemma_settled_uploaded(
    s: State,
    archive_id: int,
    length: u64,
    blob_file_id: Seq<u8>,
    blob_length: u64,
)
    requires
        settled(s.tables),
    ensures
        settled(uploaded(s, archive_id, length, blob_file_id, blob_length).tables),
{
    let now = uploaded(s, archive_id, length, blob_file_id, blob_length).tables;
    assert forall|f: int, i: int|
        now.files.contains_key(f) && 0 <= i < now.files[f].mappings.len() implies !block_pending(
        now,
        (#[trigger] now.files[f].mappings[i]).block_id as int,
    ) by {
        assert(s.tables.files.contains_key(f) && s.tables.files[f] == now.files[f]);
        assert(!block_pending(s.tables, s.tables.files[f].mappings[i].block_id as int));
    }
}

/// Deleting an archive keeps the files restorable.
pub proof fn lemma_settled_deleted(s: State, archive_id: int)
    requires
        settled(s.tables),
    ensures
        settled(noted(s, ChangeView::DeleteArchive { id: archive_id }).tables),
{
    let now = noted(s, ChangeView::DeleteArchive { id: archive_id }).tables;
    assert forall|f: int, i: int|
        now.files.contains_key(f) && 0 <= i < now.files[f].mappings.len() implies !block_pending(
        now,
        (#[trigger] now.files[f].mappings[i]).block_id as int,
    ) by {
        assert(s.tables.files.contains_key(f) && s.tables.files[f] == now.files[f]);
        assert(!block_pending(s.tables, s.tables.files[f].mappings[i].block_id as int));
    }
}

} // verus!
