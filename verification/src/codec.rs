//! The change-set of a session as bytes, and back.
//!
//! A change-set is a run of fields, each written as its length in eight bytes, lowest
//! byte first, and its bytes. A number is a field of eight bytes, lowest byte first. A
//! change is a field with its kind followed by the fields of what it holds.

use crate::bytes::{append_bytes, copy_bytes};
use crate::rows::{
    Archive, ArchiveView, Block, BlockView, Directory, DirectoryView, File, FileView, Mapping,
    SymbolicLink, SymbolicLinkView,
};
use crate::split::byte_views;
use crate::tables::{change_views, Change, ChangeView};
use vstd::bytes::{
    lemma_auto_spec_u64_to_from_le_bytes, spec_u64_from_le_bytes, spec_u64_to_le_bytes,
    u64_from_le_bytes, u64_to_le_bytes,
};
use vstd::prelude::*;
use vstd::slice::slice_subrange;

verus! {

/// A field as it is written: its length, then its bytes.
pub open spec fn frame(field: Seq<u8>) -> Seq<u8> {
    spec_u64_to_le_bytes(field.len() as u64) + field
}

/// A run of fields as it is written.
pub open spec fn frames(fields: Seq<Seq<u8>>) -> Seq<u8>
    decreases fields.len(),
{
    if fields.len() == 0 {
        Seq::empty()
    } else {
        frame(fields[0]) + frames(fields.drop_first())
    }
}

/// The fields that bytes are made of, if they are a run of fields.
pub open spec fn unframes(bytes: Seq<u8>) -> Option<Seq<Seq<u8>>>
    decreases bytes.len(),
{
    if bytes.len() == 0 {
        Some(Seq::empty())
    } else if bytes.len() < 8 {
        None
    } else {
        let n = spec_u64_from_le_bytes(bytes.take(8)) as int;
        if bytes.len() - 8 < n {
            None
        } else {
            match unframes(bytes.skip(8 + n)) {
                None => None,
                Some(rest) => Some(seq![bytes.subrange(8, 8 + n)] + rest),
            }
        }
    }
}

/// Fields that were written are read as they were.
pub proof fn lemma_unframes_frames(fields: Seq<Seq<u8>>)
    requires
        forall|i: int| 0 <= i < fields.len() ==> (#[trigger] fields[i]).len() <= u64::MAX,
    ensures
        unframes(frames(fields)) == Some(fields),
    decreases fields.len(),
{
    lemma_auto_spec_u64_to_from_le_bytes();
    if fields.len() > 0 {
        let first = fields[0];
        let rest = fields.drop_first();
        let bytes = frames(fields);
        lemma_unframes_frames(rest);
        assert(bytes.take(8) =~= spec_u64_to_le_bytes(first.len() as u64));
        assert(bytes.subrange(8, 8 + first.len() as int) =~= first);
        assert(bytes.skip(8 + first.len() as int) =~= frames(rest));
        assert(seq![first] + rest =~= fields);
    }
}

/// Writing fields one run after another writes them as one run.
pub proof fn lemma_frames_concat(a: Seq<Seq<u8>>, b: Seq<Seq<u8>>)
    ensures
        frames(a + b) == frames(a) + frames(b),
    decreases a.len(),
{
    if a.len() == 0 {
        assert(a + b =~= b);
        assert(frames(a) + frames(b) =~= frames(b));
    } else {
        lemma_frames_concat(a.drop_first(), b);
        assert((a + b).drop_first() =~= a.drop_first() + b);
        assert(frames(a + b) =~= frames(a) + frames(b));
    }
}

/// Writes a field behind what is written.
pub fn write_field(out: &mut Vec<u8>, field: &[u8])
    ensures
        final(out)@ == old(out)@ + frame(field@),
{
    let len = u64_to_le_bytes(field.len() as u64);
    append_bytes(out, len.as_slice());
    append_bytes(out, field);
    assert(out@ =~= old(out)@ + frame(field@));
}

/// `done` followed by what may follow it.
pub open spec fn followed<T>(done: Seq<T>, rest: Option<Seq<T>>) -> Option<Seq<T>> {
    match rest {
        Some(r) => Some(done + r),
        None => None,
    }
}

/// The fields that bytes are made of, if they are a run of fields.
pub fn read_fields(bytes: &[u8]) -> (r: Option<Vec<Vec<u8>>>)
    ensures
        match r {
            Some(fields) => unframes(bytes@) == Some(byte_views(fields@)),
            None => unframes(bytes@) is None,
        },
{
    let mut fields: Vec<Vec<u8>> = Vec::new();
    let mut pos: usize = 0;
    proof {
        assert(bytes@.skip(0) =~= bytes@);
        assert(byte_views(fields@) =~= Seq::<Seq<u8>>::empty());
        match unframes(bytes@) {
            Some(r) => {
                assert(Seq::<Seq<u8>>::empty() + r =~= r);
            },
            None => {},
        }
    }
    while pos < bytes.len()
        invariant
            pos <= bytes@.len(),
            unframes(bytes@) == followed(byte_views(fields@), unframes(bytes@.skip(pos as int))),
        decreases bytes@.len() - pos,
    {
        let ghost rest = bytes@.skip(pos as int);
        if bytes.len() - pos < 8 {
            return None;
        }
        let n = u64_from_le_bytes(slice_subrange(bytes, pos, pos + 8));
        proof {
            assert(bytes@.subrange(pos as int, pos + 8) =~= rest.take(8));
        }
        let room: u64 = (bytes.len() - pos - 8) as u64;
        if room < n {
            return None;
        }
        let start = pos + 8;
        let end = start + n as usize;
        let field = copy_bytes(slice_subrange(bytes, start, end));
        let ghost before = byte_views(fields@);
        fields.push(field);
        proof {
            assert(field@ =~= rest.subrange(8, 8 + n));
            assert(rest.skip(8 + n) =~= bytes@.skip(end as int));
            assert(byte_views(fields@) =~= before.push(field@));
            match unframes(bytes@.skip(end as int)) {
                Some(r) => {
                    assert(before + (seq![field@] + r) =~= before.push(field@) + r);
                },
                None => {},
            }
        }
        pos = end;
    }
    proof {
        assert(bytes@.skip(pos as int) =~= Seq::<u8>::empty());
        assert(byte_views(fields@) + Seq::<Seq<u8>>::empty() =~= byte_views(fields@));
    }
    Some(fields)
}

/// A number as a field.
pub open spec fn num(x: u64) -> Seq<u8> {
    spec_u64_to_le_bytes(x)
}

/// An id as a field: the id above the lowest id there is.
pub open spec fn id_field(id: int) -> Seq<u8> {
    num((id + 0x8000_0000_0000_0000) as u64)
}

/// A truth value as a field.
pub open spec fn flag(b: bool) -> Seq<u8> {
    num(if b { 1 } else { 0 })
}

/// Mappings as a field: offset and block id of each, one mapping after the other.
pub open spec fn mappings_field(ms: Seq<Mapping>) -> Seq<u8>
    decreases ms.len(),
{
    if ms.len() == 0 {
        Seq::empty()
    } else {
        mappings_field(ms.drop_last()) + num(ms.last().offset) + id_field(ms.last().block_id as int)
    }
}

/// The number that a field holds.
pub open spec fn as_num(f: Seq<u8>) -> Option<u64> {
    if f.len() == 8 {
        Some(spec_u64_from_le_bytes(f))
    } else {
        None
    }
}

/// The id that a field holds.
pub open spec fn as_id(f: Seq<u8>) -> Option<i64> {
    match as_num(f) {
        Some(n) => Some((n - 0x8000_0000_0000_0000) as i64),
        None => None,
    }
}

/// The truth value that a field holds.
pub open spec fn as_flag(f: Seq<u8>) -> Option<bool> {
    match as_num(f) {
        Some(n) => Some(n != 0),
        None => None,
    }
}

/// The mode that a field holds.
pub open spec fn as_mode(f: Seq<u8>) -> Option<u32> {
    match as_num(f) {
        Some(n) => if n <= u32::MAX {
            Some(n as u32)
        } else {
            None
        },
        None => None,
    }
}

/// The mapping at position `i` of a field of mappings.
pub open spec fn mapping_at(f: Seq<u8>, i: int) -> Mapping {
    Mapping {
        offset: spec_u64_from_le_bytes(f.subrange(16 * i, 16 * i + 8)),
        block_id: (spec_u64_from_le_bytes(f.subrange(16 * i + 8, 16 * i + 16))
            - 0x8000_0000_0000_0000) as i64,
    }
}

/// The mappings that a field holds.
pub open spec fn as_mappings(f: Seq<u8>) -> Option<Seq<Mapping>> {
    if f.len() % 16 == 0 {
        Some(Seq::new(f.len() / 16, |i: int| mapping_at(f, i)))
    } else {
        None
    }
}

/// What may be absent, from the field that tells whether it is there and the field
/// that holds it.
pub open spec fn as_opt<T>(there: Option<bool>, value: Option<T>) -> Option<Option<T>> {
    match (there, value) {
        (Some(true), Some(v)) => Some(Some(v)),
        (Some(false), Some(v)) => Some(None),
        _ => None,
    }
}

/// The fields of a change: its kind, then what it holds.
pub open spec fn fields_of(c: ChangeView) -> Seq<Seq<u8>> {
    match c {
        ChangeView::PutArchive { row, fresh } => seq![
            num(1),
            flag(fresh),
            id_field(row.id),
            flag(row.length is Some),
            num(match row.length { Some(n) => n, None => 0 }),
            flag(row.blob_file_id is Some),
            match row.blob_file_id { Some(b) => b, None => Seq::empty() },
            flag(row.blob_length is Some),
            num(match row.blob_length { Some(n) => n, None => 0 }),
        ],
        ChangeView::DeleteArchive { id } => seq![num(2), id_field(id)],
        ChangeView::PutFile { row, fresh } => seq![
            num(3),
            flag(fresh),
            id_field(row.id),
            row.path,
            num(row.size),
            num(row.mode as u64),
            mappings_field(row.mappings),
        ],
        ChangeView::DeleteFile { id } => seq![num(4), id_field(id)],
        ChangeView::PutDirectory { row, fresh } => seq![
            num(5),
            flag(fresh),
            id_field(row.id),
            row.path,
            num(row.mode as u64),
        ],
        ChangeView::DeleteDirectory { id } => seq![num(6), id_field(id)],
        ChangeView::PutSymbolicLink { row, fresh } => seq![
            num(7),
            flag(fresh),
            id_field(row.id),
            row.path,
            row.target,
        ],
        ChangeView::DeleteSymbolicLink { id } => seq![num(8), id_field(id)],
        ChangeView::PutBlock { row, fresh } => seq![
            num(9),
            flag(fresh),
            id_field(row.id),
            row.digest,
            num(row.length),
            id_field(row.archive_id),
            num(row.archive_off),
        ],
        ChangeView::DeleteBlock { id } => seq![num(10), id_field(id)],
    }
}

/// How many fields follow the kind of a change.
pub open spec fn fields_after(kind: u64) -> Option<nat> {
    if kind == 1 {
        Some(8)
    } else if kind == 3 || kind == 9 {
        Some(6)
    } else if kind == 5 || kind == 7 {
        Some(4)
    } else if kind == 2 || kind == 4 || kind == 6 || kind == 8 || kind == 10 {
        Some(1)
    } else {
        None
    }
}

/// The change of the given kind that the fields `f` hold, if they hold one.
pub open spec fn change_from(kind: u64, f: Seq<Seq<u8>>) -> Option<ChangeView> {
    if kind == 1 {
        match (
            as_flag(f[0]),
            as_id(f[1]),
            as_opt(as_flag(f[2]), as_num(f[3])),
            as_opt(as_flag(f[4]), Some(f[5])),
            as_opt(as_flag(f[6]), as_num(f[7])),
        ) {
            (Some(fresh), Some(id), Some(length), Some(blob_file_id), Some(blob_length)) => Some(
                ChangeView::PutArchive {
                    row: ArchiveView { id: id as int, length, blob_file_id, blob_length },
                    fresh,
                },
            ),
            _ => None,
        }
    } else if kind == 3 {
        match (as_flag(f[0]), as_id(f[1]), as_num(f[3]), as_mode(f[4]), as_mappings(f[5])) {
            (Some(fresh), Some(id), Some(size), Some(mode), Some(mappings)) => Some(
                ChangeView::PutFile {
                    row: FileView { id: id as int, path: f[2], size, mode, mappings },
                    fresh,
                },
            ),
            _ => None,
        }
    } else if kind == 5 {
        match (as_flag(f[0]), as_id(f[1]), as_mode(f[3])) {
            (Some(fresh), Some(id), Some(mode)) => Some(
                ChangeView::PutDirectory {
                    row: DirectoryView { id: id as int, path: f[2], mode },
                    fresh,
                },
            ),
            _ => None,
        }
    } else if kind == 7 {
        match (as_flag(f[0]), as_id(f[1])) {
            (Some(fresh), Some(id)) => Some(
                ChangeView::PutSymbolicLink {
                    row: SymbolicLinkView { id: id as int, path: f[2], target: f[3] },
                    fresh,
                },
            ),
            _ => None,
        }
    } else if kind == 9 {
        match (as_flag(f[0]), as_id(f[1]), as_num(f[3]), as_id(f[4]), as_num(f[5])) {
            (Some(fresh), Some(id), Some(length), Some(archive_id), Some(archive_off)) => Some(
                ChangeView::PutBlock {
                    row: BlockView {
                        id: id as int,
                        digest: f[2],
                        length,
                        archive_id: archive_id as int,
                        archive_off,
                    },
                    fresh,
                },
            ),
            _ => None,
        }
    } else {
        match as_id(f[0]) {
            Some(id) => if kind == 2 {
                Some(ChangeView::DeleteArchive { id: id as int })
            } else if kind == 4 {
                Some(ChangeView::DeleteFile { id: id as int })
            } else if kind == 6 {
                Some(ChangeView::DeleteDirectory { id: id as int })
            } else if kind == 8 {
                Some(ChangeView::DeleteSymbolicLink { id: id as int })
            } else if kind == 10 {
                Some(ChangeView::DeleteBlock { id: id as int })
            } else {
                None
            },
            None => None,
        }
    }
}

/// The changes that a run of fields holds, if it holds changes and nothing else.
pub open spec fn changes_of(fields: Seq<Seq<u8>>) -> Option<Seq<ChangeView>>
    decreases fields.len(),
{
    if fields.len() == 0 {
        Some(Seq::empty())
    } else {
        match as_num(fields[0]) {
            None => None,
            Some(kind) => match fields_after(kind) {
                None => None,
                Some(n) => if fields.len() < 1 + n {
                    None
                } else {
                    match change_from(kind, fields.subrange(1, 1 + n as int)) {
                        None => None,
                        Some(c) => match changes_of(fields.skip(1 + n as int)) {
                            None => None,
                            Some(rest) => Some(seq![c] + rest),
                        },
                    }
                },
            },
        }
    }
}

/// The fields of a run of changes.
pub open spec fn all_fields(cs: Seq<ChangeView>) -> Seq<Seq<u8>>
    decreases cs.len(),
{
    if cs.len() == 0 {
        Seq::empty()
    } else {
        fields_of(cs[0]) + all_fields(cs.drop_first())
    }
}

/// A change-set as bytes.
pub open spec fn encoded(cs: Seq<ChangeView>) -> Seq<u8> {
    frames(all_fields(cs))
}

/// The change-set that bytes hold, if they hold one.
pub open spec fn decoded(bytes: Seq<u8>) -> Option<Seq<ChangeView>> {
    match unframes(bytes) {
        Some(fields) => changes_of(fields),
        None => None,
    }
}

/// Whether the ids in a change are ids that a row can have.
pub open spec fn ids_fit(c: ChangeView) -> bool {
    match c {
        ChangeView::PutArchive { row, fresh } => i64::MIN <= row.id <= i64::MAX,
        ChangeView::DeleteArchive { id } => i64::MIN <= id <= i64::MAX,
        ChangeView::PutFile { row, fresh } => i64::MIN <= row.id <= i64::MAX,
        ChangeView::DeleteFile { id } => i64::MIN <= id <= i64::MAX,
        ChangeView::PutDirectory { row, fresh } => i64::MIN <= row.id <= i64::MAX,
        ChangeView::DeleteDirectory { id } => i64::MIN <= id <= i64::MAX,
        ChangeView::PutSymbolicLink { row, fresh } => i64::MIN <= row.id <= i64::MAX,
        ChangeView::DeleteSymbolicLink { id } => i64::MIN <= id <= i64::MAX,
        ChangeView::PutBlock { row, fresh } => i64::MIN <= row.id <= i64::MAX && i64::MIN
            <= row.archive_id <= i64::MAX,
        ChangeView::DeleteBlock { id } => i64::MIN <= id <= i64::MAX,
    }
}

/// A field of mappings holds the mappings it was made of.
pub proof fn lemma_mappings_field(ms: Seq<Mapping>)
    ensures
        mappings_field(ms).len() == 16 * ms.len(),
        as_mappings(mappings_field(ms)) == Some(ms),
    decreases ms.len(),
{
    lemma_auto_spec_u64_to_from_le_bytes();
    if ms.len() == 0 {
        assert(as_mappings(mappings_field(ms)).unwrap() =~= ms);
    } else {
        let head = ms.drop_last();
        let last = ms.last();
        lemma_mappings_field(head);
        let f = mappings_field(ms);
        let g = mappings_field(head);
        assert(f.len() == 16 * ms.len());
        let got = as_mappings(f).unwrap();
        assert forall|i: int| 0 <= i < ms.len() implies got[i] == ms[i] by {
            if i < head.len() {
                assert(f.subrange(16 * i, 16 * i + 8) =~= g.subrange(16 * i, 16 * i + 8));
                assert(f.subrange(16 * i + 8, 16 * i + 16) =~= g.subrange(16 * i + 8, 16 * i + 16));
                assert(as_mappings(g).unwrap()[i] == head[i]);
                assert(mapping_at(g, i) == head[i]);
            } else {
                assert(f.subrange(16 * i, 16 * i + 8) =~= num(last.offset));
                assert(f.subrange(16 * i + 8, 16 * i + 16) =~= id_field(last.block_id as int));
            }
        }
        assert(got =~= ms);
    }
}

/// The fields of a change hold the change.
pub proof fn lemma_change_from_fields(c: ChangeView)
    requires
        ids_fit(c),
    ensures
        fields_of(c).len() >= 2,
        as_num(fields_of(c)[0]) is Some,
        fields_after(as_num(fields_of(c)[0]).unwrap()) == Some((fields_of(c).len() - 1) as nat),
        change_from(as_num(fields_of(c)[0]).unwrap(), fields_of(c).skip(1)) == Some(c),
{
    lemma_auto_spec_u64_to_from_le_bytes();
    let f = fields_of(c).skip(1);
    match c {
        ChangeView::PutArchive { row, fresh } => {
            assert(f[0] == flag(fresh));
            assert(f[1] == id_field(row.id));
            assert(f[7] == num(match row.blob_length { Some(n) => n, None => 0 }));
        },
        ChangeView::PutFile { row, fresh } => {
            lemma_mappings_field(row.mappings);
            assert(f[5] == mappings_field(row.mappings));
        },
        ChangeView::PutDirectory { row, fresh } => {
            assert(f[3] == num(row.mode as u64));
        },
        ChangeView::PutSymbolicLink { row, fresh } => {
            assert(f[3] == row.target);
        },
        ChangeView::PutBlock { row, fresh } => {
            assert(f[5] == num(row.archive_off));
        },
        _ => {
            assert(f[0] == fields_of(c)[1]);
        },
    }
}

/// The fields of a run of changes hold the changes.
pub proof fn lemma_changes_of_fields(cs: Seq<ChangeView>)
    requires
        forall|i: int| 0 <= i < cs.len() ==> ids_fit(#[trigger] cs[i]),
    ensures
        changes_of(all_fields(cs)) == Some(cs),
    decreases cs.len(),
{
    if cs.len() > 0 {
        let c = cs[0];
        let rest = cs.drop_first();
        lemma_change_from_fields(c);
        lemma_changes_of_fields(rest);
        let fields = all_fields(cs);
        let n = (fields_of(c).len() - 1) as int;
        assert(fields[0] == fields_of(c)[0]);
        assert(fields.subrange(1, 1 + n) =~= fields_of(c).skip(1));
        assert(fields.skip(1 + n) =~= all_fields(rest));
        assert(seq![c] + rest =~= cs);
    }
}

/// Writing one more field.
pub proof fn lemma_frames_push(fields: Seq<Seq<u8>>, f: Seq<u8>)
    ensures
        frames(fields.push(f)) == frames(fields) + frame(f),
{
    lemma_frames_concat(fields, seq![f]);
    assert(fields.push(f) =~= fields + seq![f]);
    assert(seq![f].drop_first() =~= Seq::<Seq<u8>>::empty());
    assert(frames(Seq::<Seq<u8>>::empty()) =~= Seq::<u8>::empty());
    assert(seq![f][0] == f);
    assert(frames(seq![f]) =~= frame(f));
}

/// Whether a change can be written: its mappings fit into a field.
pub open spec fn writable(c: ChangeView) -> bool {
    match c {
        ChangeView::PutFile { row, fresh } => row.mappings.len() * 16 <= usize::MAX,
        _ => true,
    }
}

/// The bytes of an id as a field.
fn id_bytes(id: i64) -> (r: Vec<u8>)
    ensures
        r@ == id_field(id as int),
{
    u64_to_le_bytes((id as i128 + 0x8000_0000_0000_0000) as u64)
}

/// The bytes of a truth value as a field.
fn flag_bytes(b: bool) -> (r: Vec<u8>)
    ensures
        r@ == flag(b),
{
    u64_to_le_bytes(if b { 1 } else { 0 })
}

/// The bytes of mappings as a field.
fn mappings_bytes(ms: &Vec<Mapping>) -> (r: Vec<u8>)
    ensures
        r@ == mappings_field(ms@),
{
    let mut out: Vec<u8> = Vec::new();
    let mut i: usize = 0;
    proof {
        assert(ms@.take(0) =~= Seq::<Mapping>::empty());
    }
    while i < ms.len()
        invariant
            i <= ms@.len(),
            out@ == mappings_field(ms@.take(i as int)),
        decreases ms@.len() - i,
    {
        let offset = u64_to_le_bytes(ms[i].offset);
        let block = id_bytes(ms[i].block_id);
        append_bytes(&mut out, offset.as_slice());
        append_bytes(&mut out, block.as_slice());
        proof {
            assert(ms@.take(i + 1).drop_last() =~= ms@.take(i as int));
            assert(ms@.take(i + 1).last() == ms@[i as int]);
        }
        i += 1;
    }
    proof {
        assert(ms@.take(ms@.len() as int) =~= ms@);
    }
    out
}

/// Writes the fields `a` and `b` behind what is written.
fn write_two(out: &mut Vec<u8>, Ghost(done): Ghost<Seq<Seq<u8>>>, a: &[u8],
    b: &[u8]) -> (now: Ghost<
    Seq<Seq<u8>>,
>)
    ensures
        now@ == done.push(a@).push(b@),
        final(out)@ == old(out)@ + frame(a@) + frame(b@),
        forall|base: Seq<u8>| old(out)@ == base + frames(done) ==>
            final(out)@ == base + frames(now@),
{
    write_field(out, a);
    write_field(out, b);
    proof {
        lemma_frames_push(done, a@);
        lemma_frames_push(done.push(a@), b@);
        assert forall|base: Seq<u8>| old(out)@ == base + frames(done) implies out@ == base + frames(
            done.push(a@).push(b@),
        ) by {
            assert(out@ =~= base + frames(done.push(a@).push(b@)));
        }
    }
    Ghost(done.push(a@).push(b@))
}

/// Writes a change behind what is written. Returns whether it could be written;
/// nothing is written if not.
pub fn write_change(out: &mut Vec<u8>, change: &Change) -> (ok: bool)
    ensures
        ok == writable(change@),
        ok ==> final(out)@ == old(out)@ + frames(fields_of(change@)),
        !ok ==> final(out)@ == old(out)@,
{
    let ghost base = out@;
    let ghost empty = Seq::<Seq<u8>>::empty();
    proof {
        assert(base + frames(empty) =~= base);
    }
    match change {
        Change::PutArchive { row, fresh } => {
            let kind = u64_to_le_bytes(1);
            let fresh_f = flag_bytes(*fresh);
            let id = id_bytes(row.id);
            let has_len = flag_bytes(row.length.is_some());
            let len = u64_to_le_bytes(match row.length { Some(n) => n, None => 0 });
            let has_file = flag_bytes(row.blob_file_id.is_some());
            let none: Vec<u8> = Vec::new();
            let file: &Vec<u8> = match &row.blob_file_id { Some(b) => b, None => &none };
            let has_blob = flag_bytes(row.blob_length.is_some());
            let blob = u64_to_le_bytes(match row.blob_length { Some(n) => n, None => 0 });
            let d1 = write_two(out, Ghost(empty), kind.as_slice(), fresh_f.as_slice());
            let d2 = write_two(out, d1, id.as_slice(), has_len.as_slice());
            let d3 = write_two(out, d2, len.as_slice(), has_file.as_slice());
            let d4 = write_two(out, d3, file.as_slice(), has_blob.as_slice());
            write_field(out, blob.as_slice());
            proof {
                lemma_frames_push(d4@, blob@);
                assert(d4@.push(blob@) =~= fields_of(change@));
                assert(out@ =~= base + frames(fields_of(change@)));
            }
            true
        },
        Change::PutFile { row, fresh } => {
            if row.mappings.len() > usize::MAX / 16 {
                return false;
            }
            let kind = u64_to_le_bytes(3);
            let fresh_f = flag_bytes(*fresh);
            let id = id_bytes(row.id);
            let size = u64_to_le_bytes(row.size);
            let mode = u64_to_le_bytes(row.mode as u64);
            let mappings = mappings_bytes(&row.mappings);
            let d1 = write_two(out, Ghost(empty), kind.as_slice(), fresh_f.as_slice());
            let d2 = write_two(out, d1, id.as_slice(), row.path.as_slice());
            let d3 = write_two(out, d2, size.as_slice(), mode.as_slice());
            write_field(out, mappings.as_slice());
            proof {
                lemma_frames_push(d3@, mappings@);
                assert(d3@.push(mappings@) =~= fields_of(change@));
                assert(out@ =~= base + frames(fields_of(change@)));
            }
            true
        },
        Change::PutDirectory { row, fresh } => {
            let kind = u64_to_le_bytes(5);
            let fresh_f = flag_bytes(*fresh);
            let id = id_bytes(row.id);
            let mode = u64_to_le_bytes(row.mode as u64);
            let d1 = write_two(out, Ghost(empty), kind.as_slice(), fresh_f.as_slice());
            let d2 = write_two(out, d1, id.as_slice(), row.path.as_slice());
            write_field(out, mode.as_slice());
            proof {
                lemma_frames_push(d2@, mode@);
                assert(d2@.push(mode@) =~= fields_of(change@));
                assert(out@ =~= base + frames(fields_of(change@)));
            }
            true
        },
        Change::PutSymbolicLink { row, fresh } => {
            let kind = u64_to_le_bytes(7);
            let fresh_f = flag_bytes(*fresh);
            let id = id_bytes(row.id);
            let d1 = write_two(out, Ghost(empty), kind.as_slice(), fresh_f.as_slice());
            let d2 = write_two(out, d1, id.as_slice(), row.path.as_slice());
            write_field(out, row.target.as_slice());
            proof {
                lemma_frames_push(d2@, row.target@);
                assert(d2@.push(row.target@) =~= fields_of(change@));
                assert(out@ =~= base + frames(fields_of(change@)));
            }
            true
        },
        Change::PutBlock { row, fresh } => {
            let kind = u64_to_le_bytes(9);
            let fresh_f = flag_bytes(*fresh);
            let id = id_bytes(row.id);
            let length = u64_to_le_bytes(row.length);
            let archive = id_bytes(row.archive_id);
            let off = u64_to_le_bytes(row.archive_off);
            let d1 = write_two(out, Ghost(empty), kind.as_slice(), fresh_f.as_slice());
            let d2 = write_two(out, d1, id.as_slice(), row.digest.as_slice());
            let d3 = write_two(out, d2, length.as_slice(), archive.as_slice());
            write_field(out, off.as_slice());
            proof {
                lemma_frames_push(d3@, off@);
                assert(d3@.push(off@) =~= fields_of(change@));
                assert(out@ =~= base + frames(fields_of(change@)));
            }
            true
        },
        Change::DeleteArchive { id } => {
            let kind = u64_to_le_bytes(2);
            let id = id_bytes(*id);
            let d1 = write_two(out, Ghost(empty), kind.as_slice(), id.as_slice());
            proof {
                assert(d1@ =~= fields_of(change@));
            }
            true
        },
        Change::DeleteFile { id } => {
            let kind = u64_to_le_bytes(4);
            let id = id_bytes(*id);
            let d1 = write_two(out, Ghost(empty), kind.as_slice(), id.as_slice());
            proof {
                assert(d1@ =~= fields_of(change@));
            }
            true
        },
        Change::DeleteDirectory { id } => {
            let kind = u64_to_le_bytes(6);
            let id = id_bytes(*id);
            let d1 = write_two(out, Ghost(empty), kind.as_slice(), id.as_slice());
            proof {
                assert(d1@ =~= fields_of(change@));
            }
            true
        },
        Change::DeleteSymbolicLink { id } => {
            let kind = u64_to_le_bytes(8);
            let id = id_bytes(*id);
            let d1 = write_two(out, Ghost(empty), kind.as_slice(), id.as_slice());
            proof {
                assert(d1@ =~= fields_of(change@));
            }
            true
        },
        Change::DeleteBlock { id } => {
            let kind = u64_to_le_bytes(10);
            let id = id_bytes(*id);
            let d1 = write_two(out, Ghost(empty), kind.as_slice(), id.as_slice());
            proof {
                assert(d1@ =~= fields_of(change@));
            }
            true
        },
    }
}

/// The fields of two runs of changes, one after the other.
pub proof fn lemma_all_fields_push(cs: Seq<ChangeView>, c: ChangeView)
    ensures
        all_fields(cs.push(c)) == all_fields(cs) + fields_of(c),
    decreases cs.len(),
{
    if cs.len() == 0 {
        assert(cs.push(c).drop_first() =~= Seq::<ChangeView>::empty());
        assert(cs.push(c)[0] == c);
        assert(all_fields(Seq::<ChangeView>::empty()) =~= Seq::<Seq<u8>>::empty());
        assert(all_fields(cs) =~= Seq::<Seq<u8>>::empty());
        assert(all_fields(cs.push(c)) =~= fields_of(c) + Seq::<Seq<u8>>::empty());
        assert(all_fields(cs.push(c)) =~= all_fields(cs) + fields_of(c));
    } else {
        lemma_all_fields_push(cs.drop_first(), c);
        assert(cs.push(c).drop_first() =~= cs.drop_first().push(c));
        assert(cs.push(c)[0] == cs[0]);
        assert(all_fields(cs.push(c)) =~= fields_of(cs[0]) + (all_fields(cs.drop_first())
            + fields_of(c)));
        assert(all_fields(cs.push(c)) =~= all_fields(cs) + fields_of(c));
    }
}

/// A change that holds no more mappings than a file can have can be written.
pub proof fn lemma_fits_writable(c: ChangeView)
    requires
        crate::tables::change_fits(c),
    ensures
        writable(c),
{
}

/// Every change can be written.
pub open spec fn all_writable(cs: Seq<ChangeView>) -> bool {
    forall|i: int| 0 <= i < cs.len() ==> writable(#[trigger] cs[i])
}

/// The ids of changes that a program holds are ids that a row can have.
pub proof fn lemma_ids_fit(cs: Seq<Change>)
    ensures
        forall|i: int| 0 <= i < cs.len() ==> ids_fit(#[trigger] change_views(cs)[i]),
{
}

/// A change-set that was written is read as it was.
pub proof fn lemma_decoded_encoded(cs: Seq<Change>)
    requires
        all_writable(change_views(cs)),
    ensures
        decoded(encoded(change_views(cs))) == Some(change_views(cs)),
{
    let views = change_views(cs);
    lemma_ids_fit(cs);
    lemma_changes_of_fields(views);
    lemma_fields_short(cs);
    lemma_unframes_frames(all_fields(views));
}

/// Every field of changes that a program holds is short enough to be written.
proof fn lemma_fields_short(cs: Seq<Change>)
    requires
        all_writable(change_views(cs)),
    ensures
        forall|i: int|
            0 <= i < all_fields(change_views(cs)).len() ==> (#[trigger] all_fields(
                change_views(cs),
            )[i]).len() <= u64::MAX,
    decreases cs.len(),
{
    let views = change_views(cs);
    lemma_auto_spec_u64_to_from_le_bytes();
    if cs.len() > 0 {
        assert(change_views(cs.drop_first()) =~= views.drop_first());
        assert forall|i: int| 0 <= i < views.drop_first().len() implies writable(
            #[trigger] views.drop_first()[i],
        ) by {
            assert(views.drop_first()[i] == views[i + 1]);
        }
        lemma_fields_short(cs.drop_first());
        let first = fields_of(views[0]);
        assert(writable(views[0]));
        assert(views[0] == cs[0]@);
        match cs[0] {
            Change::PutArchive { row, fresh } => {
                match row.blob_file_id {
                    Some(b) => {
                        assert(b.len() == b@.len());
                    },
                    None => {},
                }
                assert forall|i: int| 0 <= i < first.len() implies (#[trigger] first[i]).len()
                    <= u64::MAX by {}
            },
            Change::PutFile { row, fresh } => {
                lemma_mappings_field(row@.mappings);
                assert(row.path.len() == row.path@.len());
                assert forall|i: int| 0 <= i < first.len() implies (#[trigger] first[i]).len()
                    <= u64::MAX by {}
            },
            Change::PutDirectory { row, fresh } => {
                assert(row.path.len() == row.path@.len());
                assert forall|i: int| 0 <= i < first.len() implies (#[trigger] first[i]).len()
                    <= u64::MAX by {}
            },
            Change::PutSymbolicLink { row, fresh } => {
                assert(row.path.len() == row.path@.len());
                assert(row.target.len() == row.target@.len());
                assert forall|i: int| 0 <= i < first.len() implies (#[trigger] first[i]).len()
                    <= u64::MAX by {}
            },
            Change::PutBlock { row, fresh } => {
                assert(row.digest.len() == row.digest@.len());
                assert forall|i: int| 0 <= i < first.len() implies (#[trigger] first[i]).len()
                    <= u64::MAX by {}
            },
            _ => {
                assert forall|i: int| 0 <= i < first.len() implies (#[trigger] first[i]).len()
                    <= u64::MAX by {}
            },
        }
        assert forall|i: int| 0 <= i < all_fields(views).len() implies (#[trigger] all_fields(
            views,
        )[i]).len() <= u64::MAX by {
            if i < first.len() {
                assert(all_fields(views)[i] == first[i]);
            } else {
                assert(all_fields(views)[i] == all_fields(views.drop_first())[i - first.len()]);
            }
        }
    }
}

/// Writes a change-set as bytes. `None` if a file has too many mappings to be written.
pub fn encode_changes(changes: &Vec<Change>) -> (r: Option<Vec<u8>>)
    ensures
        r is Some <==> all_writable(change_views(changes@)),
        r matches Some(bytes) ==> bytes@ == encoded(change_views(changes@)) && decoded(bytes@)
            == Some(change_views(changes@)),
{
    let mut out: Vec<u8> = Vec::new();
    let mut i: usize = 0;
    let ghost views = change_views(changes@);
    proof {
        assert(views.take(0) =~= Seq::<ChangeView>::empty());
    }
    while i < changes.len()
        invariant
            i <= changes@.len(),
            views == change_views(changes@),
            out@ == encoded(views.take(i as int)),
            all_writable(views.take(i as int)),
        decreases changes@.len() - i,
    {
        let ok = write_change(&mut out, &changes[i]);
        if !ok {
            assert(!writable(views[i as int]));
            return None;
        }
        proof {
            let done = views.take(i as int);
            lemma_all_fields_push(done, views[i as int]);
            lemma_frames_concat(all_fields(done), fields_of(views[i as int]));
            assert(views.take(i + 1) =~= done.push(views[i as int]));
            assert forall|j: int| 0 <= j < i + 1 implies writable(#[trigger] views.take(i
                + 1)[j]) by {
                if j < i {
                    assert(views.take(i as int)[j] == views[j]);
                }
            }
        }
        i += 1;
    }
    proof {
        assert(views.take(views.len() as int) =~= views);
        lemma_decoded_encoded(changes@);
    }
    Some(out)
}

/// The number that a field holds.
fn field_num(f: &Vec<u8>) -> (r: Option<u64>)
    ensures
        r == as_num(f@),
{
    if f.len() == 8 {
        let n = u64_from_le_bytes(f.as_slice());
        Some(n)
    } else {
        None
    }
}

/// The id that a field holds.
fn field_id(f: &Vec<u8>) -> (r: Option<i64>)
    ensures
        r == as_id(f@),
{
    match field_num(f) {
        Some(n) => Some((n as i128 - 0x8000_0000_0000_0000) as i64),
        None => None,
    }
}

/// The truth value that a field holds.
fn field_flag(f: &Vec<u8>) -> (r: Option<bool>)
    ensures
        r == as_flag(f@),
{
    match field_num(f) {
        Some(n) => Some(n != 0),
        None => None,
    }
}

/// The mode that a field holds.
fn field_mode(f: &Vec<u8>) -> (r: Option<u32>)
    ensures
        r == as_mode(f@),
{
    match field_num(f) {
        Some(n) => if n <= u32::MAX as u64 {
            Some(n as u32)
        } else {
            None
        },
        None => None,
    }
}

/// The mappings that a field holds.
fn field_mappings(f: &Vec<u8>) -> (r: Option<Vec<Mapping>>)
    ensures
        match r {
            Some(ms) => as_mappings(f@) == Some(ms@),
            None => as_mappings(f@) is None,
        },
{
    if f.len() % 16 != 0 {
        return None;
    }
    let n = f.len() / 16;
    let mut out: Vec<Mapping> = Vec::new();
    let mut i: usize = 0;
    while i < n
        invariant
            f@.len() == 16 * n,
            f@.len() <= usize::MAX,
            i <= n,
            out@.len() == i,
            forall|j: int| 0 <= j < i ==> out@[j] == mapping_at(f@, j),
        decreases n - i,
    {
        let offset = u64_from_le_bytes(slice_subrange(f.as_slice(), 16 * i, 16 * i + 8));
        let block = u64_from_le_bytes(slice_subrange(f.as_slice(), 16 * i + 8, 16 * i + 16));
        out.push(Mapping { offset, block_id: (block as i128 - 0x8000_0000_0000_0000) as i64 });
        i += 1;
    }
    assert(out@ =~= as_mappings(f@).unwrap());
    Some(out)
}

/// A number that may be absent, from two fields.
fn field_opt_num(there: &Vec<u8>, value: &Vec<u8>) -> (r: Option<Option<u64>>)
    ensures
        r == as_opt(as_flag(there@), as_num(value@)),
{
    match (field_flag(there), field_num(value)) {
        (Some(true), Some(v)) => Some(Some(v)),
        (Some(false), Some(v)) => Some(None),
        _ => None,
    }
}

/// A byte string that may be absent, from two fields.
fn field_opt_bytes(there: &Vec<u8>, value: &Vec<u8>) -> (r: Option<Option<Vec<u8>>>)
    ensures
        match r {
            Some(o) => as_opt(as_flag(there@), Some(value@)) == Some(crate::rows::opt_bytes(o)),
            None => as_opt(as_flag(there@), Some(value@)) is None,
        },
{
    match field_flag(there) {
        Some(true) => Some(Some(copy_bytes(value.as_slice()))),
        Some(false) => Some(None),
        None => None,
    }
}

/// How many fields follow the kind of a change.
fn count_after(kind: u64) -> (r: Option<usize>)
    ensures
        match r {
            Some(n) => fields_after(kind) == Some(n as nat),
            None => fields_after(kind) is None,
        },
{
    if kind == 1 {
        Some(8)
    } else if kind == 3 || kind == 9 {
        Some(6)
    } else if kind == 5 || kind == 7 {
        Some(4)
    } else if kind == 2 || kind == 4 || kind == 6 || kind == 8 || kind == 10 {
        Some(1)
    } else {
        None
    }
}

/// The change of the given kind that the fields from `at` hold, if they hold one.
fn read_change(kind: u64, fields: &Vec<Vec<u8>>, at: usize, n: usize) -> (r: Option<Change>)
    requires
        fields_after(kind) == Some(n as nat),
        at + n <= fields@.len(),
    ensures
        match r {
            Some(c) => change_from(kind, byte_views(fields@).subrange(at as int, at + n)) == Some(
                c@,
            ),
            None => change_from(kind, byte_views(fields@).subrange(at as int, at + n)) is None,
        },
{
    let ghost f = byte_views(fields@).subrange(at as int, at + n);
    let total = fields.len();
    proof {
        assert(at + n <= total);
        assert forall|k: int| 0 <= k < n implies f[k] == (#[trigger] fields@[at + k])@ by {}
    }
    if kind == 1 {
        assert(n == 8);
        assert(f[0] == fields@[at + 0]@ && f[1] == fields@[at + 1]@
            && f[2] == fields@[at + 2]@ && f[3] == fields@[at + 3]@
                && f[4] == fields@[at + 4]@ && f[5] == fields@[at + 5]@
                    && f[6] == fields@[at + 6]@ && f[7] == fields@[at + 7]@);
        let fresh = match field_flag(&fields[at]) { Some(v) => v, None => { return None; } };
        let id = match field_id(&fields[at + 1]) { Some(v) => v, None => { return None; } };
        let length = match field_opt_num(&fields[at + 2], &fields[at
            + 3]) { Some(v) => v, None => { return None; } };
        let blob_file_id = match field_opt_bytes(&fields[at + 4], &fields[at
            + 5]) { Some(v) => v, None => { return None; } };
        let blob_length = match field_opt_num(&fields[at + 6], &fields[at
            + 7]) { Some(v) => v, None => { return None; } };
        Some(Change::PutArchive { row: Archive { id, length, blob_file_id, blob_length }, fresh })
    } else if kind == 3 {
        assert(n == 6);
        assert(f[0] == fields@[at + 0]@ && f[1] == fields@[at + 1]@
            && f[2] == fields@[at + 2]@ && f[3] == fields@[at + 3]@
                && f[4] == fields@[at + 4]@ && f[5] == fields@[at + 5]@);
        let fresh = match field_flag(&fields[at]) { Some(v) => v, None => { return None; } };
        let id = match field_id(&fields[at + 1]) { Some(v) => v, None => { return None; } };
        let size = match field_num(&fields[at + 3]) { Some(v) => v, None => { return None; } };
        let mode = match field_mode(&fields[at + 4]) { Some(v) => v, None => { return None; } };
        let mappings = match field_mappings(&fields[at
            + 5]) { Some(v) => v, None => { return None; } };
        let path = copy_bytes(fields[at + 2].as_slice());
        Some(Change::PutFile { row: File { id, path, size, mode, mappings }, fresh })
    } else if kind == 5 {
        assert(n == 4);
        assert(f[0] == fields@[at + 0]@ && f[1] == fields@[at + 1]@
            && f[2] == fields@[at + 2]@ && f[3] == fields@[at + 3]@);
        let fresh = match field_flag(&fields[at]) { Some(v) => v, None => { return None; } };
        let id = match field_id(&fields[at + 1]) { Some(v) => v, None => { return None; } };
        let mode = match field_mode(&fields[at + 3]) { Some(v) => v, None => { return None; } };
        let path = copy_bytes(fields[at + 2].as_slice());
        Some(Change::PutDirectory { row: Directory { id, path, mode }, fresh })
    } else if kind == 7 {
        assert(n == 4);
        assert(f[0] == fields@[at + 0]@ && f[1] == fields@[at + 1]@
            && f[2] == fields@[at + 2]@ && f[3] == fields@[at + 3]@);
        let fresh = match field_flag(&fields[at]) { Some(v) => v, None => { return None; } };
        let id = match field_id(&fields[at + 1]) { Some(v) => v, None => { return None; } };
        let path = copy_bytes(fields[at + 2].as_slice());
        let target = copy_bytes(fields[at + 3].as_slice());
        Some(Change::PutSymbolicLink { row: SymbolicLink { id, path, target }, fresh })
    } else if kind == 9 {
        assert(n == 6);
        assert(f[0] == fields@[at + 0]@ && f[1] == fields@[at + 1]@
            && f[2] == fields@[at + 2]@ && f[3] == fields@[at + 3]@
                && f[4] == fields@[at + 4]@ && f[5] == fields@[at + 5]@);
        let fresh = match field_flag(&fields[at]) { Some(v) => v, None => { return None; } };
        let id = match field_id(&fields[at + 1]) { Some(v) => v, None => { return None; } };
        let length = match field_num(&fields[at + 3]) { Some(v) => v, None => { return None; } };
        let archive_id = match field_id(&fields[at + 4]) { Some(v) => v, None => { return None; } };
        let archive_off = match field_num(&fields[at
            + 5]) { Some(v) => v, None => { return None; } };
        let digest = copy_bytes(fields[at + 2].as_slice());
        Some(Change::PutBlock { row: Block { id, digest, length, archive_id, archive_off }, fresh })
    } else {
        assert(n == 1);
        assert(f[0] == fields@[at + 0]@);
        let id = match field_id(&fields[at]) { Some(v) => v, None => { return None; } };
        if kind == 2 {
            Some(Change::DeleteArchive { id })
        } else if kind == 4 {
            Some(Change::DeleteFile { id })
        } else if kind == 6 {
            Some(Change::DeleteDirectory { id })
        } else if kind == 8 {
            Some(Change::DeleteSymbolicLink { id })
        } else if kind == 10 {
            Some(Change::DeleteBlock { id })
        } else {
            None
        }
    }
}

/// Reads a change-set from bytes. `None` if the bytes hold no change-set.
pub fn decode_changes(bytes: &[u8]) -> (r: Option<Vec<Change>>)
    ensures
        match r {
            Some(changes) => decoded(bytes@) == Some(change_views(changes@)),
            None => decoded(bytes@) is None,
        },
{
    let fields = match read_fields(bytes) {
        Some(fields) => fields,
        None => {
            return None;
        },
    };
    let ghost all = byte_views(fields@);
    let mut changes: Vec<Change> = Vec::new();
    let mut pos: usize = 0;
    proof {
        assert(all.skip(0) =~= all);
        assert(change_views(changes@) =~= Seq::<ChangeView>::empty());
        match changes_of(all) {
            Some(r) => {
                assert(Seq::<ChangeView>::empty() + r =~= r);
            },
            None => {},
        }
    }
    while pos < fields.len()
        invariant
            pos <= fields@.len(),
            all == byte_views(fields@),
            unframes(bytes@) == Some(all),
            changes_of(all) == followed(change_views(changes@), changes_of(all.skip(pos as int))),
        decreases fields@.len() - pos,
    {
        let ghost rest = all.skip(pos as int);
        proof {
            assert(rest[0] == fields@[pos as int]@);
        }
        let kind = match field_num(&fields[pos]) {
            Some(kind) => kind,
            None => {
                assert(changes_of(rest) is None);
                return None;
            },
        };
        let n = match count_after(kind) {
            Some(n) => n,
            None => {
                assert(changes_of(rest) is None);
                return None;
            },
        };
        if fields.len() - pos - 1 < n {
            assert(changes_of(rest) is None);
            return None;
        }
        proof {
            assert(rest.subrange(1, 1 + n as int) =~= all.subrange(pos + 1, pos + 1 + n));
        }
        let change = match read_change(kind, &fields, pos + 1, n) {
            Some(change) => change,
            None => {
                assert(changes_of(rest) is None);
                return None;
            },
        };
        let ghost before = change_views(changes@);
        let ghost c = change@;
        changes.push(change);
        proof {
            assert(rest.skip(1 + n as int) =~= all.skip(pos + 1 + n));
            assert(change_views(changes@) =~= before.push(c));
            match changes_of(all.skip(pos + 1 + n)) {
                Some(r) => {
                    assert(before + (seq![c] + r) =~= before.push(c) + r);
                },
                None => {},
            }
        }
        pos = pos + 1 + n;
    }
    proof {
        assert(all.skip(pos as int) =~= Seq::<Seq<u8>>::empty());
        assert(change_views(changes@) + Seq::<ChangeView>::empty() =~= change_views(changes@));
    }
    Some(changes)
}

} // verus!
