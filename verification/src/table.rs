//! A table of rows, each found by its integer id.

use vstd::prelude::*;

verus! {

/// A row that a table can hold: it has a view, and the view carries the row's id.
pub trait Row: View + Sized {
    /// The id that a row's view carries.
    spec fn id_of(v: Self::V) -> int;

    /// The row's id.
    fn id(&self) -> (r: i64)
        ensures
            r == Self::id_of(self@),
    ;
}

/// Rows in the order in which they were first stored, no two with the same id.
pub struct Table<R: Row> {
    rows: Vec<R>,
}

impl<R: Row> View for Table<R> {
    type V = Map<int, R::V>;

    /// The rows by id.
    closed spec fn view(&self) -> Map<int, R::V> {
        Map::new(
            |id: int| self.ids().contains(id),
            |id: int| self.rows@[self.ids().index_of(id)]@,
        )
    }
}

impl<R: Row> Table<R> {
    /// The ids of the rows, in storage order.
    pub closed spec fn ids(&self) -> Seq<int> {
        Seq::new(self.rows@.len(), |i: int| R::id_of(self.rows@[i]@))
    }

    /// No id occurs twice.
    pub closed spec fn wf(&self) -> bool {
        self.ids().no_duplicates()
    }

    /// How the storage order relates to the rows by id.
    pub proof fn lemma_ids(&self)
        requires
            self.wf(),
        ensures
            self.ids().no_duplicates(),
            forall|id: int| self.ids().contains(id) <==> #[trigger] self@.contains_key(id),
            forall|i: int|
                0 <= i < self.ids().len() ==> self@.contains_key(#[trigger] self.ids()[i])
                    && R::id_of(self@[self.ids()[i]]) == self.ids()[i],
            forall|id: int| #[trigger] self@.contains_key(id) ==> R::id_of(self@[id]) == id,
            self@.dom().finite(),
            self@.dom().len() == self.ids().len(),
    {
        let ids = self.ids();
        assert forall|i: int| 0 <= i < ids.len() implies self@.contains_key(#[trigger] ids[i])
            && R::id_of(self@[ids[i]]) == ids[i] by {
            let j = ids.index_of(ids[i]);
            assert(ids[j] == ids[i]);
        }
        assert forall|id: int| #[trigger] self@.contains_key(id) implies R::id_of(self@[id])
            == id by {
            let j = ids.index_of(id);
            assert(ids[j] == id);
        }
        assert(self@.dom() =~= ids.to_set());
        ids.unique_seq_to_set();
    }

    /// An empty table.
    pub fn new() -> (r: Self)
        ensures
            r.wf(),
            r@ == Map::<int, R::V>::empty(),
            r.ids() == Seq::<int>::empty(),
    {
        let r = Table { rows: Vec::new() };
        assert(r@ =~= Map::<int, R::V>::empty());
        assert(r.ids() =~= Seq::<int>::empty());
        r
    }

    /// Number of rows.
    pub fn len(&self) -> (n: usize)
        ensures
            n == self.ids().len(),
    {
        self.rows.len()
    }

    /// The row at position `i` of the storage order.
    pub fn row(&self, i: usize) -> (r: &R)
        requires
            self.wf(),
            i < self.ids().len(),
        ensures
            R::id_of(r@) == self.ids()[i as int],
            self@.contains_key(self.ids()[i as int]),
            r@ == self@[self.ids()[i as int]],
    {
        proof {
            self.lemma_ids();
            let ids = self.ids();
            let j = ids.index_of(ids[i as int]);
            assert(ids[j] == ids[i as int]);
        }
        &self.rows[i]
    }

    /// Position of the row with the given id.
    pub fn find(&self, id: i64) -> (r: Option<usize>)
        requires
            self.wf(),
        ensures
            r is Some <==> self@.contains_key(id as int),
            r matches Some(i) ==> i < self.ids().len() && self.ids()[i as int] == id,
    {
        proof {
            self.lemma_ids();
        }
        let mut i: usize = 0;
        while i < self.rows.len()
            invariant
                self.wf(),
                i <= self.rows@.len(),
                self.ids().len() == self.rows@.len(),
                forall|j: int| 0 <= j < i ==> self.ids()[j] != id,
            decreases self.rows@.len() - i,
        {
            if self.rows[i].id() == id {
                proof {
                    self.lemma_ids();
                    assert(self.ids()[i as int] == id);
                }
                return Some(i);
            }
            i += 1;
        }
        proof {
            self.lemma_ids();
        }
        None
    }

    /// The row with the given id.
    pub fn get(&self, id: i64) -> (r: Option<&R>)
        requires
            self.wf(),
        ensures
            r is Some <==> self@.contains_key(id as int),
            r matches Some(row) ==> row@ == self@[id as int] && R::id_of(row@) == id,
    {
        match self.find(id) {
            Some(i) => Some(self.row(i)),
            None => None,
        }
    }

    /// Whether a row with the given id is stored.
    pub fn contains(&self, id: i64) -> (r: bool)
        requires
            self.wf(),
        ensures
            r == self@.contains_key(id as int),
    {
        self.find(id).is_some()
    }

    /// Stores `row`, in place of the row with the same id if there is one, else behind
    /// all others.
    pub fn put(&mut self, row: R)
        requires
            old(self).wf(),
        ensures
            final(self).wf(),
            final(self)@ == old(self)@.insert(R::id_of(row@), row@),
            final(self).ids() == if old(self)@.contains_key(R::id_of(row@)) {
                old(self).ids()
            } else {
                old(self).ids().push(R::id_of(row@))
            },
    {
        let ghost before = *self;
        let ghost id = R::id_of(row@);
        let ghost view = row@;
        proof {
            before.lemma_ids();
        }
        match self.find(row.id()) {
            Some(i) => {
                self.rows[i] = row;
                proof {
                    assert(self.ids() =~= before.ids());
                    self.lemma_ids();
                    assert forall|k: int| self@.contains_key(k) implies #[trigger] self@[k]
                        == before@.insert(id, view)[k] by {
                        let j = self.ids().index_of(k);
                        assert(self.ids()[j] == k);
                        let j2 = before.ids().index_of(k);
                        assert(before.ids()[j2] == k);
                    }
                    assert(self@ =~= before@.insert(id, view));
                }
            },
            None => {
                self.rows.push(row);
                proof {
                    assert(self.ids() =~= before.ids().push(id));
                    assert(!before.ids().contains(id));
                    assert(self.ids().no_duplicates());
                    self.lemma_ids();
                    assert forall|k: int| self.ids().contains(k) <==> before.ids().contains(k)
                        || k == id by {
                        if before.ids().contains(k) {
                            let j = before.ids().index_of(k);
                            assert(self.ids()[j] == k);
                        }
                        if k == id {
                            assert(self.ids()[self.ids().len() - 1] == k);
                        }
                    }
                    assert forall|k: int| self@.contains_key(k) implies #[trigger] self@[k]
                        == before@.insert(id, view)[k] by {
                        let j = self.ids().index_of(k);
                        assert(self.ids()[j] == k);
                        if k != id {
                            let j2 = before.ids().index_of(k);
                            assert(before.ids()[j2] == k);
                            assert(self.ids()[j2] == k);
                        }
                    }
                    assert(self@ =~= before@.insert(id, view));
                }
            },
        }
    }

    /// Removes the row with the given id, if there is one, and returns it.
    pub fn remove(&mut self, id: i64) -> (r: Option<R>)
        requires
            old(self).wf(),
        ensures
            final(self).wf(),
            final(self)@ == old(self)@.remove(id as int),
            r is Some <==> old(self)@.contains_key(id as int),
            r matches Some(row) ==> row@ == old(self)@[id as int],
    {
        let ghost before = *self;
        proof {
            before.lemma_ids();
        }
        match self.find(id) {
            Some(i) => {
                let ghost old_row = before.rows@[i as int];
                let row = self.rows.remove(i);
                proof {
                    before.ids().remove_ensures(i as int);
                    assert(self.ids() =~= before.ids().remove(i as int));
                    assert(self.ids().no_duplicates());
                    self.lemma_ids();
                    assert forall|k: int| self.ids().contains(k) <==> before.ids().contains(k)
                        && k != id by {
                        if self.ids().contains(k) {
                            let j = self.ids().index_of(k);
                            assert(self.ids()[j] == k);
                            if j < i {
                                assert(before.ids()[j] == k);
                            } else {
                                assert(before.ids()[j + 1] == k);
                            }
                        }
                        if before.ids().contains(k) && k != id {
                            let j = before.ids().index_of(k);
                            assert(before.ids()[j] == k);
                            if j < i {
                                assert(self.ids()[j] == k);
                            } else {
                                assert(self.ids()[j - 1] == k);
                            }
                        }
                    }
                    assert forall|k: int| self@.contains_key(k) implies #[trigger] self@[k]
                        == before@[k] by {
                        let j = self.ids().index_of(k);
                        assert(self.ids()[j] == k);
                        let j2 = before.ids().index_of(k);
                        assert(before.ids()[j2] == k);
                        if j < i {
                            assert(before.ids()[j] == k);
                        } else {
                            assert(before.ids()[j + 1] == k);
                        }
                    }
                    assert(self@ =~= before@.remove(id as int));
                    let j0 = before.ids().index_of(id as int);
                    assert(before.ids()[j0] == id);
                }
                Some(row)
            },
            None => {
                assert(self@ =~= before@.remove(id as int));
                None
            },
        }
    }

    /// Removes all rows.
    pub fn clear(&mut self)
        ensures
            final(self).wf(),
            final(self)@ == Map::<int, R::V>::empty(),
            final(self).ids() == Seq::<int>::empty(),
    {
        self.rows.clear();
        assert(self@ =~= Map::<int, R::V>::empty());
        assert(self.ids() =~= Seq::<int>::empty());
    }
}

/// The ids in `ids`, as mathematical integers.
pub open spec fn id_seq(ids: Seq<i64>) -> Seq<int> {
    Seq::new(ids.len(), |i: int| ids[i] as int)
}

/// The ids of the rows of `table` that `keep` accepts, in storage order. `keep` has to
/// decide `wanted` for every row.
pub(crate) fn select_ids<R: Row, F: Fn(&R) -> bool>(
    table: &Table<R>,
    keep: F,
    Ghost(wanted): Ghost<spec_fn(R::V) -> bool>,
) -> (out: Vec<i64>)
    requires
        table.wf(),
        forall|r: &R| table@.contains_key(R::id_of(r@)) && table@[R::id_of(r@)] == r@ ==>
            #[trigger] keep.requires((r,)),
        forall|r: &R, b: bool| #[trigger] keep.ensures((r,), b) ==> b == wanted(r@),
    ensures
        id_seq(out@).no_duplicates(),
        forall|id: int|
            id_seq(out@).contains(id) <==> #[trigger] table@.contains_key(id) && wanted(table@[id]),
        forall|k: int|
            0 <= k < out@.len() ==> table@.contains_key(#[trigger] out@[k] as int) && wanted(
                table@[out@[k] as int],
            ),
{
    let mut out: Vec<i64> = Vec::new();
    let mut i: usize = 0;
    proof {
        table.lemma_ids();
    }
    let ghost ids = table.ids();
    while i < table.len()
        invariant
            table.wf(),
            ids == table.ids(),
            ids.no_duplicates(),
            i <= ids.len(),
            forall|r: &R| table@.contains_key(R::id_of(r@)) && table@[R::id_of(r@)] == r@ ==>
                #[trigger] keep.requires((r,)),
            forall|r: &R, b: bool| #[trigger] keep.ensures((r,), b) ==> b == wanted(r@),
            id_seq(out@).no_duplicates(),
            forall|k: int| 0 <= k < out@.len() ==>
                exists|j: int| 0 <= j < i && ids[j] == #[trigger] id_seq(out@)[k],
            forall|j: int| 0 <= j < i ==> (id_seq(out@).contains(#[trigger] ids[j]) <==>
                wanted(table@[ids[j]])),
        decreases ids.len() - i,
    {
        let row = table.row(i);
        let ghost before = id_seq(out@);
        if keep(row) {
            out.push(row.id());
            proof {
                let now = id_seq(out@);
                assert(now =~= before.push(ids[i as int]));
                assert(now[now.len() - 1] == ids[i as int]);
                assert forall|j: int| 0 <= j <= i implies (now.contains(#[trigger] ids[j]) <==>
                    wanted(table@[ids[j]])) by {
                    if j < i {
                        if before.contains(ids[j]) {
                            let k = before.index_of(ids[j]);
                            assert(now[k] == ids[j]);
                        }
                        if now.contains(ids[j]) {
                            let k = now.index_of(ids[j]);
                            assert(k < before.len());
                            assert(before[k] == ids[j]);
                        }
                    }
                }
            }
        }
        i += 1;
    }
    proof {
        table.lemma_ids();
        assert forall|id: int| id_seq(out@).contains(id) <==>
            #[trigger] table@.contains_key(id) && wanted(table@[id]) by {
            if id_seq(out@).contains(id) {
                let k = id_seq(out@).index_of(id);
                assert(id_seq(out@)[k] == id);
            }
            if table@.contains_key(id) {
                let j = ids.index_of(id);
                assert(ids[j] == id);
            }
        }
        assert forall|k: int| 0 <= k < out@.len() implies table@.contains_key(
            #[trigger] out@[k] as int,
        ) && wanted(table@[out@[k] as int]) by {
            assert(id_seq(out@)[k] == out@[k]);
            assert(id_seq(out@).contains(out@[k] as int));
        }
    }
    out
}

/// The sum of `weight` over the rows of `m`.
pub open spec fn map_sum<V>(m: Map<int, V>, weight: spec_fn(V) -> nat) -> nat
    decreases m.dom().len(),
    when m.dom().finite()
    via map_sum_decreases::<V>
{
    if m.dom().len() == 0 {
        0
    } else {
        let k = m.dom().choose();
        weight(m[k]) + map_sum(m.remove(k), weight)
    }
}

#[via_fn]
proof fn map_sum_decreases<V>(m: Map<int, V>, weight: spec_fn(V) -> nat) {
    if m.dom().len() != 0 {
        let k = m.dom().choose();
        lemma_remove_shrinks(m, k);
    }
}

proof fn lemma_remove_shrinks<V>(m: Map<int, V>, k: int)
    requires
        m.dom().finite(),
        m.dom().contains(k),
    ensures
        m.remove(k).dom().finite(),
        m.remove(k).dom().len() == m.dom().len() - 1,
        m.dom().len() > 0,
{
    assert(m.remove(k).dom() =~= m.dom().remove(k));
    if m.dom().len() == 0 {
        assert(m.dom() =~= Set::<int>::empty());
    }
}

/// The sum over a map is the weight of any one row and the sum over the others.
pub proof fn lemma_map_sum_remove<V>(m: Map<int, V>, weight: spec_fn(V) -> nat, k: int)
    requires
        m.dom().finite(),
        m.contains_key(k),
    ensures
        map_sum(m, weight) == weight(m[k]) + map_sum(m.remove(k), weight),
    decreases m.dom().len(),
{
    lemma_remove_shrinks(m, k);
    let c = m.dom().choose();
    assert(m.dom().contains(c));
    if c != k {
        lemma_remove_shrinks(m, c);
        lemma_map_sum_remove(m.remove(c), weight, k);
        lemma_map_sum_remove(m.remove(k), weight, c);
        assert(m.remove(c).remove(k) =~= m.remove(k).remove(c));
    }
}

/// The sum over the empty map is zero.
pub proof fn lemma_map_sum_empty<V>(m: Map<int, V>, weight: spec_fn(V) -> nat)
    requires
        m.dom().finite(),
        m.dom().len() == 0,
    ensures
        map_sum(m, weight) == 0,
{
}

/// A sum of weights that are all zero is zero.
pub proof fn lemma_map_sum_zero<V>(m: Map<int, V>, weight: spec_fn(V) -> nat)
    requires
        m.dom().finite(),
        forall|k: int| #[trigger] m.contains_key(k) ==> weight(m[k]) == 0,
    ensures
        map_sum(m, weight) == 0,
    decreases m.dom().len(),
{
    if m.dom().len() > 0 {
        let k = m.dom().choose();
        lemma_remove_shrinks(m, k);
        lemma_map_sum_zero(m.remove(k), weight);
    }
}

/// The sum once a row was replaced by one that weighs nothing: less by what the row
/// weighed.
pub proof fn lemma_map_sum_replace<V>(m: Map<int, V>, weight: spec_fn(V) -> nat, k: int, v: V)
    requires
        m.dom().finite(),
        m.contains_key(k),
        weight(v) == 0,
    ensures
        map_sum(m.insert(k, v), weight) + weight(m[k]) == map_sum(m, weight),
        weight(m[k]) <= map_sum(m, weight),
{
    lemma_map_sum_remove(m, weight, k);
    lemma_map_sum_remove(m.insert(k, v), weight, k);
    assert(m.insert(k, v).remove(k) =~= m.remove(k));
}

/// The rows of `table` but those at the first `i` positions of the storage order.
pub open spec fn rows_from<R: Row>(table: Table<R>, i: int) -> Map<int, R::V> {
    Map::new(
        |id: int| exists|j: int| i <= j < table.ids().len() && #[trigger] table.ids()[j] == id,
        |id: int| table@[id],
    )
}

/// The sum over the rows of `table` of what `measure` gives for each. `measure` has to
/// compute `weight` for every row.
pub(crate) fn table_sum<R: Row, F: Fn(&R) -> u64>(
    table: &Table<R>,
    measure: F,
    Ghost(weight): Ghost<spec_fn(R::V) -> nat>,
) -> (total: u128)
    requires
        table.wf(),
        forall|r: &R| table@.contains_key(R::id_of(r@)) && table@[R::id_of(r@)] == r@ ==>
            #[trigger] measure.requires((r,)),
        forall|r: &R, x: u64| #[trigger] measure.ensures((r,), x) ==> x == weight(r@),
    ensures
        total == map_sum(table@, weight),
{
    let mut total: u128 = 0;
    let mut i: usize = 0;
    let ghost ids = table.ids();
    proof {
        table.lemma_ids();
        assert(rows_from(*table, 0) =~= table@) by {
            assert forall|id: int| table@.contains_key(id) implies rows_from(*table,
                0).contains_key(id) by {
                let j = ids.index_of(id);
                assert(ids[j] == id);
            }
        }
    }
    while i < table.len()
        invariant
            table.wf(),
            ids == table.ids(),
            ids.no_duplicates(),
            i <= ids.len(),
            forall|r: &R| table@.contains_key(R::id_of(r@)) && table@[R::id_of(r@)] == r@ ==>
                #[trigger] measure.requires((r,)),
            forall|r: &R, x: u64| #[trigger] measure.ensures((r,), x) ==> x == weight(r@),
            total <= i * 0xFFFF_FFFF_FFFF_FFFF,
            total + map_sum(rows_from(*table, i as int), weight) == map_sum(table@, weight),
        decreases ids.len() - i,
    {
        let row = table.row(i);
        let x = measure(row);
        proof {
            let rest = rows_from(*table, i as int);
            let next = rows_from(*table, i + 1);
            table.lemma_ids();
            assert(rest.contains_key(ids[i as int]));
            assert(rest.dom().finite()) by {
                assert(rest.dom().subset_of(table@.dom()));
                vstd::set_lib::lemma_len_subset(rest.dom(), table@.dom());
            }
            lemma_map_sum_remove(rest, weight, ids[i as int]);
            assert(rest.remove(ids[i as int]) =~= next) by {
                assert forall|id: int| rest.remove(ids[i as int]).contains_key(id) <==>
                    next.contains_key(id) by {
                    if rest.remove(ids[i as int]).contains_key(id) {
                        let j = choose|j: int| i <= j < ids.len() && #[trigger] ids[j] == id;
                        assert(j != i);
                        assert(i + 1 <= j < ids.len() && ids[j] == id);
                    }
                    if next.contains_key(id) {
                        let j = choose|j: int| i + 1 <= j < ids.len() && #[trigger] ids[j] == id;
                        assert(i <= j < ids.len() && ids[j] == id);
                    }
                }
            }
            assert((i + 1) * 0xFFFF_FFFF_FFFF_FFFF == i * 0xFFFF_FFFF_FFFF_FFFF
                + 0xFFFF_FFFF_FFFF_FFFF) by (nonlinear_arith);
            assert(i * 0xFFFF_FFFF_FFFF_FFFF <= 0xFFFF_FFFF_FFFF_FFFF * 0xFFFF_FFFF_FFFF_FFFF) by (nonlinear_arith)
                requires
                    i <= 0xFFFF_FFFF_FFFF_FFFF,
            ;
        }
        total = total + x as u128;
        i += 1;
    }
    proof {
        let rest = rows_from(*table, ids.len() as int);
        assert(rest.dom() =~= Set::<int>::empty());
        lemma_map_sum_empty(rest, weight);
    }
    total
}

} // verus!
