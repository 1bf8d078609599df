//! The entity/component store.
//!
//! A [`Scene`] owns an entity directory and a registry of component
//! columns. Each column is a homogeneous, append/swap-remove sequence of
//! `(Entity, value)` rows for one component key; the directory maps each
//! live entity to the ordered list of `(key, row index)` references
//! naming every component it owns. Removal swap-compacts the column and
//! repoints the reference of whichever row was moved into the hole.
//!
//! The store is specified against a ghost model, [`SceneView`]: a
//! sequence of directory slots (one per handle ever allocated, `None`
//! once despawned) and a sequence of column views. Every mutating
//! operation states its exact effect on the model and preserves the
//! structural well-formedness predicate [`SceneView::wf`].

use vstd::prelude::*;

verus! {

/// An opaque entity handle. Handles are allocated by a monotonically
/// increasing counter and are never reused within one store's lifetime.
pub type Entity = usize;

/// A reference held by an entity, naming exactly one row of exactly one
/// column: the component type's key and the row index inside that
/// column.
#[derive(Debug, Clone, Copy, PartialEq, Eq, Structural)]
pub struct ComponentRef {
    pub key: u64,
    pub index: usize,
}

/// One row of a column: a component value together with the entity that
/// owns it.
#[derive(Debug, PartialEq)]
pub struct Row<C> {
    pub entity: Entity,
    pub value: C,
}

/// The errors a store operation can report. Column type mismatches are
/// impossible by construction (a column's rows all carry the store's one
/// component value type), so the only failure is naming an entity that
/// is not in the directory.
#[derive(Debug, Clone, Copy, PartialEq, Eq, Structural)]
pub enum EcsError {
    UnknownEntity,
}

/// One component column: the key it is registered under and its rows.
struct Column<C> {
    key: u64,
    rows: Vec<Row<C>>,
}

/// The entity/component store.
///
/// `slots` is the entity directory, indexed by handle: slot `e` holds
/// `Some(references)` while `e` is live and `None` once `e` has been
/// despawned (or, equivalently, the number of slots is the number of
/// handles ever allocated). `columns` is the registry of component
/// columns, keyed by `u64` component keys, created lazily and never
/// deleted. `live_count` caches the number of live slots.
pub struct Scene<C> {
    slots: Vec<Option<Vec<ComponentRef>>>,
    columns: Vec<Column<C>>,
    live_count: usize,
}

/// Ghost model of one column.
pub ghost struct ColumnView<C> {
    pub key: u64,
    pub rows: Seq<Row<C>>,
}

/// Ghost model of a store: one directory slot per handle ever
/// allocated, and the registered columns in creation order.
pub ghost struct SceneView<C> {
    pub slots: Seq<Option<Seq<ComponentRef>>>,
    pub cols: Seq<ColumnView<C>>,
}

/// How many directory slots are live.
pub open spec fn count_live(s: Seq<Option<Seq<ComponentRef>>>) -> nat
    decreases s.len(),
{
    if s.len() == 0 {
        0
    } else {
        count_live(s.drop_last()) + if s.last() is Some {
            1nat
        } else {
            0nat
        }
    }
}

/// No two columns are registered under the same key.
pub open spec fn keys_unique<C>(cols: Seq<ColumnView<C>>) -> bool {
    forall|i: int, j: int|
        #![trigger cols[i], cols[j]]
        0 <= i < j < cols.len() ==> cols[i].key != cols[j].key
}

/// Whether some column is registered under `k`.
pub open spec fn has_col<C>(cols: Seq<ColumnView<C>>, k: u64) -> bool {
    exists|i: int| 0 <= i < cols.len() && (#[trigger] cols[i]).key == k
}

/// The position of the column registered under `k` (meaningful only
/// when `has_col` holds and keys are unique).
pub open spec fn col_idx<C>(cols: Seq<ColumnView<C>>, k: u64) -> int {
    choose|i: int| 0 <= i < cols.len() && (#[trigger] cols[i]).key == k
}

/// The rows of the column registered under `k`, or the empty sequence
/// if no such column exists.
pub open spec fn col_rows<C>(cols: Seq<ColumnView<C>>, k: u64) -> Seq<Row<C>> {
    if has_col(cols, k) {
        cols[col_idx(cols, k)].rows
    } else {
        Seq::empty()
    }
}

/// Replacing the column at `ci` by one of the same key keeps the keys
/// unique, keeps every other column's rows, and routes lookups of that
/// key to the new rows.
pub proof fn lemma_cols_update_access<C>(cols: Seq<ColumnView<C>>, ci: int, c2: ColumnView<C>)
    requires
        keys_unique(cols),
        0 <= ci < cols.len(),
        c2.key == cols[ci].key,
    ensures
        keys_unique(cols.update(ci, c2)),
        has_col(cols.update(ci, c2), c2.key),
        col_idx(cols.update(ci, c2), c2.key) == ci,
        col_rows(cols.update(ci, c2), c2.key) == c2.rows,
        forall|k2: u64|
            k2 != c2.key ==> #[trigger] has_col(cols.update(ci, c2), k2) == has_col(cols, k2),
        forall|k2: u64|
            k2 != c2.key ==> #[trigger] col_rows(cols.update(ci, c2), k2) == col_rows(cols, k2),
{
    let cols2 = cols.update(ci, c2);
    assert forall|i: int, j: int|
        #![trigger cols2[i], cols2[j]]
        0 <= i < j < cols2.len() implies cols2[i].key != cols2[j].key by {
        assert(cols[i].key != cols[j].key);
    }
    lemma_col_idx_is(cols2, c2.key, ci);
    assert forall|k2: u64| k2 != c2.key implies #[trigger] has_col(cols2, k2) == has_col(
        cols,
        k2,
    ) by {
        lemma_cols_update_access_one(cols, ci, c2, k2);
    }
    assert forall|k2: u64| k2 != c2.key implies #[trigger] col_rows(cols2, k2) == col_rows(
        cols,
        k2,
    ) by {
        lemma_cols_update_access_one(cols, ci, c2, k2);
    }
}

/// One-key case of [`lemma_cols_update_access`]: a key other than the
/// replaced column's resolves identically before and after the update.
proof fn lemma_cols_update_access_one<C>(
    cols: Seq<ColumnView<C>>,
    ci: int,
    c2: ColumnView<C>,
    k2: u64,
)
    requires
        keys_unique(cols),
        0 <= ci < cols.len(),
        c2.key == cols[ci].key,
        k2 != c2.key,
        keys_unique(cols.update(ci, c2)),
    ensures
        has_col(cols.update(ci, c2), k2) == has_col(cols, k2),
        col_rows(cols.update(ci, c2), k2) == col_rows(cols, k2),
{
    let cols2 = cols.update(ci, c2);
    if has_col(cols, k2) {
        let i = col_idx(cols, k2);
        assert(0 <= i < cols.len() && cols[i].key == k2);
        lemma_col_idx_is(cols, k2, i);
        lemma_col_idx_is(cols2, k2, i);
    } else if has_col(cols2, k2) {
        let i = col_idx(cols2, k2);
        assert(0 <= i < cols2.len() && cols2[i].key == k2);
        assert(cols[i].key == k2);
    }
}

/// Registering a column under a fresh key at the end of the registry
/// keeps the keys unique and every existing column reachable unchanged.
pub proof fn lemma_cols_push_access<C>(cols: Seq<ColumnView<C>>, c2: ColumnView<C>)
    requires
        keys_unique(cols),
        !has_col(cols, c2.key),
    ensures
        keys_unique(cols.push(c2)),
        has_col(cols.push(c2), c2.key),
        col_idx(cols.push(c2), c2.key) == cols.len(),
        col_rows(cols.push(c2), c2.key) == c2.rows,
        forall|k2: u64| k2 != c2.key ==> #[trigger] has_col(cols.push(c2), k2) == has_col(cols, k2),
        forall|k2: u64|
            k2 != c2.key ==> #[trigger] col_rows(cols.push(c2), k2) == col_rows(cols, k2),
{
    let cols2 = cols.push(c2);
    assert forall|i: int, j: int|
        #![trigger cols2[i], cols2[j]]
        0 <= i < j < cols2.len() implies cols2[i].key != cols2[j].key by {
        if j < cols.len() {
            assert(cols[i].key != cols[j].key);
        } else {
            assert(cols2[j] == c2);
            if cols[i].key == c2.key {
                assert(has_col(cols, c2.key));
            }
        }
    }
    lemma_col_idx_is(cols2, c2.key, cols.len() as int);
    assert forall|k2: u64| k2 != c2.key implies #[trigger] has_col(cols2, k2) == has_col(
        cols,
        k2,
    ) by {
        lemma_cols_push_access_one(cols, c2, k2);
    }
    assert forall|k2: u64| k2 != c2.key implies #[trigger] col_rows(cols2, k2) == col_rows(
        cols,
        k2,
    ) by {
        lemma_cols_push_access_one(cols, c2, k2);
    }
}

/// One-key case of [`lemma_cols_push_access`]: a key other than the
/// appended column's resolves identically before and after the push.
proof fn lemma_cols_push_access_one<C>(cols: Seq<ColumnView<C>>, c2: ColumnView<C>, k2: u64)
    requires
        keys_unique(cols),
        !has_col(cols, c2.key),
        k2 != c2.key,
        keys_unique(cols.push(c2)),
    ensures
        has_col(cols.push(c2), k2) == has_col(cols, k2),
        col_rows(cols.push(c2), k2) == col_rows(cols, k2),
{
    let cols2 = cols.push(c2);
    if has_col(cols, k2) {
        let i = col_idx(cols, k2);
        assert(0 <= i < cols.len() && cols[i].key == k2);
        lemma_col_idx_is(cols, k2, i);
        lemma_col_idx_is(cols2, k2, i);
    } else if has_col(cols2, k2) {
        let i = col_idx(cols2, k2);
        assert(0 <= i < cols2.len() && cols2[i].key == k2);
        assert(i < cols.len());
        assert(cols[i].key == k2);
    }
}

/// The position in `refs` of the reference `target` (meaningful only
/// when `refs` contains it; unique when `refs` has no duplicates).
pub open spec fn ref_pos_of(refs: Seq<ComponentRef>, target: ComponentRef) -> int {
    choose|j: int| 0 <= j < refs.len() && refs[j] == target
}

/// The first position in `refs` holding exactly the reference
/// `(key, index)`, if any.
fn find_ref_pos(refs: &Vec<ComponentRef>, key: u64, index: usize) -> (r: Option<usize>)
    ensures
        match r {
            Some(j) => j < refs@.len() && refs@[j as int] == ComponentRef { key, index },
            None => !refs@.contains(ComponentRef { key, index }),
        },
{
    let mut j: usize = 0;
    while j < refs.len()
        invariant
            j <= refs@.len(),
            forall|j2: int| 0 <= j2 < j ==> refs@[j2] != (ComponentRef { key, index }),
        decreases refs@.len() - j,
    {
        if refs[j].key == key && refs[j].index == index {
            return Some(j);
        }
        j = j + 1;
    }
    None
}

/// Under unique keys, any position holding key `k` is the position
/// `col_idx` denotes.
pub proof fn lemma_col_idx_is<C>(cols: Seq<ColumnView<C>>, k: u64, i: int)
    requires
        keys_unique(cols),
        0 <= i < cols.len(),
        cols[i].key == k,
    ensures
        has_col(cols, k),
        col_idx(cols, k) == i,
        col_rows(cols, k) == cols[i].rows,
{
    assert(has_col(cols, k));
    let j = col_idx(cols, k);
    if i < j {
        assert(cols[i].key != cols[j].key);
    } else if j < i {
        assert(cols[j].key != cols[i].key);
    }
}

impl<C> SceneView<C> {
    /// The handle the next spawn will allocate.
    pub open spec fn next_handle(self) -> int {
        self.slots.len() as int
    }

    /// Whether handle `e` is currently in the directory.
    pub open spec fn is_live(self, e: int) -> bool {
        0 <= e < self.slots.len() && self.slots[e] is Some
    }

    /// The ordered reference list of entity `e` (empty when `e` is not
    /// live).
    pub open spec fn refs_of(self, e: int) -> Seq<ComponentRef> {
        match self.slots[e] {
            Some(refs) => refs,
            None => Seq::empty(),
        }
    }

    /// The number of live entities.
    pub open spec fn live_count(self) -> nat {
        count_live(self.slots)
    }

    /// The registered column keys, in creation order.
    pub open spec fn col_keys(self) -> Seq<u64> {
        self.cols.map_values(|c: ColumnView<C>| c.key)
    }

    /// Whether a column for key `k` has ever been created.
    pub open spec fn has_column(self, k: u64) -> bool {
        has_col(self.cols, k)
    }

    /// The rows of column `k`, empty if the column does not exist.
    pub open spec fn column_rows(self, k: u64) -> Seq<Row<C>> {
        col_rows(self.cols, k)
    }

    /// Reference `r`, held by entity `e`, names a row of an existing
    /// column, and that row records `e` as its owner.
    pub open spec fn ref_target_ok(self, e: int, r: ComponentRef) -> bool {
        &&& self.has_column(r.key)
        &&& (r.index as int) < self.column_rows(r.key).len()
        &&& self.column_rows(r.key)[r.index as int].entity as int == e
    }

    /// The `j`-th reference of entity `e` is valid.
    pub open spec fn ref_ok(self, e: int, j: int) -> bool {
        self.ref_target_ok(e, self.refs_of(e)[j])
    }

    /// Directory-to-column consistency: every reference in every live
    /// entity's list names a row of an existing column, and that row
    /// records the entity as its owner.
    pub open spec fn refs_valid(self) -> bool {
        forall|e: int, j: int|
            self.is_live(e) && 0 <= j < self.refs_of(e).len() ==> #[trigger] self.ref_ok(e, j)
    }

    /// The row at position `i` of column `ci` is owned by a live entity
    /// whose reference list mentions exactly this row.
    pub open spec fn row_owner_ok(self, ci: int, i: int) -> bool {
        let e = self.cols[ci].rows[i].entity as int;
        &&& self.is_live(e)
        &&& self.refs_of(e).contains(ComponentRef { key: self.cols[ci].key, index: i as usize })
    }

    /// Column-to-directory consistency: every row is owned by a live
    /// entity that holds a reference to it.
    pub open spec fn rows_owned(self) -> bool {
        forall|ci: int, i: int|
            0 <= ci < self.cols.len() && 0 <= i < self.cols[ci].rows.len()
                ==> #[trigger] self.row_owner_ok(ci, i)
    }

    /// No entity lists the same `(key, index)` reference twice.
    pub open spec fn refs_unique(self) -> bool {
        forall|e: int, j1: int, j2: int|
            #![trigger self.refs_of(e)[j1], self.refs_of(e)[j2]]
            self.is_live(e) && 0 <= j1 < j2 < self.refs_of(e).len()
                ==> self.refs_of(e)[j1] != self.refs_of(e)[j2]
    }

    /// Structural well-formedness: the four store invariants. Unique
    /// column keys, valid cross-references in both directions, and no
    /// duplicated reference. (That a despawned entity has no residual
    /// reference anywhere is structural here: a despawned slot holds no
    /// list at all, and `rows_owned` forbids rows owned by dead
    /// handles.)
    pub open spec fn wf(self) -> bool {
        &&& keys_unique(self.cols)
        &&& self.refs_valid()
        &&& self.rows_owned()
        &&& self.refs_unique()
    }

    /// The model after a spawn: one more live slot with an empty
    /// reference list; columns untouched.
    pub open spec fn spec_spawn(self) -> SceneView<C> {
        SceneView { slots: self.slots.push(Some(Seq::empty())), cols: self.cols }
    }

    /// The model after adding a component: the row `(e, v)` is appended
    /// to `k`'s column (created now if `k` was never seen), and the
    /// reference `(k, former column length)` is appended to `e`'s list.
    /// Adding to a non-live entity leaves the model unchanged (the
    /// operation reports the error instead).
    pub open spec fn spec_add(self, e: int, k: u64, v: C) -> SceneView<C> {
        if !self.is_live(e) {
            self
        } else {
            let row = Row { entity: e as usize, value: v };
            let idx = self.column_rows(k).len();
            let cols2 = if self.has_column(k) {
                self.cols.update(
                    col_idx(self.cols, k),
                    ColumnView { key: k, rows: self.column_rows(k).push(row) },
                )
            } else {
                self.cols.push(ColumnView { key: k, rows: seq![row] })
            };
            let r = ComponentRef { key: k, index: idx as usize };
            SceneView { slots: self.slots.update(e, Some(self.refs_of(e).push(r))), cols: cols2 }
        }
    }

    /// The model after removing the last-added component reference of
    /// entity `e`: the reference is popped, the row it names is
    /// swap-removed from its column (the last row moves into the hole),
    /// and if a row did move, its owner's reference to the former last
    /// index is repointed to the hole. Removing from an entity that is
    /// not live or has no components leaves the model unchanged. (The
    /// inner fallback branches are never taken on a well-formed model;
    /// they only make the function total.)
    pub open spec fn spec_remove_last(self, e: int) -> SceneView<C> {
        if !self.is_live(e) || self.refs_of(e).len() == 0 {
            self
        } else {
            let refs = self.refs_of(e);
            let r = refs.last();
            let k = r.key;
            let i = r.index as int;
            let m1 = SceneView {
                slots: self.slots.update(e, Some(refs.drop_last())),
                cols: self.cols,
            };
            if !self.has_column(k) || i >= self.column_rows(k).len() {
                m1
            } else {
                let rows = self.column_rows(k);
                let last_i = rows.len() - 1;
                let rows2 = rows.update(i, rows.last()).drop_last();
                let cols2 = self.cols.update(
                    col_idx(self.cols, k),
                    ColumnView { key: k, rows: rows2 },
                );
                let m2 = SceneView { slots: m1.slots, cols: cols2 };
                if i == last_i {
                    m2
                } else {
                    let e2 = rows[last_i].entity as int;
                    let refs2 = m2.refs_of(e2);
                    let target = ComponentRef { key: k, index: last_i as usize };
                    if m2.is_live(e2) && refs2.contains(target) {
                        let j = ref_pos_of(refs2, target);
                        SceneView {
                            slots: m2.slots.update(
                                e2,
                                Some(refs2.update(j, ComponentRef { key: k, index: r.index })),
                            ),
                            cols: cols2,
                        }
                    } else {
                        m2
                    }
                }
            }
        }
    }

    /// Entity `x` is live and holds at least one reference into column
    /// `k`.
    pub open spec fn owns_component_of(self, x: int, k: u64) -> bool {
        self.is_live(x) && exists|j: int|
            0 <= j < self.refs_of(x).len() && (#[trigger] self.refs_of(x)[j]).key == k
    }

    /// Some row of column `k` records `x` as its owning entity.
    pub open spec fn column_mentions(self, k: u64, x: int) -> bool {
        exists|i: int|
            0 <= i < self.column_rows(k).len() && (#[trigger] self.column_rows(k)[i]).entity as int
                == x
    }

    /// The model after despawning `e`: its references are removed
    /// last-first, each removal swap-compacting its column as
    /// [`Self::spec_remove_last`] describes, and finally the directory
    /// slot is cleared. Despawning a non-live entity leaves the model
    /// unchanged.
    pub open spec fn spec_despawn(self, e: int) -> SceneView<C>
        decreases self.refs_of(e).len(),
    {
        if !self.is_live(e) {
            self
        } else if self.refs_of(e).len() == 0 {
            SceneView { slots: self.slots.update(e, None), cols: self.cols }
        } else if self.spec_remove_last(e).refs_of(e).len() < self.refs_of(e).len() {
            self.spec_remove_last(e).spec_despawn(e)
        } else {
            // on a well-formed model a removal always shrinks the list;
            // this branch only makes the recursion visibly bounded
            self
        }
    }
}

/// Replacing one column's rows by rows of the same length with the
/// same owners (only the component values may differ) preserves
/// well-formedness.
pub proof fn lemma_wf_after_value_update<C>(m: SceneView<C>, k: u64, rows2: Seq<Row<C>>)
    requires
        m.wf(),
        m.has_column(k),
        rows2.len() == m.column_rows(k).len(),
        forall|i: int|
            0 <= i < rows2.len() ==> (#[trigger] rows2[i]).entity == m.column_rows(k)[i].entity,
    ensures
        (SceneView {
            slots: m.slots,
            cols: m.cols.update(col_idx(m.cols, k), ColumnView { key: k, rows: rows2 }),
        }).wf(),
{
    let ci = col_idx(m.cols, k);
    assert(0 <= ci < m.cols.len() && m.cols[ci].key == k);
    let c2 = ColumnView { key: k, rows: rows2 };
    let mr = SceneView { slots: m.slots, cols: m.cols.update(ci, c2) };
    lemma_cols_update_access(m.cols, ci, c2);
    assert(mr.refs_valid()) by {
        assert forall|x: int, j: int|
            mr.is_live(x) && 0 <= j < mr.refs_of(x).len() implies #[trigger] mr.ref_ok(x, j) by {
            assert(m.ref_ok(x, j));
            let rr = m.refs_of(x)[j];
            if rr.key == k {
                assert(mr.column_rows(k) == rows2);
                assert(rows2[rr.index as int].entity == m.column_rows(k)[rr.index as int].entity);
            } else {
                assert(mr.column_rows(rr.key) == m.column_rows(rr.key));
                assert(mr.has_column(rr.key) == m.has_column(rr.key));
            }
        }
    }
    assert(mr.rows_owned()) by {
        assert forall|cj: int, p: int|
            0 <= cj < mr.cols.len() && 0 <= p < mr.cols[cj].rows.len()
                implies #[trigger] mr.row_owner_ok(cj, p) by {
            assert(m.row_owner_ok(cj, p));
            if cj == ci {
                assert(mr.cols[cj].rows[p].entity == m.cols[cj].rows[p].entity);
            } else {
                assert(mr.cols[cj] == m.cols[cj]);
            }
        }
    }
    assert(mr.refs_unique()) by {
        assert forall|x: int, j1: int, j2: int|
            #![trigger mr.refs_of(x)[j1], mr.refs_of(x)[j2]]
            mr.is_live(x) && 0 <= j1 < j2 < mr.refs_of(x).len() implies mr.refs_of(x)[j1]
                != mr.refs_of(x)[j2] by {
            assert(mr.refs_of(x)[j1] == m.refs_of(x)[j1]);
            assert(mr.refs_of(x)[j2] == m.refs_of(x)[j2]);
        }
    }
}

/// Third store invariant, derived from well-formedness: the entities
/// that hold a reference into column `k` are exactly the entities
/// appearing in that column's rows.
pub proof fn lemma_column_entity_correspondence<C>(m: SceneView<C>, k: u64, x: int)
    requires
        m.wf(),
        m.has_column(k),
    ensures
        m.owns_component_of(x, k) <==> m.column_mentions(k, x),
{
    let ci = col_idx(m.cols, k);
    assert(0 <= ci < m.cols.len() && m.cols[ci].key == k);
    assert(m.column_rows(k) == m.cols[ci].rows);
    if m.owns_component_of(x, k) {
        let j = choose|j: int| 0 <= j < m.refs_of(x).len() && (#[trigger] m.refs_of(x)[j]).key == k;
        assert(m.ref_ok(x, j));
        let rr = m.refs_of(x)[j];
        assert(m.column_rows(k)[rr.index as int].entity as int == x);
        assert(m.column_mentions(k, x));
    }
    if m.column_mentions(k, x) {
        let i = choose|i: int|
            0 <= i < m.column_rows(k).len() && (#[trigger] m.column_rows(k)[i]).entity as int == x;
        assert(m.row_owner_ok(ci, i));
        assert(m.is_live(x));
        let want = ComponentRef { key: k, index: i as usize };
        assert(m.refs_of(x).contains(want));
        let j = choose|j: int| 0 <= j < m.refs_of(x).len() && m.refs_of(x)[j] == want;
        assert((m.refs_of(x)[j]).key == k);
        assert(m.owns_component_of(x, k));
    }
}

/// Fourth store invariant, derived from well-formedness: an entity
/// that is not live has no residual row in any column — despawning
/// leaves nothing behind.
pub proof fn lemma_no_rows_of_dead<C>(m: SceneView<C>, e: int)
    requires
        m.wf(),
        !m.is_live(e),
    ensures
        forall|k: u64, i: int|
            0 <= i < m.column_rows(k).len() ==> (#[trigger] m.column_rows(k)[i]).entity as int != e,
{
    assert forall|k: u64, i: int|
        0 <= i < m.column_rows(k).len() implies (#[trigger] m.column_rows(k)[i]).entity as int
        != e by {
        if has_col(m.cols, k) {
            let ci = col_idx(m.cols, k);
            assert(0 <= ci < m.cols.len() && m.cols[ci].key == k);
            assert(m.column_rows(k) == m.cols[ci].rows);
            assert(m.row_owner_ok(ci, i));
        }
    }
}

/// Clearing the slot of a live entity that owns no components
/// preserves well-formedness.
proof fn lemma_clear_empty_slot_wf<C>(m: SceneView<C>, e: int)
    requires
        m.wf(),
        m.is_live(e),
        m.refs_of(e).len() == 0,
    ensures
        (SceneView { slots: m.slots.update(e, None), cols: m.cols }).wf(),
{
    let mr = SceneView { slots: m.slots.update(e, None), cols: m.cols };
    assert forall|x: int| x != e implies #[trigger] mr.is_live(x) == m.is_live(x) by {}
    assert forall|x: int| m.is_live(x) && x != e implies #[trigger] mr.refs_of(x) == m.refs_of(
        x,
    ) by {}
    assert(mr.refs_valid()) by {
        assert forall|x: int, j: int|
            mr.is_live(x) && 0 <= j < mr.refs_of(x).len() implies #[trigger] mr.ref_ok(x, j) by {
            assert(x != e);
            assert(m.ref_ok(x, j));
        }
    }
    assert(mr.rows_owned()) by {
        assert forall|cj: int, p: int|
            0 <= cj < mr.cols.len() && 0 <= p < mr.cols[cj].rows.len()
                implies #[trigger] mr.row_owner_ok(cj, p) by {
            assert(m.row_owner_ok(cj, p));
            let x = m.cols[cj].rows[p].entity as int;
            if x == e {
                let want = ComponentRef { key: m.cols[cj].key, index: p as usize };
                let jw = choose|jw: int| 0 <= jw < m.refs_of(e).len() && m.refs_of(e)[jw] == want;
                assert(false);
            }
        }
    }
    assert(mr.refs_unique()) by {
        assert forall|x: int, j1: int, j2: int|
            #![trigger mr.refs_of(x)[j1], mr.refs_of(x)[j2]]
            mr.is_live(x) && 0 <= j1 < j2 < mr.refs_of(x).len() implies mr.refs_of(x)[j1]
                != mr.refs_of(x)[j2] by {
            assert(x != e);
            assert(mr.refs_of(x)[j1] == m.refs_of(x)[j1]);
            assert(mr.refs_of(x)[j2] == m.refs_of(x)[j2]);
        }
    }
}

/// Adding a component to a live entity preserves well-formedness.
///
/// (The two bounds only keep the spec-level handle and row index inside
/// the machine word they are stored in; every store reachable through
/// the executable operations satisfies them.)
pub proof fn lemma_spec_add_wf<C>(m: SceneView<C>, e: int, k: u64, v: C)
    requires
        m.wf(),
        m.is_live(e),
        e <= usize::MAX,
        m.column_rows(k).len() <= usize::MAX,
    ensures
        m.spec_add(e, k, v).wf(),
        m.spec_add(e, k, v).refs_of(e) == m.refs_of(e).push(
            ComponentRef { key: k, index: m.column_rows(k).len() as usize },
        ),
        m.spec_add(e, k, v).column_rows(k) == m.column_rows(k).push(
            Row { entity: e as usize, value: v },
        ),
        m.spec_add(e, k, v).has_column(k),
        forall|k2: u64|
            k2 != k ==> #[trigger] m.spec_add(e, k, v).column_rows(k2) == m.column_rows(k2),
        forall|k2: u64|
            k2 != k ==> #[trigger] m.spec_add(e, k, v).has_column(k2) == m.has_column(k2),
        forall|x: int| #[trigger] m.spec_add(e, k, v).is_live(x) == m.is_live(x),
        forall|x: int|
            x != e && m.is_live(x) ==> #[trigger] m.spec_add(e, k, v).refs_of(x) == m.refs_of(x),
        m.has_column(k) ==> m.spec_add(e, k, v).col_keys() == m.col_keys(),
        !m.has_column(k) ==> m.spec_add(e, k, v).col_keys() == m.col_keys().push(k),
{
    let m1 = m.spec_add(e, k, v);
    let n = m.column_rows(k).len() as int;
    let r = ComponentRef { key: k, index: n as usize };
    let row = Row { entity: e as usize, value: v };
    if m.has_column(k) {
        let ci = col_idx(m.cols, k);
        assert(0 <= ci < m.cols.len() && m.cols[ci].key == k);
        lemma_cols_update_access(m.cols, ci, ColumnView { key: k, rows: m.column_rows(k).push(row) });
        assert(m1.col_keys() =~= m.col_keys());
    } else {
        lemma_cols_push_access(m.cols, ColumnView { key: k, rows: seq![row] });
        assert(seq![row] =~= m.column_rows(k).push(row));
        assert(m1.col_keys() =~= m.col_keys().push(k));
    }
    assert(m1.column_rows(k) == m.column_rows(k).push(row));
    assert forall|x: int| #[trigger] m1.is_live(x) == m.is_live(x) by {}
    assert forall|x: int| x != e && m.is_live(x) implies #[trigger] m1.refs_of(x) == m.refs_of(
        x,
    ) by {}
    assert(m1.refs_of(e) == m.refs_of(e).push(r));
    assert(m1.refs_valid()) by {
        assert forall|x: int, j: int|
            m1.is_live(x) && 0 <= j < m1.refs_of(x).len() implies #[trigger] m1.ref_ok(x, j) by {
            if x == e && j == m.refs_of(e).len() {
                assert(m1.refs_of(x)[j] == r);
                assert(m1.column_rows(k)[n] == row);
            } else {
                assert(m.is_live(x));
                assert(m.ref_ok(x, j));
                let rr = m.refs_of(x)[j];
                assert(m1.refs_of(x)[j] == rr);
                if rr.key == k {
                    assert(m1.column_rows(k)[rr.index as int] == m.column_rows(k)[rr.index as int]);
                } else {
                    assert(m1.column_rows(rr.key) == m.column_rows(rr.key));
                    assert(m1.has_column(rr.key) == m.has_column(rr.key));
                }
            }
        }
    }
    assert(m1.rows_owned()) by {
        assert forall|cj: int, i: int|
            0 <= cj < m1.cols.len() && 0 <= i < m1.cols[cj].rows.len()
                implies #[trigger] m1.row_owner_ok(cj, i) by {
            let kj = m1.cols[cj].key;
            let new_col = m.has_column(k) && cj == col_idx(m.cols, k) || !m.has_column(k) && cj
                == m.cols.len();
            if new_col && i == n {
                assert(m1.cols[cj].rows == m.column_rows(k).push(row));
                assert(m1.cols[cj].rows[i] == row);
                assert(m1.refs_of(e)[m.refs_of(e).len() as int] == r);
                assert(m1.refs_of(e).contains(r));
            } else {
                assert(cj < m.cols.len() || !m.has_column(k) && cj == m.cols.len());
                let old_row = if new_col {
                    m.column_rows(k)[i]
                } else {
                    m.cols[cj].rows[i]
                };
                assert(m1.cols[cj].rows[i] == old_row && kj == if new_col {
                    k
                } else {
                    m.cols[cj].key
                });
                if new_col {
                    assert(m.has_column(k));
                    let ci = col_idx(m.cols, k);
                    assert(m.row_owner_ok(ci, i));
                    assert(m.cols[ci].rows[i] == old_row && m.cols[ci].key == k);
                } else {
                    assert(m.row_owner_ok(cj, i));
                }
                let x = old_row.entity as int;
                assert(m.is_live(x));
                let want = ComponentRef { key: kj, index: i as usize };
                assert(m.refs_of(x).contains(want));
                let jw = choose|jw: int| 0 <= jw < m.refs_of(x).len() && m.refs_of(x)[jw] == want;
                assert(m1.refs_of(x)[jw] == want);
                assert(m1.refs_of(x).contains(want));
            }
        }
    }
    assert(m1.refs_unique()) by {
        assert forall|x: int, j1: int, j2: int|
            #![trigger m1.refs_of(x)[j1], m1.refs_of(x)[j2]]
            m1.is_live(x) && 0 <= j1 < j2 < m1.refs_of(x).len()
                implies m1.refs_of(x)[j1] != m1.refs_of(x)[j2] by {
            if x == e && j2 == m.refs_of(e).len() {
                assert(m1.refs_of(x)[j2] == r);
                assert(m1.refs_of(x)[j1] == m.refs_of(e)[j1]);
                assert(m.ref_ok(e, j1));
                if m.refs_of(e)[j1] == r {
                    assert((r.index as int) < n);
                }
            } else {
                assert(m.refs_of(x)[j1] == m1.refs_of(x)[j1]);
                assert(m.refs_of(x)[j2] == m1.refs_of(x)[j2]);
            }
        }
    }
}

/// `count_live` never exceeds the number of slots.
pub proof fn lemma_count_live_le_len(s: Seq<Option<Seq<ComponentRef>>>)
    ensures
        count_live(s) <= s.len(),
    decreases s.len(),
{
    if s.len() > 0 {
        lemma_count_live_le_len(s.drop_last());
    }
}

/// Updating one slot changes `count_live` exactly by the liveness
/// difference of that slot.
pub proof fn lemma_count_live_update(
    s: Seq<Option<Seq<ComponentRef>>>,
    i: int,
    v: Option<Seq<ComponentRef>>,
)
    requires
        0 <= i < s.len(),
    ensures
        count_live(s.update(i, v)) + if s[i] is Some {
            1nat
        } else {
            0nat
        } == count_live(s) + if v is Some {
            1nat
        } else {
            0nat
        },
    decreases s.len(),
{
    let t = s.update(i, v);
    if i == s.len() - 1 {
        assert(t.drop_last() =~= s.drop_last());
    } else {
        assert(t.drop_last() =~= s.drop_last().update(i, v));
        lemma_count_live_update(s.drop_last(), i, v);
    }
}

/// Replacing a slot by another of the same liveness keeps `count_live`.
pub proof fn lemma_count_live_update_same(
    s: Seq<Option<Seq<ComponentRef>>>,
    i: int,
    v: Option<Seq<ComponentRef>>,
)
    requires
        0 <= i < s.len(),
        (s[i] is Some) == (v is Some),
    ensures
        count_live(s.update(i, v)) == count_live(s),
{
    lemma_count_live_update(s, i, v);
}

/// Removing the last reference of a live entity preserves
/// well-formedness; the entity's list shrinks by one, and liveness, the
/// live count and the set of registered columns are untouched. (The one
/// bound keeps the repointed spec-level row index inside the machine
/// word it is stored in; every store reachable through the executable
/// operations satisfies it.)
pub proof fn lemma_spec_remove_last_wf<C>(m: SceneView<C>, e: int)
    requires
        m.wf(),
        m.is_live(e),
        m.refs_of(e).len() > 0,
        m.column_rows(m.refs_of(e).last().key).len() <= usize::MAX,
    ensures
        m.spec_remove_last(e).wf(),
        m.spec_remove_last(e).refs_of(e).len() == m.refs_of(e).len() - 1,
        forall|x: int| #[trigger] m.spec_remove_last(e).is_live(x) == m.is_live(x),
        m.spec_remove_last(e).live_count() == m.live_count(),
        m.spec_remove_last(e).col_keys() == m.col_keys(),
        forall|k2: u64| #[trigger] m.spec_remove_last(e).has_column(k2) == m.has_column(k2),
{
    let mr = m.spec_remove_last(e);
    let refs = m.refs_of(e);
    let r = refs.last();
    let k = r.key;
    let i = r.index as int;
    assert(m.ref_ok(e, refs.len() - 1));
    let rows = m.column_rows(k);
    let n = rows.len() as int;
    let last_i = n - 1;
    assert(0 <= i < n);
    assert(rows[i].entity as int == e);
    let ci = col_idx(m.cols, k);
    assert(0 <= ci < m.cols.len() && m.cols[ci].key == k);
    assert(rows == m.cols[ci].rows);
    let slots1 = m.slots.update(e, Some(refs.drop_last()));
    let rows2 = rows.update(i, rows.last()).drop_last();
    let c2 = ColumnView { key: k, rows: rows2 };
    let cols2 = m.cols.update(ci, c2);
    lemma_cols_update_access(m.cols, ci, c2);
    // the popped reference value occurs nowhere but at the end of e's
    // list
    assert forall|x: int, j: int|
        #![trigger m.refs_of(x)[j]]
        m.is_live(x) && 0 <= j < m.refs_of(x).len() && (x != e || j != refs.len() - 1)
            implies m.refs_of(x)[j] != r by {
        if m.refs_of(x)[j] == r {
            assert(m.ref_ok(x, j));
            assert(x == e);
            assert(m.refs_of(e)[j] == m.refs_of(e)[refs.len() - 1]);
            assert(false);
        }
    }
    lemma_count_live_update_same(m.slots, e, Some(refs.drop_last()));
    if i == last_i {
        assert(mr == SceneView { slots: slots1, cols: cols2 });
        assert(rows2 =~= rows.drop_last());
        assert(mr.col_keys() =~= m.col_keys());
        assert forall|x: int| #[trigger] mr.is_live(x) == m.is_live(x) by {}
        assert(mr.refs_of(e) == refs.drop_last());
        assert forall|x: int| m.is_live(x) && x != e implies #[trigger] mr.refs_of(x)
            == m.refs_of(x) by {}
        assert forall|k2: u64| #[trigger] mr.has_column(k2) == m.has_column(k2) by {
            if k2 != k {
                lemma_cols_update_access_one(m.cols, ci, c2, k2);
            }
        }
        assert(mr.refs_valid()) by {
            assert forall|x: int, j: int|
                mr.is_live(x) && 0 <= j < mr.refs_of(x).len() implies #[trigger] mr.ref_ok(
                x,
                j,
            ) by {
                let rr = mr.refs_of(x)[j];
                assert(rr == m.refs_of(x)[j]);
                assert(m.ref_ok(x, j));
                assert(rr != r);
                if rr.key == k {
                    assert((rr.index as int) < last_i);
                    assert(mr.column_rows(k)[rr.index as int] == rows[rr.index as int]);
                } else {
                    assert(mr.column_rows(rr.key) == m.column_rows(rr.key));
                    assert(mr.has_column(rr.key) == m.has_column(rr.key));
                }
            }
        }
        assert(mr.rows_owned()) by {
            assert forall|cj: int, p: int|
                0 <= cj < mr.cols.len() && 0 <= p < mr.cols[cj].rows.len()
                    implies #[trigger] mr.row_owner_ok(cj, p) by {
                let kj = mr.cols[cj].key;
                assert(kj == m.cols[cj].key);
                assert(mr.cols[cj].rows[p] == m.cols[cj].rows[p]);
                assert(m.row_owner_ok(cj, p));
                let x = m.cols[cj].rows[p].entity as int;
                let want = ComponentRef { key: kj, index: p as usize };
                assert(m.refs_of(x).contains(want));
                let jw = choose|jw: int|
                    0 <= jw < m.refs_of(x).len() && m.refs_of(x)[jw] == want;
                assert(want != r) by {
                    if cj == ci {
                        assert(p < last_i);
                        assert((want.index as int) == p);
                    } else {
                        assert(kj != k);
                    }
                }
                if x == e {
                    assert(m.refs_of(e)[refs.len() - 1] == r);
                    assert(jw != refs.len() - 1);
                    assert(mr.refs_of(e)[jw] == want);
                } else {
                    assert(mr.refs_of(x)[jw] == want);
                }
                assert(mr.refs_of(x).contains(want));
            }
        }
        assert(mr.refs_unique()) by {
            assert forall|x: int, j1: int, j2: int|
                #![trigger mr.refs_of(x)[j1], mr.refs_of(x)[j2]]
                mr.is_live(x) && 0 <= j1 < j2 < mr.refs_of(x).len() implies mr.refs_of(x)[j1]
                    != mr.refs_of(x)[j2] by {
                assert(mr.refs_of(x)[j1] == m.refs_of(x)[j1]);
                assert(mr.refs_of(x)[j2] == m.refs_of(x)[j2]);
            }
        }
    } else {
        // a row moves: the former last row of the column now lives at
        // index i, and its owner's reference is repointed
        let e2 = rows[last_i].entity as int;
        assert(m.row_owner_ok(ci, last_i));
        let target = ComponentRef { key: k, index: last_i as usize };
        assert((last_i as usize) as int == last_i);
        assert(m.is_live(e2));
        assert(m.refs_of(e2).contains(target));
        let j2 = choose|jj: int| 0 <= jj < m.refs_of(e2).len() && m.refs_of(e2)[jj] == target;
        assert(0 <= j2 < m.refs_of(e2).len() && m.refs_of(e2)[j2] == target);
        // the reference to the former last row occurs nowhere else
        assert forall|x: int, j: int|
            #![trigger m.refs_of(x)[j]]
            m.is_live(x) && 0 <= j < m.refs_of(x).len() && (x != e2 || j != j2)
                implies m.refs_of(x)[j] != target by {
            if m.refs_of(x)[j] == target {
                assert(m.ref_ok(x, j));
                assert(x == e2);
                assert(m.refs_of(e2)[j] == m.refs_of(e2)[j2]);
                assert(false);
            }
        }
        let m2 = SceneView { slots: slots1, cols: cols2 };
        let refs2 = m2.refs_of(e2);
        assert(r != target);
        if e2 == e {
            assert(refs2 == refs.drop_last());
            assert(j2 < refs.len() - 1);
            assert(refs2[j2] == target);
        } else {
            assert(refs2 == m.refs_of(e2));
        }
        assert(m2.is_live(e2));
        assert(refs2.contains(target));
        let j = ref_pos_of(refs2, target);
        assert(0 <= j < refs2.len() && refs2[j] == target);
        // every position of refs2 carries the value it has in m's list
        assert forall|jj: int| 0 <= jj < refs2.len() implies refs2[jj] == m.refs_of(e2)[jj] by {}
        assert(j == j2) by {
            if j != j2 {
                assert(m.refs_of(e2)[j] == m.refs_of(e2)[j2]);
                assert(false);
            }
        }
        let newref = ComponentRef { key: k, index: r.index };
        assert(newref == r);
        let refs3 = refs2.update(j, newref);
        let slots3 = m2.slots.update(e2, Some(refs3));
        assert(mr == SceneView { slots: slots3, cols: cols2 });
        lemma_count_live_update_same(slots1, e2, Some(refs3));
        assert(mr.col_keys() =~= m.col_keys());
        assert forall|x: int| #[trigger] mr.is_live(x) == m.is_live(x) by {}
        assert forall|k2: u64| #[trigger] mr.has_column(k2) == m.has_column(k2) by {
            if k2 != k {
                lemma_cols_update_access_one(m.cols, ci, c2, k2);
            }
        }
        assert(mr.refs_of(e2) == refs3);
        if e2 != e {
            assert(mr.refs_of(e) == refs.drop_last());
        }
        assert forall|x: int| m.is_live(x) && x != e && x != e2 implies #[trigger] mr.refs_of(x)
            == m.refs_of(x) by {}
        // positions of any entity's list in mr carry either the
        // repointed reference (e2 at j) or the value from m
        assert forall|x: int, jj: int|
            #![trigger mr.refs_of(x)[jj]]
            mr.is_live(x) && 0 <= jj < mr.refs_of(x).len() && (x != e2 || jj != j)
                implies mr.refs_of(x)[jj] == m.refs_of(x)[jj] && 0 <= jj < m.refs_of(x).len() by {}
        assert(mr.refs_valid()) by {
            assert forall|x: int, jj: int|
                mr.is_live(x) && 0 <= jj < mr.refs_of(x).len() implies #[trigger] mr.ref_ok(
                x,
                jj,
            ) by {
                if x == e2 && jj == j {
                    assert(mr.refs_of(x)[jj] == newref);
                    assert(mr.column_rows(k) == rows2);
                    assert(rows2[i] == rows[last_i]);
                } else {
                    let rr = mr.refs_of(x)[jj];
                    assert(rr == m.refs_of(x)[jj]);
                    assert(m.ref_ok(x, jj));
                    if rr.key == k {
                        let pp = rr.index as int;
                        assert(pp < n);
                        assert(rr != target);
                        assert(rr != r);
                        assert(pp != last_i && pp != i);
                        assert(mr.column_rows(k)[pp] == rows[pp]);
                    } else {
                        assert(mr.column_rows(rr.key) == m.column_rows(rr.key));
                        assert(mr.has_column(rr.key) == m.has_column(rr.key));
                    }
                }
            }
        }
        assert(mr.rows_owned()) by {
            assert forall|cj: int, p: int|
                0 <= cj < mr.cols.len() && 0 <= p < mr.cols[cj].rows.len()
                    implies #[trigger] mr.row_owner_ok(cj, p) by {
                let kj = mr.cols[cj].key;
                assert(kj == m.cols[cj].key);
                if cj == ci && p == i {
                    // the moved row: owned by e2, whose reference was
                    // repointed
                    assert(mr.cols[cj].rows[p] == rows[last_i]);
                    assert(mr.refs_of(e2)[j] == newref);
                    assert(newref == ComponentRef { key: kj, index: p as usize });
                    assert(mr.refs_of(e2).contains(newref));
                } else {
                    assert(mr.cols[cj].rows[p] == m.cols[cj].rows[p]);
                    assert(m.row_owner_ok(cj, p));
                    let x = m.cols[cj].rows[p].entity as int;
                    let want = ComponentRef { key: kj, index: p as usize };
                    assert(m.refs_of(x).contains(want));
                    let jw = choose|jw: int|
                        0 <= jw < m.refs_of(x).len() && m.refs_of(x)[jw] == want;
                    assert(want != r) by {
                        if cj == ci {
                            assert(p != i && p < last_i);
                        } else {
                            assert(kj != k);
                        }
                    }
                    assert(want != target) by {
                        if cj == ci {
                            assert(p < last_i);
                        } else {
                            assert(kj != k);
                        }
                    }
                    if x == e {
                        assert(m.refs_of(e)[refs.len() - 1] == r);
                        assert(jw != refs.len() - 1);
                    }
                    if x == e2 {
                        assert(jw != j2);
                    }
                    assert(mr.refs_of(x)[jw] == want);
                    assert(mr.refs_of(x).contains(want));
                }
            }
        }
        assert(mr.refs_unique()) by {
            assert forall|x: int, j1: int, jj2: int|
                #![trigger mr.refs_of(x)[j1], mr.refs_of(x)[jj2]]
                mr.is_live(x) && 0 <= j1 < jj2 < mr.refs_of(x).len() implies mr.refs_of(x)[j1]
                    != mr.refs_of(x)[jj2] by {
                if x == e2 && j1 == j {
                    assert(mr.refs_of(x)[jj2] == m.refs_of(x)[jj2]);
                    assert(m.refs_of(x)[jj2] != r);
                } else if x == e2 && jj2 == j {
                    assert(mr.refs_of(x)[j1] == m.refs_of(x)[j1]);
                    assert(m.refs_of(x)[j1] != r);
                } else {
                    assert(mr.refs_of(x)[j1] == m.refs_of(x)[j1]);
                    assert(mr.refs_of(x)[jj2] == m.refs_of(x)[jj2]);
                }
            }
        }
    }
}

/// The decimal digit `d` as a character.
pub open spec fn digit_char(d: nat) -> char {
    if d == 0 {
        '0'
    } else if d == 1 {
        '1'
    } else if d == 2 {
        '2'
    } else if d == 3 {
        '3'
    } else if d == 4 {
        '4'
    } else if d == 5 {
        '5'
    } else if d == 6 {
        '6'
    } else if d == 7 {
        '7'
    } else if d == 8 {
        '8'
    } else {
        '9'
    }
}

/// The usual decimal rendering of `n`, most significant digit first.
pub open spec fn dec_digits(n: nat) -> Seq<char>
    decreases n,
{
    if n < 10 {
        seq![digit_char(n)]
    } else {
        dec_digits(n / 10).push(digit_char(n % 10))
    }
}

/// The rendering of the first `upto` references of an entity's list:
/// `(key, index)` pairs separated by `", "`.
pub open spec fn spec_ref_list(refs: Seq<ComponentRef>, upto: int) -> Seq<char>
    decreases upto,
{
    if upto <= 0 {
        Seq::empty()
    } else {
        spec_ref_list(refs, upto - 1) + (if upto - 1 > 0 {
            ", "@
        } else {
            Seq::empty()
        }) + "("@ + dec_digits(refs[upto - 1].key as nat) + ", "@ + dec_digits(
            refs[upto - 1].index as nat,
        ) + ")"@
    }
}

/// The directory line for entity `e`: a tab, the handle, and its
/// reference list.
pub open spec fn spec_entity_line<C>(m: SceneView<C>, e: int) -> Seq<char> {
    "\t"@ + dec_digits(e as nat) + ": ["@ + spec_ref_list(m.refs_of(e), m.refs_of(e).len() as int)
        + "]\n"@
}

/// The directory lines of every live handle below `upto`, in
/// increasing handle order.
pub open spec fn spec_entity_lines<C>(m: SceneView<C>, upto: int) -> Seq<char>
    decreases upto,
{
    if upto <= 0 {
        Seq::empty()
    } else {
        spec_entity_lines(m, upto - 1) + (if m.is_live(upto - 1) {
            spec_entity_line(m, upto - 1)
        } else {
            Seq::empty()
        })
    }
}

/// The rendering of the owners of the first `upto` rows of a column,
/// separated by `", "`.
pub open spec fn spec_row_entities<C>(rows: Seq<Row<C>>, upto: int) -> Seq<char>
    decreases upto,
{
    if upto <= 0 {
        Seq::empty()
    } else {
        spec_row_entities(rows, upto - 1) + (if upto - 1 > 0 {
            ", "@
        } else {
            Seq::empty()
        }) + dec_digits(rows[upto - 1].entity as nat)
    }
}

/// The registry line for one column: its key and the owners of its
/// rows in column order.
pub open spec fn spec_column_line<C>(c: ColumnView<C>) -> Seq<char> {
    dec_digits(c.key as nat) + ": ["@ + spec_row_entities(c.rows, c.rows.len() as int) + "]\n"@
}

/// The registry lines of the first `upto` columns, in creation order.
pub open spec fn spec_column_lines<C>(cols: Seq<ColumnView<C>>, upto: int) -> Seq<char>
    decreases upto,
{
    if upto <= 0 {
        Seq::empty()
    } else {
        spec_column_lines(cols, upto - 1) + spec_column_line(cols[upto - 1])
    }
}

/// The full diagnostic dump of a store: the entity directory sorted by
/// handle, then each column's owners in creation order.
pub open spec fn spec_describe<C>(m: SceneView<C>) -> Seq<char> {
    "Entities: {\n"@ + spec_entity_lines(m, m.slots.len() as int) + "}\n"@ + spec_column_lines(
        m.cols,
        m.cols.len() as int,
    )
}

/// One decimal digit as a string slice.
fn digit_str(d: u64) -> (s: &'static str)
    requires
        d < 10,
    ensures
        s@ == seq![digit_char(d as nat)],
{
    proof {
        reveal_strlit("0");
        reveal_strlit("1");
        reveal_strlit("2");
        reveal_strlit("3");
        reveal_strlit("4");
        reveal_strlit("5");
        reveal_strlit("6");
        reveal_strlit("7");
        reveal_strlit("8");
        reveal_strlit("9");
    }
    if d == 0 {
        "0"
    } else if d == 1 {
        "1"
    } else if d == 2 {
        "2"
    } else if d == 3 {
        "3"
    } else if d == 4 {
        "4"
    } else if d == 5 {
        "5"
    } else if d == 6 {
        "6"
    } else if d == 7 {
        "7"
    } else if d == 8 {
        "8"
    } else {
        "9"
    }
}

/// Appends the decimal rendering of `n` to `s`.
fn push_u64_decimal(s: &mut String, n: u64)
    ensures
        final(s)@ == old(s)@ + dec_digits(n as nat),
    decreases n,
{
    let ghost s0 = old(s)@;
    if n >= 10 {
        push_u64_decimal(s, n / 10);
    }
    let d = digit_str(n % 10);
    s.append(d);
    proof {
        if n >= 10 {
            assert(s0 + dec_digits((n / 10) as nat) + seq![digit_char((n % 10) as nat)] =~= s0
                + dec_digits(n as nat));
        } else {
            assert(s0 + seq![digit_char(n as nat)] =~= s0 + dec_digits(n as nat));
        }
    }
}

impl<C> View for Scene<C> {
    type V = SceneView<C>;

    closed spec fn view(&self) -> SceneView<C> {
        SceneView {
            slots: Seq::new(
                self.slots@.len(),
                |i: int|
                    match self.slots@[i] {
                        Some(refs) => Some(refs@),
                        None => None,
                    },
            ),
            cols: self.columns@.map_values(|c: Column<C>| ColumnView { key: c.key, rows: c.rows@ }),
        }
    }
}

impl<C> Scene<C> {
    /// The store's data-structure invariant: the model is well-formed
    /// and the cached live count agrees with it.
    pub closed spec fn wf(self) -> bool {
        &&& self@.wf()
        &&& self.live_count as nat == self@.live_count()
    }

    /// An empty store: no entities ever allocated, no columns
    /// registered.
    pub fn new() -> (s: Self)
        ensures
            s.wf(),
            s@.slots == Seq::<Option<Seq<ComponentRef>>>::empty(),
            s@.cols == Seq::<ColumnView<C>>::empty(),
    {
        let s = Scene { slots: Vec::new(), columns: Vec::new(), live_count: 0 };
        proof {
            assert(s@.slots =~= Seq::<Option<Seq<ComponentRef>>>::empty());
            assert(s@.cols =~= Seq::<ColumnView<C>>::empty());
        }
        s
    }

    /// How many entities are currently live: the number of spawns minus
    /// the number of despawns so far.
    pub fn entity_count(&self) -> (n: usize)
        requires
            self.wf(),
        ensures
            n as nat == self@.live_count(),
    {
        self.live_count
    }

    /// Allocates a fresh, previously unused handle and registers it with
    /// an empty reference list. Never fails; the one machine limit is
    /// that the allocation counter must still fit in `usize`.
    pub fn spawn_entity(&mut self) -> (e: Entity)
        requires
            old(self).wf(),
            old(self)@.next_handle() < usize::MAX,
        ensures
            final(self).wf(),
            final(self)@ == old(self)@.spec_spawn(),
            e as int == old(self)@.next_handle(),
            !old(self)@.is_live(e as int),
            final(self)@.is_live(e as int),
            final(self)@.refs_of(e as int) == Seq::<ComponentRef>::empty(),
            final(self)@.live_count() == old(self)@.live_count() + 1,
            final(self)@.cols == old(self)@.cols,
            forall|x: int| x != e as int ==> final(self)@.is_live(x) == old(self)@.is_live(x),
            forall|x: int|
                old(self)@.is_live(x) ==> final(self)@.refs_of(x) == old(self)@.refs_of(x),
    {
        let ghost m0 = self@;
        let e = self.slots.len();
        proof {
            lemma_count_live_le_len(m0.slots);
        }
        self.slots.push(Some(Vec::new()));
        self.live_count = self.live_count + 1;
        proof {
            assert(self@.slots =~= m0.slots.push(Some(Seq::empty())));
            assert(self@ == m0.spec_spawn());
            assert(m0.slots.push(Some(Seq::<ComponentRef>::empty())).drop_last() =~= m0.slots);
            assert(self@.live_count() == m0.live_count() + 1);
            assert(self@.refs_valid()) by {
                assert forall|ee: int, j: int|
                    self@.is_live(ee) && 0 <= j < self@.refs_of(ee).len() implies #[trigger] self@.ref_ok(
                    ee,
                    j,
                ) by {
                    assert(ee != e as int ==> m0.is_live(ee) && m0.refs_of(ee) == self@.refs_of(ee));
                    assert(ee == e as int ==> self@.refs_of(ee).len() == 0);
                    assert(m0.ref_ok(ee, j));
                    assert(self@.cols == m0.cols);
                }
            }
            assert(self@.rows_owned()) by {
                assert forall|ci: int, i: int|
                    0 <= ci < self@.cols.len() && 0 <= i < self@.cols[ci].rows.len()
                        implies #[trigger] self@.row_owner_ok(ci, i) by {
                    assert(m0.row_owner_ok(ci, i));
                    let ee = self@.cols[ci].rows[i].entity as int;
                    assert(m0.is_live(ee));
                    assert(self@.is_live(ee) && self@.refs_of(ee) == m0.refs_of(ee));
                }
            }
            assert(self@.refs_unique()) by {
                assert forall|ee: int, j1: int, j2: int|
                    #![trigger self@.refs_of(ee)[j1], self@.refs_of(ee)[j2]]
                    self@.is_live(ee) && 0 <= j1 < j2 < self@.refs_of(ee).len()
                        implies self@.refs_of(ee)[j1] != self@.refs_of(ee)[j2] by {
                    assert(ee != e as int ==> self@.refs_of(ee) == m0.refs_of(ee));
                }
            }
        }
        e
    }

    /// The position of the column registered under `key`, if any.
    fn find_column(&self, key: u64) -> (r: Option<usize>)
        ensures
            match r {
                Some(ci) => ci < self@.cols.len() && self@.cols[ci as int].key == key,
                None => !self@.has_column(key),
            },
    {
        let mut ci: usize = 0;
        while ci < self.columns.len()
            invariant
                ci <= self.columns.len(),
                self@.cols.len() == self.columns@.len(),
                forall|j: int| 0 <= j < ci ==> (#[trigger] self@.cols[j]).key != key,
            decreases self.columns.len() - ci,
        {
            if self.columns[ci].key == key {
                return Some(ci);
            }
            ci = ci + 1;
        }
        None
    }

    /// Read-only access to the column for `key`: `None` if no component
    /// of that key was ever added, the full row sequence otherwise (a
    /// column outlives its contents, so an emptied column still answers
    /// `Some`).
    pub fn components(&self, key: u64) -> (r: Option<&Vec<Row<C>>>)
        requires
            self.wf(),
        ensures
            match r {
                Some(rows) => self@.has_column(key) && rows@ == self@.column_rows(key),
                None => !self@.has_column(key),
            },
    {
        match self.find_column(key) {
            Some(ci) => {
                proof {
                    lemma_col_idx_is(self@.cols, key, ci as int);
                }
                Some(&self.columns[ci].rows)
            },
            None => None,
        }
    }

    /// The ordered reference list of `entity`: which component rows it
    /// owns, in the order they were added. Fails with `UnknownEntity`
    /// when the handle is not in the directory.
    pub fn entity_components(&self, entity: Entity) -> (r: Result<&Vec<ComponentRef>, EcsError>)
        ensures
            match r {
                Ok(refs) => self@.is_live(entity as int) && refs@ == self@.refs_of(entity as int),
                Err(err) => !self@.is_live(entity as int) && err == EcsError::UnknownEntity,
            },
    {
        if entity < self.slots.len() {
            match &self.slots[entity] {
                Some(refs) => Ok(refs),
                None => Err(EcsError::UnknownEntity),
            }
        } else {
            Err(EcsError::UnknownEntity)
        }
    }

    /// All live handles, in increasing order.
    pub fn entities(&self) -> (es: Vec<Entity>)
        requires
            self.wf(),
        ensures
            es@.len() == self@.live_count(),
            forall|i: int, j: int| 0 <= i < j < es@.len() ==> es@[i] < es@[j],
            forall|i: int| 0 <= i < es@.len() ==> self@.is_live(#[trigger] es@[i] as int),
            forall|x: int|
                #![trigger self@.is_live(x)]
                self@.is_live(x) ==> exists|i: int| 0 <= i < es@.len() && es@[i] as int == x,
    {
        let mut es: Vec<Entity> = Vec::new();
        let mut e: usize = 0;
        proof {
            assert(self@.slots.subrange(0, 0) =~= Seq::empty());
        }
        while e < self.slots.len()
            invariant
                e <= self.slots.len(),
                self@.slots.len() == self.slots@.len(),
                es@.len() == count_live(self@.slots.subrange(0, e as int)),
                forall|i: int, j: int| 0 <= i < j < es@.len() ==> es@[i] < es@[j],
                forall|i: int|
                    0 <= i < es@.len() ==> self@.is_live(#[trigger] es@[i] as int) && es@[i] < e,
                forall|x: int|
                    #![trigger self@.is_live(x)]
                    0 <= x < e && self@.is_live(x) ==> exists|i: int|
                        0 <= i < es@.len() && es@[i] as int == x,
            decreases self.slots.len() - e,
        {
            let ghost pre = self@.slots.subrange(0, e as int);
            let ghost post = self@.slots.subrange(0, e as int + 1);
            proof {
                assert(post.drop_last() =~= pre);
            }
            if self.slots[e].is_some() {
                let ghost old_es = es@;
                es.push(e);
                proof {
                    assert forall|x: int| 0 <= x < e + 1 && self@.is_live(x) implies exists|i: int|
                        0 <= i < es@.len() && es@[i] as int == x by {
                        if x == e as int {
                            assert(es@[es@.len() - 1] as int == x);
                        } else {
                            let i = choose|i: int| 0 <= i < old_es.len() && old_es[i] as int == x;
                            assert(es@[i] as int == x);
                        }
                    }
                }
            }
            e = e + 1;
        }
        proof {
            assert(self@.slots.subrange(0, self@.slots.len() as int) =~= self@.slots);
        }
        es
    }

    /// Attaches a component to `entity`: appends the row to `key`'s
    /// column (creating the column on first use of the key) and appends
    /// the matching reference to the entity's list. Fails with
    /// `UnknownEntity`, changing nothing, exactly when `entity` is not
    /// live.
    pub fn entity_add_component(&mut self, entity: Entity, key: u64, value: C) -> (r: Result<
        (),
        EcsError,
    >)
        requires
            old(self).wf(),
        ensures
            final(self).wf(),
            match r {
                Ok(_) => old(self)@.is_live(entity as int) && final(self)@ == old(self)@.spec_add(
                    entity as int,
                    key,
                    value,
                ),
                Err(err) => !old(self)@.is_live(entity as int) && err == EcsError::UnknownEntity
                    && final(self)@ == old(self)@,
            },
            old(self)@.is_live(entity as int) ==> final(self)@.refs_of(entity as int)
                == old(self)@.refs_of(entity as int).push(
                ComponentRef { key, index: old(self)@.column_rows(key).len() as usize },
            ),
            old(self)@.is_live(entity as int) ==> final(self)@.column_rows(key)
                == old(self)@.column_rows(key).push(Row { entity, value }),
            old(self)@.is_live(entity as int) ==> final(self)@.has_column(key),
            forall|k2: u64|
                k2 != key ==> #[trigger] final(self)@.column_rows(k2) == old(self)@.column_rows(k2),
            forall|k2: u64|
                k2 != key ==> #[trigger] final(self)@.has_column(k2) == old(self)@.has_column(k2),
            forall|x: int| #[trigger] final(self)@.is_live(x) == old(self)@.is_live(x),
            forall|x: int|
                x != entity as int && old(self)@.is_live(x) ==> #[trigger] final(self)@.refs_of(x)
                    == old(self)@.refs_of(x),
            final(self)@.live_count() == old(self)@.live_count(),
            final(self)@.next_handle() == old(self)@.next_handle(),
            old(self)@.has_column(key) || !old(self)@.is_live(entity as int)
                ==> final(self)@.col_keys() == old(self)@.col_keys(),
            !old(self)@.has_column(key) && old(self)@.is_live(entity as int)
                ==> final(self)@.col_keys() == old(self)@.col_keys().push(key),
    {
        let ghost m0 = self@;
        if entity >= self.slots.len() {
            return Err(EcsError::UnknownEntity);
        }
        let live = self.slots[entity].is_some();
        if !live {
            return Err(EcsError::UnknownEntity);
        }
        let idx: usize;
        match self.find_column(key) {
            Some(ci) => {
                proof {
                    lemma_col_idx_is(m0.cols, key, ci as int);
                }
                idx = self.columns[ci].rows.len();
                self.columns[ci].rows.push(Row { entity, value });
                proof {
                    assert(self@.cols =~= m0.cols.update(
                        ci as int,
                        ColumnView { key, rows: m0.column_rows(key).push(Row { entity, value }) },
                    ));
                }
            },
            None => {
                idx = 0;
                let mut rows: Vec<Row<C>> = Vec::new();
                rows.push(Row { entity, value });
                self.columns.push(Column { key, rows });
                proof {
                    assert(self@.cols =~= m0.cols.push(
                        ColumnView { key, rows: seq![Row { entity, value }] },
                    ));
                }
            },
        }
        let cref = ComponentRef { key, index: idx };
        match &mut self.slots[entity] {
            Some(refs) => refs.push(cref),
            None => {},
        }
        proof {
            let e = entity as int;
            assert(self@.slots =~= m0.slots.update(e, Some(m0.refs_of(e).push(cref))));
            assert(self@ == m0.spec_add(e, key, value));
            lemma_spec_add_wf(m0, e, key, value);
            lemma_count_live_update_same(m0.slots, e, self@.slots[e]);
        }
        Ok(())
    }

    /// Mutable access to the column for `key`: `None` if no component
    /// of that key was ever added, the full row sequence otherwise.
    ///
    /// The caller may rewrite component values in place. The store
    /// invariant is guaranteed to survive any mutation that keeps the
    /// column's length and each row's owning entity (the final
    /// conjunct); a caller that edits the structure itself is on its
    /// own.
    pub fn components_mut(&mut self, key: u64) -> (r: Option<&mut Vec<Row<C>>>)
        requires
            old(self).wf(),
        ensures
            match r {
                Some(rows) => {
                    &&& old(self)@.has_column(key)
                    &&& rows@ == old(self)@.column_rows(key)
                    &&& final(self)@.slots == old(self)@.slots
                    &&& final(self)@.live_count() == old(self)@.live_count()
                    &&& final(self)@.cols.len() == old(self)@.cols.len()
                    &&& forall|j: int|
                        0 <= j < old(self)@.cols.len() && j != col_idx(old(self)@.cols, key)
                            ==> #[trigger] final(self)@.cols[j] == old(self)@.cols[j]
                    &&& final(self)@.cols[col_idx(old(self)@.cols, key)] == (ColumnView {
                        key,
                        rows: final(rows)@,
                    })
                    &&& (final(rows)@.len() == old(self)@.column_rows(key).len() && (forall|i: int|
                        0 <= i < final(rows)@.len() ==> (#[trigger] final(rows)@[i]).entity == old(
                        self,
                    )@.column_rows(key)[i].entity)) ==> final(self).wf()
                },
                None => {
                    &&& !old(self)@.has_column(key)
                    &&& final(self)@ == old(self)@
                    &&& final(self).wf()
                },
            },
    {
        let ghost m0 = self@;
        match self.find_column(key) {
            Some(ci) => {
                proof {
                    lemma_col_idx_is(m0.cols, key, ci as int);
                    assert forall|m2: SceneView<C>|
                        ({
                            &&& m2.slots == m0.slots
                            &&& m2.cols.len() == m0.cols.len()
                            &&& (forall|j: int|
                                0 <= j < m0.cols.len() && j != ci as int
                                    ==> #[trigger] m2.cols[j] == m0.cols[j])
                            &&& m2.cols[ci as int].key == key
                            &&& m2.cols[ci as int].rows.len() == m0.column_rows(key).len()
                            &&& (forall|i: int|
                                0 <= i < m2.cols[ci as int].rows.len()
                                    ==> (#[trigger] m2.cols[ci as int].rows[i]).entity
                                    == m0.column_rows(key)[i].entity)
                        }) implies #[trigger] m2.wf() by {
                        let rows2 = m2.cols[ci as int].rows;
                        lemma_wf_after_value_update(m0, key, rows2);
                        assert(m2.cols =~= m0.cols.update(
                            ci as int,
                            ColumnView { key, rows: rows2 },
                        ));
                        assert(m2 == SceneView {
                            slots: m0.slots,
                            cols: m0.cols.update(ci as int, ColumnView { key, rows: rows2 }),
                        });
                    }
                }
                Some(&mut self.columns[ci].rows)
            },
            None => None,
        }
    }

    /// Removes the last-added component reference of `entity`, if it
    /// has any: pops the reference, swap-removes the row it names, and
    /// repoints the reference of whichever row was moved into the hole.
    /// The internal primitive behind despawning.
    fn entity_remove_last_component(&mut self, entity: Entity)
        requires
            old(self).wf(),
            old(self)@.is_live(entity as int),
        ensures
            final(self).wf(),
            final(self)@ == old(self)@.spec_remove_last(entity as int),
            old(self)@.refs_of(entity as int).len() == 0 ==> final(self)@ == old(self)@,
            old(self)@.refs_of(entity as int).len() > 0 ==> final(self)@.refs_of(
                entity as int,
            ).len() == old(self)@.refs_of(entity as int).len() - 1,
            forall|x: int| #[trigger] final(self)@.is_live(x) == old(self)@.is_live(x),
            final(self)@.live_count() == old(self)@.live_count(),
            final(self)@.col_keys() == old(self)@.col_keys(),
            forall|k2: u64| #[trigger] final(self)@.has_column(k2) == old(self)@.has_column(k2),
    {
        let ghost m0 = self@;
        let ghost e = entity as int;
        let popped: Option<ComponentRef> = match &mut self.slots[entity] {
            Some(refs) => refs.pop(),
            None => None,
        };
        let r = match popped {
            Some(r) => r,
            None => {
                proof {
                    assert(self@.slots =~= m0.slots);
                    assert(self@ == m0);
                }
                return ;
            },
        };
        let ghost refs0 = m0.refs_of(e);
        proof {
            assert(refs0.len() > 0);
            assert(r == refs0.last());
            assert(refs0.drop_last() =~= refs0.subrange(0, refs0.len() - 1));
            assert(self@.slots =~= m0.slots.update(e, Some(refs0.drop_last())));
            assert(self@.cols == m0.cols);
            assert(m0.ref_ok(e, refs0.len() - 1));
            assert(m0.has_column(r.key));
        }
        let ci_opt = self.find_column(r.key);
        proof {
            assert(ci_opt is Some);
        }
        let ci = ci_opt.unwrap();
        proof {
            lemma_col_idx_is(m0.cols, r.key, ci as int);
        }
        let ghost rows = m0.column_rows(r.key);
        let col_len = self.columns[ci].rows.len();
        proof {
            assert(col_len as int == rows.len());
            assert((r.index as int) < rows.len());
        }
        let ghost rows2 = rows.update(r.index as int, rows.last()).drop_last();
        let ghost cols2 = m0.cols.update(ci as int, ColumnView { key: r.key, rows: rows2 });
        let _removed = self.columns[ci].rows.swap_remove(r.index);
        proof {
            assert(self@.cols =~= cols2);
        }
        if r.index < col_len - 1 {
            let ghost target = ComponentRef { key: r.key, index: (col_len - 1) as usize };
            let e2 = self.columns[ci].rows[r.index].entity;
            let ghost refs2 = self@.refs_of(e2 as int);
            proof {
                assert(self@.cols[ci as int].rows[r.index as int] == rows[col_len - 1]);
                assert(e2 == rows[col_len - 1].entity);
                assert(m0.row_owner_ok(ci as int, col_len - 1));
                assert(m0.is_live(e2 as int));
                assert(m0.refs_of(e2 as int).contains(target));
                let jt = choose|jj: int|
                    0 <= jj < m0.refs_of(e2 as int).len() && m0.refs_of(e2 as int)[jj] == target;
                assert(m0.refs_of(e2 as int)[jt] == target);
                if e2 as int == e {
                    assert(refs2 == refs0.drop_last());
                    assert(refs0[refs0.len() - 1] == r);
                    assert(r != target);
                    assert(jt != refs0.len() - 1);
                    assert(refs2[jt] == target);
                } else {
                    assert(refs2 == m0.refs_of(e2 as int));
                }
                assert(refs2.contains(target));
            }
            let jopt = match &self.slots[e2] {
                Some(refs) => find_ref_pos(refs, r.key, col_len - 1),
                None => None,
            };
            proof {
                assert(jopt is Some);
            }
            let jpos = jopt.unwrap();
            let ghost jspec = ref_pos_of(refs2, target);
            proof {
                assert(0 <= jspec < refs2.len() && refs2[jspec] == target);
                if jpos as int != jspec {
                    assert(refs2[jpos as int] == m0.refs_of(e2 as int)[jpos as int]);
                    assert(refs2[jspec] == m0.refs_of(e2 as int)[jspec]);
                    assert(m0.refs_of(e2 as int)[jpos as int] == m0.refs_of(e2 as int)[jspec]);
                    assert(false);
                }
            }
            let ghost before_set = self@;
            match &mut self.slots[e2] {
                Some(refs) => refs.set(jpos, ComponentRef { key: r.key, index: r.index }),
                None => {},
            }
            proof {
                assert(self@.slots =~= before_set.slots.update(
                    e2 as int,
                    Some(refs2.update(jspec, ComponentRef { key: r.key, index: r.index })),
                ));
                assert(self@ == m0.spec_remove_last(e));
            }
        } else {
            proof {
                assert((r.index as int) == rows.len() - 1);
                assert(self@ == m0.spec_remove_last(e));
            }
        }
        proof {
            lemma_spec_remove_last_wf(m0, e);
        }
    }

    /// Despawns `entity`: removes every component it owns (last-added
    /// first, each removal swap-compacting its column), then deletes
    /// the directory entry. The handle is never reused. Fails with
    /// `UnknownEntity`, changing nothing, exactly when `entity` is not
    /// live.
    pub fn remove_entity(&mut self, entity: Entity) -> (r: Result<(), EcsError>)
        requires
            old(self).wf(),
        ensures
            final(self).wf(),
            match r {
                Ok(_) => old(self)@.is_live(entity as int) && final(self)@ == old(
                    self,
                )@.spec_despawn(entity as int),
                Err(err) => !old(self)@.is_live(entity as int) && err == EcsError::UnknownEntity
                    && final(self)@ == old(self)@,
            },
            !final(self)@.is_live(entity as int),
            forall|x: int|
                x != entity as int ==> #[trigger] final(self)@.is_live(x) == old(self)@.is_live(x),
            old(self)@.is_live(entity as int) ==> final(self)@.live_count() == old(
                self,
            )@.live_count() - 1,
            !old(self)@.is_live(entity as int) ==> final(self)@.live_count() == old(
                self,
            )@.live_count(),
            final(self)@.col_keys() == old(self)@.col_keys(),
            forall|k2: u64| #[trigger] final(self)@.has_column(k2) == old(self)@.has_column(k2),
            final(self)@.next_handle() == old(self)@.next_handle(),
    {
        let ghost m0 = self@;
        let ghost e = entity as int;
        if entity >= self.slots.len() {
            return Err(EcsError::UnknownEntity);
        }
        if self.slots[entity].is_none() {
            return Err(EcsError::UnknownEntity);
        }
        let mut remaining = match &self.slots[entity] {
            Some(refs) => refs.len(),
            None => 0,
        };
        while remaining > 0
            invariant
                self.wf(),
                e == entity as int,
                self@.is_live(e),
                remaining == self@.refs_of(e).len(),
                m0.is_live(e),
                m0.spec_despawn(e) == self@.spec_despawn(e),
                self@.live_count() == m0.live_count(),
                self@.col_keys() == m0.col_keys(),
                self@.next_handle() == m0.next_handle(),
                forall|k2: u64| #[trigger] self@.has_column(k2) == m0.has_column(k2),
                forall|x: int| #[trigger] self@.is_live(x) == m0.is_live(x),
            decreases remaining,
        {
            let ghost pre = self@;
            self.entity_remove_last_component(entity);
            proof {
                assert(self@ == pre.spec_remove_last(e));
                assert(pre.spec_despawn(e) == self@.spec_despawn(e));
            }
            remaining = remaining - 1;
        }
        let ghost pre = self@;
        self.slots.set(entity, None);
        proof {
            lemma_count_live_update(pre.slots, e, None);
        }
        self.live_count = self.live_count - 1;
        proof {
            assert(self@.slots =~= pre.slots.update(e, None));
            assert(self@.cols == pre.cols);
            assert(self@ == m0.spec_despawn(e));
            lemma_clear_empty_slot_wf(pre, e);
            assert(self@.col_keys() == m0.col_keys());
            assert forall|k2: u64| #[trigger] self@.has_column(k2) == m0.has_column(k2) by {
                assert(pre.has_column(k2) == m0.has_column(k2));
            }
            assert forall|x: int| x != e implies #[trigger] self@.is_live(x) == m0.is_live(x) by {
                assert(pre.is_live(x) == m0.is_live(x));
            }
        }
        Ok(())
    }

    /// A deterministic, human-readable dump of the store: every live
    /// entity in increasing handle order with its `(key, index)`
    /// references, then every column with the owners of its rows in
    /// column order. A debugging and test oracle, not a hot path.
    pub fn describe(&self) -> (out: String)
        requires
            self.wf(),
        ensures
            out@ == spec_describe(self@),
    {
        let mut out = String::new();
        out.append("Entities: {\n");
        let mut e: usize = 0;
        while e < self.slots.len()
            invariant
                e <= self.slots@.len(),
                self@.slots.len() == self.slots@.len(),
                out@ == "Entities: {\n"@ + spec_entity_lines(self@, e as int),
            decreases self.slots@.len() - e,
        {
            let ghost pre = out@;
            match &self.slots[e] {
                Some(refs) => {
                    out.append("\t");
                    push_u64_decimal(&mut out, e as u64);
                    out.append(": [");
                    let ghost rseq = refs@;
                    let mut j: usize = 0;
                    while j < refs.len()
                        invariant
                            j <= refs@.len(),
                            refs@ == rseq,
                            out@ == pre + "\t"@ + dec_digits(e as nat) + ": ["@ + spec_ref_list(
                                rseq,
                                j as int,
                            ),
                        decreases refs@.len() - j,
                    {
                        if j > 0 {
                            out.append(", ");
                        }
                        out.append("(");
                        push_u64_decimal(&mut out, refs[j].key);
                        out.append(", ");
                        push_u64_decimal(&mut out, refs[j].index as u64);
                        out.append(")");
                        proof {
                            assert(out@ =~= pre + "\t"@ + dec_digits(e as nat) + ": ["@
                                + spec_ref_list(rseq, j as int + 1));
                        }
                        j = j + 1;
                    }
                    out.append("]\n");
                    proof {
                        assert(self@.refs_of(e as int) == rseq);
                        assert(out@ =~= pre + spec_entity_line(self@, e as int));
                        assert(out@ =~= "Entities: {\n"@ + spec_entity_lines(self@, e as int + 1));
                    }
                },
                None => {
                    proof {
                        assert(out@ =~= "Entities: {\n"@ + spec_entity_lines(self@, e as int + 1));
                    }
                },
            }
            e = e + 1;
        }
        out.append("}\n");
        let ghost mid = out@;
        let mut ci: usize = 0;
        while ci < self.columns.len()
            invariant
                ci <= self.columns@.len(),
                self@.cols.len() == self.columns@.len(),
                mid == "Entities: {\n"@ + spec_entity_lines(self@, self@.slots.len() as int)
                    + "}\n"@,
                out@ == mid + spec_column_lines(self@.cols, ci as int),
            decreases self.columns@.len() - ci,
        {
            let ghost pre = out@;
            let ghost c = self@.cols[ci as int];
            push_u64_decimal(&mut out, self.columns[ci].key);
            out.append(": [");
            let rows = &self.columns[ci].rows;
            let mut i: usize = 0;
            while i < rows.len()
                invariant
                    i <= rows@.len(),
                    rows@ == c.rows,
                    out@ == pre + dec_digits(c.key as nat) + ": ["@ + spec_row_entities(
                        c.rows,
                        i as int,
                    ),
                decreases rows@.len() - i,
            {
                if i > 0 {
                    out.append(", ");
                }
                push_u64_decimal(&mut out, rows[i].entity as u64);
                proof {
                    assert(out@ =~= pre + dec_digits(c.key as nat) + ": ["@ + spec_row_entities(
                        c.rows,
                        i as int + 1,
                    ));
                }
                i = i + 1;
            }
            out.append("]\n");
            proof {
                assert(out@ =~= pre + spec_column_line(c));
                assert(out@ =~= mid + spec_column_lines(self@.cols, ci as int + 1));
            }
            ci = ci + 1;
        }
        proof {
            assert(out@ =~= spec_describe(self@));
        }
        out
    }

    /// The keys of every column ever created, in creation order; the
    /// diagnostics companion of [`Self::components`].
    pub fn column_keys(&self) -> (ks: Vec<u64>)
        ensures
            ks@ == self@.col_keys(),
    {
        let mut ks: Vec<u64> = Vec::new();
        let mut i: usize = 0;
        while i < self.columns.len()
            invariant
                i <= self.columns.len(),
                self@.cols.len() == self.columns@.len(),
                ks@.len() == i,
                forall|j: int| 0 <= j < i ==> ks@[j] == (#[trigger] self@.cols[j]).key,
            decreases self.columns.len() - i,
        {
            ks.push(self.columns[i].key);
            i = i + 1;
        }
        proof {
            assert(ks@ =~= self@.col_keys());
        }
        ks
    }
}

} // verus!
