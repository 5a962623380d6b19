//! The scheduler: an immutable-after-construction family of per-type idle
//! pools of PE handles.
//!
//! Construction groups a flat catalog of PE descriptors into one idle pool
//! per declared type, in catalog order, each handle's slot being its
//! catalog position. `acquire_pe` makes one removal attempt on the
//! requested type's pool; `release_pe` guards against returning a handle
//! the hardware still reports as executing and pushes it back; and
//! `reset_interrupts` drains every pool once, normalizes each drained
//! handle's interrupt state, and restores the pool.
//!
//! The contracts are stated over the mathematical image of the scheduler:
//! a sequence of [`PoolView`]s, one per known type, carrying the queued
//! handles of that type oldest first. The structural invariant [`inv`] —
//! pairwise-distinct type ids, every pooled handle of its pool's type,
//! pairwise-distinct slots, no pooled handle executing — is established by
//! construction and preserved by every operation.

use vstd::prelude::*;
use crate::pe::fresh_pe;
use crate::pe::PE;
use crate::pe::PEId;
use crate::pe::PEView;
use crate::pe::PeDesc;
use crate::pe::PeDescView;
use crate::pool::Pool;

verus! {

/// Failures of the scheduling surface. All are recoverable: they are
/// reported to the caller, never raised as a panic.
#[derive(Debug)]
pub enum Error {
    /// The type is known but no idle handle of it is available right now.
    PEUnavailable { id: PEId },
    /// The requested or released-to type was never in the catalog.
    NoSuchPE { id: PEId },
    /// The handle is still executing and may not re-enter its idle pool;
    /// it comes back to the caller inside the error.
    PEStillActive { pe: PE },
    /// A register operation of the handle layer failed.
    PEError { source: crate::pe::Error },
}

/// The image of one per-type idle pool: the type it serves and the
/// handles it currently holds, oldest first.
#[verifier::ext_equal]
pub ghost struct PoolView {
    pub id: nat,
    pub pes: Seq<PEView>,
}

/// Whether some pool serves type `id`.
pub open spec fn known(v: Seq<PoolView>, id: nat) -> bool {
    exists|i: int| 0 <= i < v.len() && v[i].id == id
}

/// The index of the pool serving type `id` (meaningful under
/// [`distinct_ids`] when [`known`] holds).
pub open spec fn pool_idx(v: Seq<PoolView>, id: nat) -> int {
    choose|i: int| 0 <= i < v.len() && v[i].id == id
}

/// The handles idling in type `id`'s pool, oldest first.
pub open spec fn pool_of(v: Seq<PoolView>, id: nat) -> Seq<PEView> {
    v[pool_idx(v, id)].pes
}

/// `v` with type `id`'s pool holding `pes` instead.
pub open spec fn with_pool(v: Seq<PoolView>, id: nat, pes: Seq<PEView>) -> Seq<PoolView> {
    v.update(pool_idx(v, id), PoolView { id, pes })
}

/// Each type has at most one pool.
pub open spec fn distinct_ids(v: Seq<PoolView>) -> bool {
    forall|i: int, j: int| 0 <= i < j < v.len() ==> v[i].id != v[j].id
}

/// Every pooled handle belongs to the type its pool serves.
pub open spec fn typed_pools(v: Seq<PoolView>) -> bool {
    forall|i: int, k: int|
        0 <= i < v.len() && 0 <= k < v[i].pes.len()
            ==> (#[trigger] v[i].pes[k]).type_id == v[i].id
}

/// No two pooled handles share a slot: a handle is in at most one pool,
/// at most once.
pub open spec fn distinct_slots(v: Seq<PoolView>) -> bool {
    forall|i: int, k: int, j: int, l: int|
        #![trigger v[i].pes[k], v[j].pes[l]]
        0 <= i < v.len() && 0 <= k < v[i].pes.len()
            && 0 <= j < v.len() && 0 <= l < v[j].pes.len()
            && (i != j || k != l)
            ==> v[i].pes[k].slot != v[j].pes[l].slot
}

/// No pooled handle is executing: only idle handles sit in a pool.
pub open spec fn pools_inactive(v: Seq<PoolView>) -> bool {
    forall|i: int, k: int|
        0 <= i < v.len() && 0 <= k < v[i].pes.len()
            ==> !(#[trigger] v[i].pes[k]).active
}

/// The scheduler's structural invariant.
pub open spec fn inv(v: Seq<PoolView>) -> bool {
    distinct_ids(v) && typed_pools(v) && distinct_slots(v) && pools_inactive(v)
}

/// No pooled handle occupies slot `slot`: the handle of that slot, if
/// any, is checked out.
pub open spec fn slot_absent(v: Seq<PoolView>, slot: nat) -> bool {
    forall|i: int, k: int|
        0 <= i < v.len() && 0 <= k < v[i].pes.len()
            ==> (#[trigger] v[i].pes[k]).slot != slot
}

/// One successful checkout of `v` from type `id`'s pool: `v` was the
/// oldest idle handle of that type, and only that pool changed, losing
/// exactly that handle.
pub open spec fn acquire_step(before: Seq<PoolView>, after: Seq<PoolView>, id: nat, v: PEView) -> bool {
    &&& known(before, id)
    &&& pool_of(before, id).len() > 0
    &&& v == pool_of(before, id)[0]
    &&& after == with_pool(before, id, pool_of(before, id).drop_first())
}

/// One successful check-in of `v`: only its type's pool changed, gaining
/// exactly that handle at the back.
pub open spec fn release_step(before: Seq<PoolView>, after: Seq<PoolView>, v: PEView) -> bool {
    &&& known(before, v.type_id)
    &&& after == with_pool(before, v.type_id, pool_of(before, v.type_id).push(v))
}

/// A handle after the interrupt-normalization sweep: interrupt line
/// enabled, nothing pending, everything else untouched.
pub open spec fn swept_pe(v: PEView) -> PEView {
    PEView { interrupt_enabled: true, interrupt_pending: false, ..v }
}

/// A pool's handles after the sweep: the same handles, in the same
/// order, each normalized.
pub open spec fn swept_pes(s: Seq<PEView>) -> Seq<PEView> {
    s.map_values(|x: PEView| swept_pe(x))
}

/// A pool after the sweep.
pub open spec fn swept_pool(p: PoolView) -> PoolView {
    PoolView { id: p.id, pes: swept_pes(p.pes) }
}

/// The whole scheduler after the sweep.
pub open spec fn swept(v: Seq<PoolView>) -> Seq<PoolView> {
    v.map_values(|p: PoolView| swept_pool(p))
}

/// The images of a sequence of handles.
pub open spec fn pes_view(s: Seq<PE>) -> Seq<PEView> {
    s.map_values(|x: PE| x@)
}

/// The images of a catalog's descriptors.
pub open spec fn descs_view(s: Seq<PeDesc>) -> Seq<PeDescView> {
    s.map_values(|d: PeDesc| d@)
}

/// The pools that construction builds from catalog `descs`: descriptors
/// are taken in catalog order, each becomes a fresh handle whose slot is
/// its catalog position, pushed into its declared type's pool, and a type
/// gets its pool on first sight, at the end.
pub open spec fn grouped(descs: Seq<PeDescView>) -> Seq<PoolView>
    decreases descs.len(),
{
    if descs.len() == 0 {
        Seq::empty()
    } else {
        let prefix = grouped(descs.drop_last());
        let d = descs.last();
        let v = fresh_pe(d, (descs.len() - 1) as nat);
        if known(prefix, d.id) {
            with_pool(prefix, d.id, pool_of(prefix, d.id).push(v))
        } else {
            prefix.push(PoolView { id: d.id, pes: seq![v] })
        }
    }
}

/// How many catalog entries declare type `id`.
pub open spec fn count_type(descs: Seq<PeDescView>, id: nat) -> nat
    decreases descs.len(),
{
    if descs.len() == 0 {
        0
    } else {
        count_type(descs.drop_last(), id) + if descs.last().id == id {
            1nat
        } else {
            0nat
        }
    }
}

/// Identifies the pool of a type under distinct ids: an index whose pool
/// serves `id` is the index `pool_idx` picks.
pub proof fn lemma_pool_idx_of(v: Seq<PoolView>, id: nat, i: int)
    requires
        distinct_ids(v),
        0 <= i < v.len(),
        v[i].id == id,
    ensures
        known(v, id),
        pool_idx(v, id) == i,
{
    assert(known(v, id));
    let j = pool_idx(v, id);
    assert(0 <= j < v.len() && v[j].id == id);
    if j < i {
        assert(v[j].id != v[i].id);
    } else if i < j {
        assert(v[i].id != v[j].id);
    }
}

/// The sweep preserves the structural invariant: it touches only
/// interrupt state, never a handle's slot, type or execution flag, and
/// never a pool's membership.
pub proof fn lemma_swept_inv(v: Seq<PoolView>)
    requires
        inv(v),
    ensures
        inv(swept(v)),
{
    let w = swept(v);
    assert forall|i: int, k: int|
        0 <= i < w.len() && 0 <= k < w[i].pes.len()
            implies (#[trigger] w[i].pes[k]) == swept_pe(v[i].pes[k])
            && w[i].id == v[i].id by {
        assert(w[i] == swept_pool(v[i]));
        assert(w[i].pes[k] == swept_pe(v[i].pes[k]));
    }
    assert(distinct_ids(w));
    assert(typed_pools(w));
    assert(pools_inactive(w));
    assert forall|i: int, k: int, jj: int, l: int|
        0 <= i < w.len() && 0 <= k < w[i].pes.len()
            && 0 <= jj < w.len() && 0 <= l < w[jj].pes.len()
            && (i != jj || k != l)
            implies #[trigger] w[i].pes[k].slot != #[trigger] w[jj].pes[l].slot by {
        assert(w[i].pes[k] == swept_pe(v[i].pes[k]));
        assert(w[jj].pes[l] == swept_pe(v[jj].pes[l]));
    }
    assert(distinct_slots(w));
}

/// Checking a handle out preserves the structural invariant, and the
/// handle it yields occupies no pool afterwards: no concurrently-held
/// handle can share its slot.
pub proof fn lemma_acquire_preserves_inv(before: Seq<PoolView>, after: Seq<PoolView>, id: nat, v: PEView)
    requires
        inv(before),
        acquire_step(before, after, id, v),
    ensures
        inv(after),
        slot_absent(after, v.slot),
{
    let j = pool_idx(before, id);
    assert(0 <= j < before.len() && before[j].id == id);
    assert(after == before.update(j, PoolView { id, pes: before[j].pes.drop_first() }));
    assert forall|i: int, k: int|
        0 <= i < after.len() && 0 <= k < after[i].pes.len()
            implies exists|k0: int|
                0 <= k0 < before[i].pes.len() && #[trigger] after[i].pes[k]
                    == before[i].pes[k0] && (i != j || k0 != 0) by {
        if i == j {
            assert(after[i].pes[k] == before[i].pes[k + 1]);
        } else {
            assert(after[i].pes[k] == before[i].pes[k]);
        }
    }
    assert(distinct_ids(after));
    assert(typed_pools(after));
    assert(pools_inactive(after));
    assert forall|i: int, k: int, jj: int, l: int|
        0 <= i < after.len() && 0 <= k < after[i].pes.len()
            && 0 <= jj < after.len() && 0 <= l < after[jj].pes.len()
            && (i != jj || k != l)
            implies #[trigger] after[i].pes[k].slot != #[trigger] after[jj].pes[l].slot by {
        let k0: int = if i == j { k + 1 } else { k };
        let l0: int = if jj == j { l + 1 } else { l };
        assert(after[i].pes[k] == before[i].pes[k0]);
        assert(after[jj].pes[l] == before[jj].pes[l0]);
        assert(i != jj || k0 != l0);
    }
    assert(distinct_slots(after));
    assert(v == before[j].pes[0]);
    assert forall|i: int, k: int|
        0 <= i < after.len() && 0 <= k < after[i].pes.len()
            implies (#[trigger] after[i].pes[k]).slot != v.slot by {
        let k0: int = if i == j { k + 1 } else { k };
        assert(after[i].pes[k] == before[i].pes[k0]);
        assert(i != j || k0 != 0);
    }
}

/// Checking an idle handle back in preserves the structural invariant,
/// provided no pooled handle already holds its slot (every handle a
/// caller holds satisfies that, by exclusivity) and its type matches its
/// pool.
pub proof fn lemma_release_preserves_inv(before: Seq<PoolView>, after: Seq<PoolView>, v: PEView)
    requires
        inv(before),
        release_step(before, after, v),
        !v.active,
        slot_absent(before, v.slot),
    ensures
        inv(after),
{
    let j = pool_idx(before, v.type_id);
    assert(0 <= j < before.len() && before[j].id == v.type_id);
    assert(after == before.update(j, PoolView { id: v.type_id, pes: before[j].pes.push(v) }));
    assert(distinct_ids(after));
    assert forall|i: int, k: int|
        0 <= i < after.len() && 0 <= k < after[i].pes.len()
            implies (#[trigger] after[i].pes[k]).type_id == after[i].id
            && !after[i].pes[k].active by {
        if i == j && k == before[j].pes.len() {
            assert(after[i].pes[k] == v);
        } else {
            assert(after[i].pes[k] == before[i].pes[k]);
        }
    }
    assert(typed_pools(after));
    assert(pools_inactive(after));
    assert forall|i: int, k: int, jj: int, l: int|
        0 <= i < after.len() && 0 <= k < after[i].pes.len()
            && 0 <= jj < after.len() && 0 <= l < after[jj].pes.len()
            && (i != jj || k != l)
            implies #[trigger] after[i].pes[k].slot != #[trigger] after[jj].pes[l].slot by {
        let new_i = i == j && k == before[j].pes.len();
        let new_jj = jj == j && l == before[j].pes.len();
        if new_i && !new_jj {
            assert(after[jj].pes[l] == before[jj].pes[l]);
            assert(after[i].pes[k] == v);
        } else if !new_i && new_jj {
            assert(after[i].pes[k] == before[i].pes[k]);
            assert(after[jj].pes[l] == v);
        } else if !new_i && !new_jj {
            assert(after[i].pes[k] == before[i].pes[k]);
            assert(after[jj].pes[l] == before[jj].pes[l]);
        }
    }
    assert(distinct_slots(after));
}

/// Exclusivity: two checkouts in sequence hand out handles of different
/// slots. Together with `slot_absent` in `acquire_pe`'s contract — a
/// handle handed out is in no pool afterwards — no two
/// concurrently-held handles ever share a slot index.
pub proof fn lemma_acquired_slots_distinct(
    s0: Seq<PoolView>,
    s1: Seq<PoolView>,
    s2: Seq<PoolView>,
    id1: nat,
    id2: nat,
    v1: PEView,
    v2: PEView,
)
    requires
        inv(s0),
        acquire_step(s0, s1, id1, v1),
        acquire_step(s1, s2, id2, v2),
    ensures
        v1.slot != v2.slot,
{
    lemma_acquire_preserves_inv(s0, s1, id1, v1);
    let j2 = pool_idx(s1, id2);
    assert(0 <= j2 < s1.len() && s1[j2].id == id2);
    assert(v2 == s1[j2].pes[0]);
    assert(s1[j2].pes[0].slot != v1.slot);
}

/// Conservation under checkout: an acquire moves exactly one handle of
/// the requested type from "idle in pool" to "checked out"; the set of
/// known types is untouched and so is every other type's pool, so the
/// sum of idle and checked-out handles of each type is constant.
pub proof fn lemma_acquire_conservation(
    before: Seq<PoolView>,
    after: Seq<PoolView>,
    id: nat,
    v: PEView,
)
    requires
        distinct_ids(before),
        acquire_step(before, after, id, v),
    ensures
        forall|t: nat| known(after, t) == known(before, t),
        pool_of(after, id).len() + 1 == pool_of(before, id).len(),
        forall|t: nat|
            #[trigger] known(before, t) && t != id ==> pool_of(after, t) == pool_of(before, t),
{
    let j = pool_idx(before, id);
    assert(0 <= j < before.len() && before[j].id == id);
    assert(after == before.update(j, PoolView { id, pes: before[j].pes.drop_first() }));
    assert forall|t: nat| known(after, t) == known(before, t) by {
        if known(before, t) {
            let i = pool_idx(before, t);
            assert(0 <= i < before.len() && before[i].id == t);
            assert(after[i].id == t);
            assert(known(after, t));
        }
        if known(after, t) {
            let i = pool_idx(after, t);
            assert(0 <= i < after.len() && after[i].id == t);
            assert(before[i].id == t);
            assert(known(before, t));
        }
    }
    assert(distinct_ids(after));
    lemma_pool_idx_of(after, id, j);
    assert forall|t: nat| #[trigger] known(before, t) && t != id implies pool_of(after, t)
        == pool_of(before, t) by {
        let i = pool_idx(before, t);
        assert(0 <= i < before.len() && before[i].id == t);
        assert(i != j);
        assert(after[i] == before[i]);
        lemma_pool_idx_of(after, t, i);
    }
}

/// Conservation under check-in: a release moves exactly one handle of
/// its type from "checked out" back to "idle in pool"; the set of known
/// types is untouched and so is every other type's pool.
pub proof fn lemma_release_conservation(before: Seq<PoolView>, after: Seq<PoolView>, v: PEView)
    requires
        distinct_ids(before),
        release_step(before, after, v),
    ensures
        forall|t: nat| known(after, t) == known(before, t),
        pool_of(after, v.type_id).len() == pool_of(before, v.type_id).len() + 1,
        forall|t: nat|
            #[trigger] known(before, t) && t != v.type_id ==> pool_of(after, t) == pool_of(
                before,
                t,
            ),
{
    let j = pool_idx(before, v.type_id);
    assert(0 <= j < before.len() && before[j].id == v.type_id);
    assert(after == before.update(j, PoolView { id: v.type_id, pes: before[j].pes.push(v) }));
    assert forall|t: nat| known(after, t) == known(before, t) by {
        if known(before, t) {
            let i = pool_idx(before, t);
            assert(0 <= i < before.len() && before[i].id == t);
            assert(after[i].id == t);
            assert(known(after, t));
        }
        if known(after, t) {
            let i = pool_idx(after, t);
            assert(0 <= i < after.len() && after[i].id == t);
            assert(before[i].id == t);
            assert(known(before, t));
        }
    }
    assert(distinct_ids(after));
    lemma_pool_idx_of(after, v.type_id, j);
    assert forall|t: nat| #[trigger] known(before, t) && t != v.type_id implies pool_of(after, t)
        == pool_of(before, t) by {
        let i = pool_idx(before, t);
        assert(0 <= i < before.len() && before[i].id == t);
        assert(i != j);
        assert(after[i] == before[i]);
        lemma_pool_idx_of(after, t, i);
    }
}

/// Conservation at construction: a type is known exactly when the
/// catalog declares at least one entry of it, and its pool then starts
/// with exactly as many handles as the catalog declares.
pub proof fn lemma_grouped_count(descs: Seq<PeDescView>, id: nat)
    ensures
        known(grouped(descs), id) <==> count_type(descs, id) > 0,
        known(grouped(descs), id) ==> pool_of(grouped(descs), id).len() == count_type(descs, id),
    decreases descs.len(),
{
    if descs.len() == 0 {
    } else {
        let prev = descs.drop_last();
        lemma_grouped_count(prev, id);
        lemma_grouped_inv(prev);
        lemma_grouped_inv(descs);
        let g0 = grouped(prev);
        let g1 = grouped(descs);
        let d = descs.last();
        let v = fresh_pe(d, (descs.len() - 1) as nat);
        if known(g0, d.id) {
            let j = pool_idx(g0, d.id);
            assert(0 <= j < g0.len() && g0[j].id == d.id);
            assert(g1 == g0.update(j, PoolView { id: d.id, pes: g0[j].pes.push(v) }));
            assert forall|t: nat| known(g1, t) == known(g0, t) by {
                if known(g0, t) {
                    let i = pool_idx(g0, t);
                    assert(0 <= i < g0.len() && g0[i].id == t);
                    assert(g1[i].id == t);
                    assert(known(g1, t));
                }
                if known(g1, t) {
                    let i = pool_idx(g1, t);
                    assert(0 <= i < g1.len() && g1[i].id == t);
                    assert(g0[i].id == t);
                    assert(known(g0, t));
                }
            }
            if id == d.id {
                lemma_pool_idx_of(g1, id, j);
                assert(pool_of(g1, id).len() == pool_of(g0, id).len() + 1);
            } else if known(g0, id) {
                let i = pool_idx(g0, id);
                assert(0 <= i < g0.len() && g0[i].id == id);
                assert(i != j);
                assert(g1[i] == g0[i]);
                lemma_pool_idx_of(g1, id, i);
                assert(pool_of(g1, id) == pool_of(g0, id));
            }
        } else {
            assert(g1 == g0.push(PoolView { id: d.id, pes: seq![v] }));
            assert(count_type(prev, d.id) == 0) by {
                lemma_grouped_count(prev, d.id);
            }
            assert forall|t: nat| t != d.id implies known(g1, t) == known(g0, t) by {
                if known(g0, t) {
                    let i = pool_idx(g0, t);
                    assert(0 <= i < g0.len() && g0[i].id == t);
                    assert(g1[i].id == t);
                    assert(known(g1, t));
                }
                if known(g1, t) {
                    let i = pool_idx(g1, t);
                    assert(0 <= i < g1.len() && g1[i].id == t);
                    assert(i != g0.len());
                    assert(g0[i].id == t);
                    assert(known(g0, t));
                }
            }
            if id == d.id {
                lemma_pool_idx_of(g1, id, g0.len() as int);
                assert(pool_of(g1, id) == seq![v]);
                assert(count_type(descs, id) == 1);
            } else if known(g0, id) {
                let i = pool_idx(g0, id);
                assert(0 <= i < g0.len() && g0[i].id == id);
                assert(g1[i] == g0[i]);
                lemma_pool_idx_of(g1, id, i);
                assert(pool_of(g1, id) == pool_of(g0, id));
            }
        }
    }
}

/// Sweep idempotence: a second sweep with no intervening checkout or
/// check-in changes nothing — the first one already left every idle
/// handle's interrupt line enabled with nothing pending.
pub proof fn lemma_swept_idempotent(v: Seq<PoolView>)
    ensures
        swept(swept(v)) == swept(v),
{
    assert forall|i: int| 0 <= i < v.len() implies #[trigger] swept(swept(v))[i] == swept(
        v,
    )[i] by {
        assert(swept(v)[i] == swept_pool(v[i]));
        assert(swept(swept(v))[i] == swept_pool(swept_pool(v[i])));
        let pes = v[i].pes;
        assert forall|k: int| 0 <= k < pes.len() implies #[trigger] swept_pes(swept_pes(pes))[k]
            == swept_pes(pes)[k] by {
            assert(swept_pes(pes)[k] == swept_pe(pes[k]));
            assert(swept_pes(swept_pes(pes))[k] == swept_pe(swept_pe(pes[k])));
        }
        assert(swept_pes(swept_pes(pes)) =~= swept_pes(pes));
        assert(swept_pool(swept_pool(v[i])) =~= swept_pool(v[i]));
    }
    assert(swept(swept(v)) =~= swept(v));
}

/// What a sweep does to each pooled handle: membership and order are
/// kept pool by pool, and each idle handle ends normalized — line
/// enabled, nothing pending, slot, type, name and execution flag
/// untouched (see `swept_pe`).
pub proof fn lemma_swept_pointwise(v: Seq<PoolView>)
    ensures
        swept(v).len() == v.len(),
        forall|i: int| 0 <= i < v.len() ==> (#[trigger] swept(v)[i]).id == v[i].id,
        forall|i: int| 0 <= i < v.len() ==> (#[trigger] swept(v)[i]).pes.len() == v[i].pes.len(),
        forall|i: int, k: int|
            0 <= i < v.len() && 0 <= k < v[i].pes.len() ==> #[trigger] swept(v)[i].pes[k]
                == swept_pe(v[i].pes[k]),
{
    assert forall|i: int| 0 <= i < v.len() implies (#[trigger] swept(v)[i]).id == v[i].id
        && swept(v)[i].pes.len() == v[i].pes.len() by {
        assert(swept(v)[i] == swept_pool(v[i]));
    }
    assert forall|i: int, k: int|
        0 <= i < v.len() && 0 <= k < v[i].pes.len() implies #[trigger] swept(v)[i].pes[k]
            == swept_pe(v[i].pes[k]) by {
        assert(swept(v)[i] == swept_pool(v[i]));
        assert(swept_pes(v[i].pes)[k] == swept_pe(v[i].pes[k]));
    }
}

/// Sweep skip-on-checkout: a handle checked out during the sweep is in
/// no pool, so no pool holds its slot before the sweep or after it — the
/// sweep drains only what idles in the pools, and the held handle
/// itself, owned exclusively by its holder, keeps its interrupt state.
pub proof fn lemma_swept_skips_held(v: Seq<PoolView>, slot: nat)
    requires
        slot_absent(v, slot),
    ensures
        slot_absent(swept(v), slot),
{
    let w = swept(v);
    assert forall|i: int, k: int|
        0 <= i < w.len() && 0 <= k < w[i].pes.len() implies (#[trigger] w[i].pes[k]).slot
            != slot by {
        assert(w[i] == swept_pool(v[i]));
        assert(w[i].pes[k] == swept_pe(v[i].pes[k]));
        assert(v[i].pes[k].slot != slot);
    }
}

/// One per-type idle pool together with the type it serves.
pub(crate) struct PoolEntry {
    pub id: PEId,
    pub pool: Pool,
}

/// The image of one pool entry.
pub(crate) open spec fn entry_view(e: PoolEntry) -> PoolView {
    PoolView { id: e.id as nat, pes: e.pool.contents() }
}

/// The image of the scheduler's pool table.
pub(crate) open spec fn entries_view(s: Seq<PoolEntry>) -> Seq<PoolView> {
    s.map_values(|e: PoolEntry| entry_view(e))
}

/// The scheduler: a mapping from PE type to that type's idle pool, built
/// once from the device's catalog and never structurally changed
/// afterwards (pools gain and lose handles; the set of known types is
/// fixed).
pub struct Scheduler {
    pools: Vec<PoolEntry>,
}

impl View for Scheduler {
    type V = Seq<PoolView>;

    closed spec fn view(&self) -> Seq<PoolView> {
        entries_view(self.pools@)
    }
}

/// Construction establishes the structural invariant, and every handle it
/// pools sits below the catalog's length.
pub proof fn lemma_grouped_inv(descs: Seq<PeDescView>)
    ensures
        inv(grouped(descs)),
        forall|i: int, k: int|
            0 <= i < grouped(descs).len() && 0 <= k < grouped(descs)[i].pes.len()
                ==> (#[trigger] grouped(descs)[i].pes[k]).slot < descs.len(),
    decreases descs.len(),
{
    if descs.len() == 0 {
    } else {
        let prev = descs.drop_last();
        lemma_grouped_inv(prev);
        let g0 = grouped(prev);
        let g1 = grouped(descs);
        let d = descs.last();
        let v = fresh_pe(d, (descs.len() - 1) as nat);
        assert(v.slot == descs.len() - 1);
        if known(g0, d.id) {
            let j = pool_idx(g0, d.id);
            assert(0 <= j < g0.len() && g0[j].id == d.id);
            assert(g1 == g0.update(j, PoolView { id: d.id, pes: g0[j].pes.push(v) }));
            assert forall|i: int, k: int|
                0 <= i < g1.len() && 0 <= k < g1[i].pes.len()
                    implies (#[trigger] g1[i].pes[k]).slot < descs.len()
                    && g1[i].pes[k].type_id == g1[i].id
                    && !g1[i].pes[k].active by {
                if i == j && k == g0[j].pes.len() {
                    assert(g1[i].pes[k] == v);
                } else {
                    assert(g1[i].pes[k] == g0[i].pes[k]);
                }
            }
            assert(distinct_ids(g1));
            assert(typed_pools(g1));
            assert(pools_inactive(g1));
            assert forall|i: int, k: int, jj: int, l: int|
                0 <= i < g1.len() && 0 <= k < g1[i].pes.len()
                    && 0 <= jj < g1.len() && 0 <= l < g1[jj].pes.len()
                    && (i != jj || k != l)
                    implies #[trigger] g1[i].pes[k].slot != #[trigger] g1[jj].pes[l].slot by {
                let new_i = i == j && k == g0[j].pes.len();
                let new_jj = jj == j && l == g0[j].pes.len();
                if new_i && !new_jj {
                    assert(g1[jj].pes[l] == g0[jj].pes[l]);
                    assert(g0[jj].pes[l].slot < prev.len());
                } else if !new_i && new_jj {
                    assert(g1[i].pes[k] == g0[i].pes[k]);
                    assert(g0[i].pes[k].slot < prev.len());
                } else if !new_i && !new_jj {
                    assert(g1[i].pes[k] == g0[i].pes[k]);
                    assert(g1[jj].pes[l] == g0[jj].pes[l]);
                }
            }
            assert(distinct_slots(g1));
        } else {
            assert(g1 == g0.push(PoolView { id: d.id, pes: seq![v] }));
            assert forall|i: int, k: int|
                0 <= i < g1.len() && 0 <= k < g1[i].pes.len()
                    implies (#[trigger] g1[i].pes[k]).slot < descs.len()
                    && g1[i].pes[k].type_id == g1[i].id
                    && !g1[i].pes[k].active by {
                if i == g0.len() {
                    assert(g1[i].pes == seq![v]);
                    assert(g1[i].pes[k] == v);
                } else {
                    assert(g1[i].pes[k] == g0[i].pes[k]);
                }
            }
            assert(typed_pools(g1));
            assert(pools_inactive(g1));
            assert forall|i: int, jj: int| 0 <= i < jj < g1.len() implies g1[i].id != g1[jj].id by {
                if jj == g0.len() {
                    assert(!known(g0, d.id));
                    assert(g1[i].id == g0[i].id);
                    if g0[i].id == d.id {
                        assert(known(g0, d.id));
                    }
                }
            }
            assert(distinct_ids(g1));
            assert forall|i: int, k: int, jj: int, l: int|
                0 <= i < g1.len() && 0 <= k < g1[i].pes.len()
                    && 0 <= jj < g1.len() && 0 <= l < g1[jj].pes.len()
                    && (i != jj || k != l)
                    implies #[trigger] g1[i].pes[k].slot != #[trigger] g1[jj].pes[l].slot by {
                let new_i = i == g0.len();
                let new_jj = jj == g0.len();
                if new_i && !new_jj {
                    assert(g1[i].pes[k] == v);
                    assert(g1[jj].pes[l] == g0[jj].pes[l]);
                    assert(g0[jj].pes[l].slot < prev.len());
                } else if !new_i && new_jj {
                    assert(g1[jj].pes[l] == v);
                    assert(g1[i].pes[k] == g0[i].pes[k]);
                    assert(g0[i].pes[k].slot < prev.len());
                } else if !new_i && !new_jj {
                    assert(g1[i].pes[k] == g0[i].pes[k]);
                    assert(g1[jj].pes[l] == g0[jj].pes[l]);
                }
            }
            assert(distinct_slots(g1));
        }
    }
}

impl Scheduler {
    /// The index of the entry serving `id`, scanning the fixed pool
    /// table.
    fn find_pool(&self, id: PEId) -> (r: Option<usize>)
        ensures
            (r matches Some(j) ==> j < self.pools@.len() && self.pools@[j as int].id == id),
            (r is None ==> forall|k: int| 0 <= k < self.pools@.len() ==> self.pools@[k].id != id),
    {
        find_entry(&self.pools, id)
    }

    /// Builds the scheduler from the device's PE catalog: for each
    /// descriptor, in catalog order, a fresh handle whose slot is its
    /// catalog position joins the idle pool of its declared type, a
    /// type's pool being created on its first appearance. Grouping alone
    /// cannot fail.
    pub fn new(pes: &Vec<PeDesc>) -> (r: Result<Scheduler, Error>)
        ensures
            r matches Ok(s) && s@ == grouped(descs_view(pes@)) && inv(s@),
    {
        let ghost ds = descs_view(pes@);
        let mut pools: Vec<PoolEntry> = Vec::new();
        let n = pes.len();
        let mut i: usize = 0;
        while i < n
            invariant
                n == pes@.len(),
                i <= n,
                ds == descs_view(pes@),
                entries_view(pools@) == grouped(ds.take(i as int)),
            decreases n - i,
        {
            let the_pe = PE::new(i, &pes[i]);
            let tid = pes[i].id;
            let ghost prefix = entries_view(pools@);
            proof {
                lemma_grouped_inv(ds.take(i as int));
                assert(ds[i as int] == pes@[i as int]@);
                assert(ds[i as int].id == tid as nat);
                assert(the_pe@ == fresh_pe(ds[i as int], i as nat));
            }
            match find_entry(&pools, tid) {
                Some(j) => {
                    proof {
                        assert(prefix[j as int].id == tid as nat);
                        lemma_pool_idx_of(prefix, tid as nat, j as int);
                    }
                    pools[j].pool.push(the_pe);
                    proof {
                        assert(entries_view(pools@) =~= with_pool(
                            prefix,
                            tid as nat,
                            pool_of(prefix, tid as nat).push(the_pe@),
                        ));
                    }
                },
                None => {
                    proof {
                        if known(prefix, tid as nat) {
                            let j = pool_idx(prefix, tid as nat);
                            assert(0 <= j < prefix.len() && prefix[j].id == tid as nat);
                        }
                        assert(!known(prefix, tid as nat));
                    }
                    let mut p = Pool::new();
                    p.push(the_pe);
                    pools.push(PoolEntry { id: tid, pool: p });
                    proof {
                        assert(Seq::<PEView>::empty().push(the_pe@) =~= seq![the_pe@]);
                        assert(entries_view(pools@) =~= prefix.push(
                            PoolView { id: tid as nat, pes: seq![the_pe@] },
                        ));
                    }
                },
            }
            proof {
                assert(ds.take(i + 1).drop_last() =~= ds.take(i as int));
                assert(ds.take(i + 1).last() == ds[i as int]);
                assert(entries_view(pools@) == grouped(ds.take(i + 1)));
            }
            i += 1;
        }
        proof {
            assert(ds.take(n as int) =~= ds);
            lemma_grouped_inv(ds);
        }
        Ok(Scheduler { pools })
    }

    /// One checkout attempt for type `id`: the oldest idle handle of that
    /// type, if the type is known and a handle is idle; `NoSuchPE` for a
    /// type that was never in the catalog; `PEUnavailable` when every
    /// handle of the type is checked out at this moment. A caller that
    /// wants the blocking checkout of a contended deployment repeats the
    /// attempt (yielding between tries) until a release makes a handle
    /// available.
    pub fn acquire_pe(&mut self, id: PEId) -> (r: Result<PE, Error>)
        requires
            inv(old(self)@),
        ensures
            inv(final(self)@),
            (!known(old(self)@, id as nat) ==> final(self)@ == old(self)@
                && (r matches Err(e) && e matches Error::NoSuchPE { id: m } && m == id)),
            (known(old(self)@, id as nat) && pool_of(old(self)@, id as nat).len() == 0
                ==> final(self)@ == old(self)@
                && (r matches Err(e) && e matches Error::PEUnavailable { id: m } && m == id)),
            (known(old(self)@, id as nat) && pool_of(old(self)@, id as nat).len() > 0
                ==> (r matches Ok(pe)
                    && acquire_step(old(self)@, final(self)@, id as nat, pe@)
                    && pe@.type_id == id as nat
                    && !pe@.active
                    && slot_absent(final(self)@, pe@.slot))),
    {
        match self.find_pool(id) {
            None => {
                proof {
                    if known(self@, id as nat) {
                        let j = pool_idx(self@, id as nat);
                        assert(0 <= j < self@.len() && self@[j].id == id as nat);
                        assert(self.pools@[j].id == id);
                    }
                }
                Err(Error::NoSuchPE { id })
            },
            Some(j) => {
                proof {
                    lemma_pool_idx_of(self@, id as nat, j as int);
                }
                let popped = self.pools[j].pool.pop();
                match popped {
                    Some(pe) => {
                        proof {
                            assert(self@ =~= with_pool(
                                old(self)@,
                                id as nat,
                                pool_of(old(self)@, id as nat).drop_first(),
                            ));
                            lemma_acquire_preserves_inv(old(self)@, self@, id as nat, pe@);
                        }
                        Ok(pe)
                    },
                    None => {
                        proof {
                            assert(self@ =~= old(self)@);
                        }
                        Err(Error::PEUnavailable { id })
                    },
                }
            },
        }
    }

    /// Checks a handle back in. A handle the hardware still reports as
    /// executing is refused with `PEStillActive` (handing the handle back
    /// inside the error) and no pool changes; otherwise the handle joins
    /// the back of its type's pool. `NoSuchPE` — defensive, unreachable
    /// for a handle this scheduler issued — reports a handle whose type
    /// no pool serves, again changing nothing.
    pub fn release_pe(&mut self, pe: PE) -> (r: Result<(), Error>)
        requires
            inv(old(self)@),
        ensures
            (pe@.active ==> final(self)@ == old(self)@
                && (r matches Err(e) && e matches Error::PEStillActive { pe: held } && held@ == pe@)),
            (!pe@.active && !known(old(self)@, pe@.type_id) ==> final(self)@ == old(self)@
                && (r matches Err(e) && e matches Error::NoSuchPE { id: m } && m as nat == pe@.type_id)),
            (!pe@.active && known(old(self)@, pe@.type_id) ==> r is Ok
                && release_step(old(self)@, final(self)@, pe@)),
            (!pe@.active && known(old(self)@, pe@.type_id) && slot_absent(old(self)@, pe@.slot)
                ==> inv(final(self)@)),
    {
        if pe.active() {
            return Err(Error::PEStillActive { pe });
        }
        let tid = pe.type_id();
        match self.find_pool(tid) {
            None => {
                proof {
                    if known(self@, tid as nat) {
                        let j = pool_idx(self@, tid as nat);
                        assert(0 <= j < self@.len() && self@[j].id == tid as nat);
                        assert(self.pools@[j].id == tid);
                    }
                }
                Err(Error::NoSuchPE { id: tid })
            },
            Some(j) => {
                proof {
                    lemma_pool_idx_of(self@, tid as nat, j as int);
                }
                let ghost v = pe@;
                self.pools[j].pool.push(pe);
                proof {
                    assert(self@ =~= with_pool(
                        old(self)@,
                        v.type_id,
                        pool_of(old(self)@, v.type_id).push(v),
                    ));
                    if slot_absent(old(self)@, v.slot) {
                        lemma_release_preserves_inv(old(self)@, self@, v);
                    }
                }
                Ok(())
            },
        }
    }

    /// The interrupt-normalization sweep, run once before scheduling
    /// begins or after a recovery event. Every pool is drained completely
    /// by repeated removal; each drained handle has its interrupt line
    /// enabled and any pending interrupt acknowledged; then the pool's
    /// handles are restored. Pool membership is unchanged, and only
    /// handles idling at the moment of the call are touched: a handle
    /// checked out by a caller is in no pool, stays out of the drained
    /// set, and keeps its interrupt state. A register fault of the handle
    /// layer would abort the remaining sweep; in this model the register
    /// operations do not fault, so the sweep always completes.
    pub fn reset_interrupts(&mut self) -> (r: Result<(), Error>)
        requires
            inv(old(self)@),
        ensures
            r is Ok,
            final(self)@ == swept(old(self)@),
            inv(final(self)@),
    {
        let n = self.pools.len();
        let mut t: usize = 0;
        while t < n
            invariant
                n == self.pools@.len(),
                t <= n,
                old(self)@.len() == n,
                forall|i: int| 0 <= i < t ==> entry_view(#[trigger] self.pools@[i]) == swept(
                    old(self)@,
                )[i],
                forall|i: int| t <= i < n ==> entry_view(#[trigger] self.pools@[i]) == old(
                    self,
                )@[i],
            decreases n - t,
        {
            let ghost orig = old(self)@[t as int].pes;
            let ghost target = swept_pes(orig);
            let mut drained: Vec<PE> = Vec::new();
            proof {
                assert(orig.skip(0) =~= orig);
                assert(pes_view(drained@) =~= target.take(0));
            }
            loop
                invariant
                    t < n,
                    n == self.pools@.len(),
                    old(self)@.len() == n,
                    forall|i: int| 0 <= i < t ==> entry_view(#[trigger] self.pools@[i]) == swept(
                        old(self)@,
                    )[i],
                    forall|i: int| t < i < n ==> entry_view(#[trigger] self.pools@[i]) == old(
                        self,
                    )@[i],
                    self.pools@[t as int].id as nat == old(self)@[t as int].id,
                    orig == old(self)@[t as int].pes,
                    target == swept_pes(orig),
                    drained@.len() <= orig.len(),
                    pes_view(drained@) == target.take(drained@.len() as int),
                    self.pools@[t as int].pool.contents() == orig.skip(drained@.len() as int),
                ensures
                    n == self.pools@.len(),
                    forall|i: int| 0 <= i < t ==> entry_view(#[trigger] self.pools@[i]) == swept(
                        old(self)@,
                    )[i],
                    forall|i: int| t < i < n ==> entry_view(#[trigger] self.pools@[i]) == old(
                        self,
                    )@[i],
                    self.pools@[t as int].id as nat == old(self)@[t as int].id,
                    drained@.len() == orig.len(),
                    pes_view(drained@) == target,
                    self.pools@[t as int].pool.contents().len() == 0,
                decreases self.pools@[t as int].pool.contents().len(),
            {
                let ghost k = drained@.len() as int;
                let popped = self.pools[t].pool.pop();
                match popped {
                    None => {
                        proof {
                            assert(orig.skip(k).len() == 0);
                            assert(drained@.len() == orig.len());
                            assert(pes_view(drained@) =~= target);
                        }
                        break;
                    },
                    Some(mut pe) => {
                        proof {
                            assert(pe@ == orig.skip(k)[0]);
                            assert(pe@ == orig[k]);
                            assert(self.pools@[t as int].pool.contents() =~= orig.skip(k + 1));
                        }
                        match pe.enable_interrupt() {
                            Ok(u) => u,
                            Err(e) => {
                                return Err(Error::PEError { source: e });
                            },
                        };
                        let pending = match pe.interrupt_set() {
                            Ok(b) => b,
                            Err(e) => {
                                return Err(Error::PEError { source: e });
                            },
                        };
                        if pending {
                            match pe.reset_interrupt(true) {
                                Ok(u) => u,
                                Err(e) => {
                                    return Err(Error::PEError { source: e });
                                },
                            };
                        }
                        proof {
                            assert(pe@ == swept_pe(orig[k]));
                            assert(target[k] == swept_pe(orig[k]));
                        }
                        let ghost dprev = drained@;
                        drained.push(pe);
                        proof {
                            assert(drained@ == dprev.push(pe));
                            assert forall|idx: int|
                                0 <= idx < drained@.len() implies #[trigger] pes_view(
                                drained@,
                            )[idx] == target.take(k + 1)[idx] by {
                                assert(pes_view(drained@)[idx] == drained@[idx]@);
                                if idx < k {
                                    assert(drained@[idx] == dprev[idx]);
                                    assert(dprev[idx]@ == pes_view(dprev)[idx]);
                                    assert(pes_view(dprev)[idx] == target.take(k)[idx]);
                                } else {
                                    assert(drained@[idx] == pe);
                                }
                            }
                            assert(pes_view(drained@) =~= target.take(k + 1));
                        }
                    },
                }
            }
            let ghost m = target.len() as int;
            proof {
                assert(target.skip(0) =~= target);
                assert(pes_view(drained@) == target.skip(m - drained@.len()));
                assert(self.pools@[t as int].pool.contents() =~= target.take(m - drained@.len()));
            }
            while drained.len() > 0
                invariant
                    t < n,
                    n == self.pools@.len(),
                    old(self)@.len() == n,
                    forall|i: int| 0 <= i < t ==> entry_view(#[trigger] self.pools@[i]) == swept(
                        old(self)@,
                    )[i],
                    forall|i: int| t < i < n ==> entry_view(#[trigger] self.pools@[i]) == old(
                        self,
                    )@[i],
                    self.pools@[t as int].id as nat == old(self)@[t as int].id,
                    target == swept_pes(old(self)@[t as int].pes),
                    m == target.len(),
                    drained@.len() <= m,
                    pes_view(drained@) == target.skip(m - drained@.len()),
                    self.pools@[t as int].pool.contents() == target.take(m - drained@.len()),
                decreases drained@.len(),
            {
                let ghost k = m - drained@.len();
                let ghost dprev = drained@;
                let pe = drained.remove(0);
                proof {
                    assert(pe == dprev[0]);
                    assert(pe@ == pes_view(dprev)[0]);
                    assert(pe@ == target[k]);
                    assert forall|idx: int|
                        0 <= idx < drained@.len() implies #[trigger] pes_view(drained@)[idx]
                            == target.skip(k + 1)[idx] by {
                        assert(pes_view(drained@)[idx] == drained@[idx]@);
                        assert(drained@[idx] == dprev[idx + 1]);
                        assert(dprev[idx + 1]@ == pes_view(dprev)[idx + 1]);
                        assert(pes_view(dprev)[idx + 1] == target.skip(k)[idx + 1]);
                    }
                    assert(pes_view(drained@) =~= target.skip(k + 1));
                }
                self.pools[t].pool.push(pe);
                proof {
                    assert(self.pools@[t as int].pool.contents() =~= target.take(k + 1));
                }
            }
            proof {
                assert(self.pools@[t as int].pool.contents() == target.take(m));
                assert(target.take(m) =~= target);
                assert(swept(old(self)@)[t as int] == swept_pool(old(self)@[t as int]));
                assert(entry_view(self.pools@[t as int]) =~= swept(old(self)@)[t as int]);
            }
            t += 1;
        }
        proof {
            assert forall|i: int| 0 <= i < n implies self@[i] == swept(old(self)@)[i] by {
                assert(self@[i] == entry_view(self.pools@[i]));
            }
            assert(self@ =~= swept(old(self)@));
            lemma_swept_inv(old(self)@);
        }
        Ok(())
    }

    /// How many handles of type `id` idle in their pool at this moment;
    /// nothing for a type that was never in the catalog.
    pub fn idle_len(&self, id: PEId) -> (r: Option<usize>)
        requires
            inv(self@),
        ensures
            (r matches Some(n) ==> known(self@, id as nat)
                && n as nat == pool_of(self@, id as nat).len()),
            (r is None ==> !known(self@, id as nat)),
    {
        match self.find_pool(id) {
            None => {
                proof {
                    if known(self@, id as nat) {
                        let j = pool_idx(self@, id as nat);
                        assert(0 <= j < self@.len() && self@[j].id == id as nat);
                        assert(self.pools@[j].id == id);
                    }
                }
                None
            },
            Some(j) => {
                proof {
                    lemma_pool_idx_of(self@, id as nat, j as int);
                }
                Some(self.pools[j].pool.len())
            },
        }
    }
}

/// The index of the entry serving `id` in a pool table.
fn find_entry(pools: &Vec<PoolEntry>, id: PEId) -> (r: Option<usize>)
    ensures
        (r matches Some(j) ==> j < pools@.len() && pools@[j as int].id == id),
        (r is None ==> forall|k: int| 0 <= k < pools@.len() ==> pools@[k].id != id),
{
    let n = pools.len();
    let mut j: usize = 0;
    while j < n
        invariant
            n == pools@.len(),
            j <= n,
            forall|k: int| 0 <= k < j ==> pools@[k].id != id,
        decreases n - j,
    {
        if pools[j].id == id {
            return Some(j);
        }
        j += 1;
    }
    None
}

} // verus!
