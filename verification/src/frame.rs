//! How replay reads a store that has gained a record: what it finds is what
//! it found before, together with what the new record adds or removes.

use crate::replay::{
    del_hits, deleted_at, deleted_at_upto, deleted_on, deleted_on_upto, gather, gather_node,
    holds_entity, is_live_add, live, survivors, Found, ScopeModel,
};
use crate::store::{
    ascending, ceiling, change_ids, detail, entity_ids, first_index, is_first_index,
    lemma_first_index, within, StoreModel,
};
use crate::types::{Action, ChangeRow, Level};
use vstd::prelude::*;

verus! {

/// An id that a table does not hold has no index in it.
pub proof fn lemma_absent(ids: Seq<i64>, id: i64)
    requires
        !ids.contains(id),
    ensures
        first_index(ids, id) is None,
{
    if exists|i: int| is_first_index(ids, id, i) {
        let i = choose|i: int| is_first_index(ids, id, i);
        assert(ids[i] == id);
    }
}

/// An id that a table holds has a first index in it.
pub proof fn lemma_held(ids: Seq<i64>, id: i64)
    requires
        ids.contains(id),
    ensures
        first_index(ids, id) is Some,
        is_first_index(ids, id, first_index(ids, id)->0),
{
    let w = choose|w: int| 0 <= w < ids.len() && ids[w] == id;
    lemma_first_exists(ids, id, w);
}

/// If `ids[w]` is `id` then some index at or before `w` is the first.
pub proof fn lemma_first_exists(ids: Seq<i64>, id: i64, w: int)
    requires
        0 <= w < ids.len(),
        ids[w] == id,
    ensures
        exists|i: int| is_first_index(ids, id, i),
        first_index(ids, id) is Some,
        is_first_index(ids, id, first_index(ids, id)->0),
    decreases w,
{
    if forall|j: int| 0 <= j < w ==> ids[j] != id {
        assert(is_first_index(ids, id, w));
    } else {
        let j = choose|j: int| 0 <= j < w && ids[j] == id;
        lemma_first_exists(ids, id, j);
    }
    let i = choose|i: int| is_first_index(ids, id, i);
    lemma_first_index(ids, id, i);
}

/// A search is not disturbed by a new id at the end, unless it is the id
/// that is looked for.
pub proof fn lemma_first_index_push(ids: Seq<i64>, new: i64, id: i64)
    requires
        id != new,
    ensures
        first_index(ids.push(new), id) == first_index(ids, id),
{
    let grown = ids.push(new);
    if ids.contains(id) {
        lemma_held(ids, id);
        let i = first_index(ids, id)->0;
        assert(is_first_index(grown, id, i)) by {
            assert(grown[i] == ids[i]);
            assert forall|j: int| 0 <= j < i implies grown[j] != id by {
                assert(grown[j] == ids[j]);
            }
        }
        lemma_first_index(grown, id, i);
    } else {
        lemma_absent(ids, id);
        assert(!grown.contains(id)) by {
            if grown.contains(id) {
                let w = choose|w: int| 0 <= w < grown.len() && grown[w] == id;
                if w < ids.len() {
                    assert(ids[w] == id);
                }
            }
        }
        lemma_absent(grown, id);
    }
}

/// In an ascending table, the index that holds an id is its first index.
pub proof fn lemma_index_of(ids: Seq<i64>, i: int)
    requires
        ascending(ids),
        0 <= i < ids.len(),
    ensures
        first_index(ids, ids[i]) == Some(i),
{
    assert(is_first_index(ids, ids[i], i));
    lemma_first_index(ids, ids[i], i);
}

/// Two stores read the records of `s` alike: `t` holds the log of `s` first,
/// a record of `s` is a live add in the one if it is in the other, and a
/// delete of `s` removes in the one what it removes in the other.
pub open spec fn reads_alike(s: StoreModel, t: StoreModel, level: Level, scope: ScopeModel) -> bool {
    &&& s.changes.len() <= t.changes.len()
    &&& forall|i: int| 0 <= i < s.changes.len() ==> #[trigger] t.changes[i] == s.changes[i]
    &&& forall|i: int|
        0 <= i < s.changes.len() ==> is_live_add(t, #[trigger] s.changes[i], level, scope)
            == is_live_add(s, s.changes[i], level, scope)
    &&& forall|i: int, e: i64|
        0 <= i < s.changes.len() ==> #[trigger] del_hits(t, s.changes[i], level, e) == del_hits(
            s,
            s.changes[i],
            level,
            e,
        )
}

/// Over the records of `s`, a node collects in `t` what it collects in `s`.
pub proof fn lemma_gather_node_alike(
    s: StoreModel,
    t: StoreModel,
    acc: Seq<Found>,
    node: i64,
    node_index: usize,
    level: Level,
    scope: ScopeModel,
    k: nat,
)
    requires
        reads_alike(s, t, level, scope),
        k <= s.changes.len(),
    ensures
        gather_node(t, acc, node, node_index, level, scope, k) == gather_node(
            s,
            acc,
            node,
            node_index,
            level,
            scope,
            k,
        ),
    decreases k,
{
    if k > 0 {
        lemma_gather_node_alike(s, t, acc, node, node_index, level, scope, (k - 1) as nat);
        assert(t.changes[k - 1] == s.changes[k - 1]);
        assert(is_live_add(t, s.changes[k - 1], level, scope) == is_live_add(
            s,
            s.changes[k - 1],
            level,
            scope,
        ));
    }
}

/// Records that are no live adds of a node leave what the node collects.
pub proof fn lemma_gather_node_skips(
    t: StoreModel,
    acc: Seq<Found>,
    node: i64,
    node_index: usize,
    level: Level,
    scope: ScopeModel,
    from: nat,
    k: nat,
)
    requires
        from <= k <= t.changes.len(),
        forall|i: int|
            from <= i < k ==> !((#[trigger] t.changes[i]).node_id == node && is_live_add(
                t,
                t.changes[i],
                level,
                scope,
            )),
    ensures
        gather_node(t, acc, node, node_index, level, scope, k) == gather_node(
            t,
            acc,
            node,
            node_index,
            level,
            scope,
            from,
        ),
    decreases k,
{
    if k > from {
        lemma_gather_node_skips(t, acc, node, node_index, level, scope, from, (k - 1) as nat);
        assert(!(t.changes[k - 1].node_id == node && is_live_add(t, t.changes[k - 1], level, scope)));
    }
}

/// Over the records of `s`, a node deletes in `t` what it deletes in `s`.
pub proof fn lemma_deleted_at_alike(
    s: StoreModel,
    t: StoreModel,
    node: i64,
    level: Level,
    scope: ScopeModel,
    e: i64,
    k: nat,
)
    requires
        reads_alike(s, t, level, scope),
        k <= s.changes.len(),
    ensures
        deleted_at_upto(t, node, level, e, k) == deleted_at_upto(s, node, level, e, k),
    decreases k,
{
    if k > 0 {
        lemma_deleted_at_alike(s, t, node, level, scope, e, (k - 1) as nat);
        assert(t.changes[k - 1] == s.changes[k - 1]);
        assert(del_hits(t, s.changes[k - 1], level, e) == del_hits(s, s.changes[k - 1], level, e));
    }
}

/// A record of a node that deletes `e` makes the node delete `e`.
pub proof fn lemma_deleted_at_hit(t: StoreModel, node: i64, level: Level, e: i64, i: int, k: nat)
    requires
        0 <= i < k <= t.changes.len(),
        t.changes[i].node_id == node,
        del_hits(t, t.changes[i], level, e),
    ensures
        deleted_at_upto(t, node, level, e, k),
    decreases k,
{
    if k - 1 > i {
        lemma_deleted_at_hit(t, node, level, e, i, (k - 1) as nat);
    }
}

/// A node that deletes `e` has a record that does.
pub proof fn lemma_deleted_at_witness(t: StoreModel, node: i64, level: Level, e: i64, k: nat) -> (i: int)
    requires
        k <= t.changes.len(),
        deleted_at_upto(t, node, level, e, k),
    ensures
        0 <= i < k,
        t.changes[i].node_id == node,
        del_hits(t, t.changes[i], level, e),
    decreases k,
{
    if t.changes[k - 1].node_id == node && del_hits(t, t.changes[k - 1], level, e) {
        k - 1
    } else {
        lemma_deleted_at_witness(t, node, level, e, (k - 1) as nat)
    }
}

/// A node of the path that deletes `e` makes the path delete `e`.
pub proof fn lemma_deleted_on_hit(t: StoreModel, path: Seq<i64>, level: Level, e: i64, p: int, m: nat)
    requires
        0 <= p < m <= path.len(),
        deleted_at(t, path[p], level, e),
    ensures
        deleted_on_upto(t, path, level, e, m),
    decreases m,
{
    if m - 1 > p {
        lemma_deleted_on_hit(t, path, level, e, p, (m - 1) as nat);
    }
}

/// A path that deletes `e` has a node that does.
pub proof fn lemma_deleted_on_witness(t: StoreModel, path: Seq<i64>, level: Level, e: i64, m: nat) -> (p:
    int)
    requires
        m <= path.len(),
        deleted_on_upto(t, path, level, e, m),
    ensures
        0 <= p < m,
        deleted_at(t, path[p], level, e),
    decreases m,
{
    if deleted_at(t, path[m - 1], level, e) {
        m - 1
    } else {
        lemma_deleted_on_witness(t, path, level, e, (m - 1) as nat)
    }
}

/// No survivor is deleted on the path, and every survivor was collected.
pub proof fn lemma_survivors(s: StoreModel, path: Seq<i64>, level: Level, found: Seq<Found>, k: nat)
    requires
        k <= found.len(),
    ensures
        forall|j: int|
            0 <= j < survivors(s, path, level, found, k).len() ==> !deleted_on(
                s,
                path,
                level,
                (#[trigger] survivors(s, path, level, found, k)[j]).entity,
            ) && found.take(k as int).contains(survivors(s, path, level, found, k)[j]),
        forall|i: int|
            0 <= i < k && !deleted_on(s, path, level, found[i].entity) ==> survivors(
                s,
                path,
                level,
                found,
                k,
            ).contains(#[trigger] found[i]),
    decreases k,
{
    if k > 0 {
        lemma_survivors(s, path, level, found, (k - 1) as nat);
        let before = survivors(s, path, level, found, (k - 1) as nat);
        let now = survivors(s, path, level, found, k);
        assert forall|j: int| 0 <= j < now.len() implies !deleted_on(
            s,
            path,
            level,
            (#[trigger] now[j]).entity,
        ) && found.take(k as int).contains(now[j]) by {
            if j < before.len() {
                assert(now[j] == before[j]);
                let prev = found.take(k - 1);
                assert(prev.contains(before[j]));
                let w = choose|w: int| 0 <= w < prev.len() && prev[w] == before[j];
                assert(found.take(k as int)[w] == before[j]);
            } else {
                assert(now[j] == found[k - 1]);
                assert(found.take(k as int)[k - 1] == found[k - 1]);
            }
        }
        assert forall|i: int|
            0 <= i < k && !deleted_on(s, path, level, found[i].entity) implies now.contains(
            #[trigger] found[i],
        ) by {
            if i < k - 1 {
                assert(before.contains(found[i]));
                let w = choose|w: int| 0 <= w < before.len() && before[w] == found[i];
                assert(now[w] == found[i]);
            } else {
                assert(now[now.len() - 1] == found[i]);
            }
        }
    }
}

/// A store with one more record reads the records that were there as before.
pub proof fn lemma_appended_alike(s: StoreModel, d: ChangeRow, level: Level, scope: ScopeModel)
    requires
        s.wf(),
        d.id == ceiling(change_ids(s)) + 1,
    ensures
        reads_alike(s, s.with_change(d), level, scope),
{
    let t = s.with_change(d);
    assert(change_ids(t) =~= change_ids(s).push(d.id));
    assert forall|i: int| 0 <= i < s.changes.len() implies is_live_add(
        t,
        #[trigger] s.changes[i],
        level,
        scope,
    ) == is_live_add(s, s.changes[i], level, scope) by {
        assert(entity_ids(t, level) == entity_ids(s, level));
    }
    assert forall|i: int, e: i64| 0 <= i < s.changes.len() implies #[trigger] del_hits(
        t,
        s.changes[i],
        level,
        e,
    ) == del_hits(s, s.changes[i], level, e) by {
        let c = s.changes[i];
        assert(s.change_refs_ok(c));
        if c.target is Some {
            let x = c.target->0;
            assert(x <= ceiling(change_ids(s)));
            lemma_first_index_push(change_ids(s), d.id, x);
            if first_index(change_ids(s), x) is Some {
                let k = first_index(change_ids(s), x)->0;
                lemma_held_index(change_ids(s), x);
                assert(t.changes[k] == s.changes[k]);
            }
        }
    }
}

/// The first index of an id lies within the table.
pub proof fn lemma_held_index(ids: Seq<i64>, id: i64)
    requires
        first_index(ids, id) is Some,
    ensures
        is_first_index(ids, id, first_index(ids, id)->0),
{
    let i = choose|i: int| is_first_index(ids, id, i);
    assert(is_first_index(ids, id, i));
}

/// A record that is no add leaves what replay collects.
pub proof fn lemma_gather_after_other(
    s: StoreModel,
    d: ChangeRow,
    path: Seq<i64>,
    level: Level,
    scope: ScopeModel,
    m: nat,
)
    requires
        s.wf(),
        d.id == ceiling(change_ids(s)) + 1,
        d.action != Action::Add,
        m <= path.len(),
    ensures
        gather(s.with_change(d), path, level, scope, m) == gather(s, path, level, scope, m),
    decreases m,
{
    if m > 0 {
        let t = s.with_change(d);
        lemma_gather_after_other(s, d, path, level, scope, (m - 1) as nat);
        lemma_appended_alike(s, d, level, scope);
        let acc = gather(s, path, level, scope, (m - 1) as nat);
        let node = path[m - 1];
        let n = s.changes.len();
        assert(t.changes[n as int] == d);
        lemma_gather_node_skips(t, acc, node, (m - 1) as usize, level, scope, n, (n + 1) as nat);
        lemma_gather_node_alike(s, t, acc, node, (m - 1) as usize, level, scope, n);
    }
}

/// What a node deletes after one more record: what it deleted, and what the
/// new record deletes if it is the node's.
pub proof fn lemma_deleted_at_after(
    s: StoreModel,
    d: ChangeRow,
    node: i64,
    level: Level,
    scope: ScopeModel,
    e: i64,
)
    requires
        s.wf(),
        d.id == ceiling(change_ids(s)) + 1,
    ensures
        deleted_at(s.with_change(d), node, level, e) == (deleted_at(s, node, level, e) || (d.node_id
            == node && del_hits(s.with_change(d), d, level, e))),
{
    let t = s.with_change(d);
    lemma_appended_alike(s, d, level, scope);
    let n = s.changes.len();
    assert(t.changes[n as int] == d);
    lemma_deleted_at_alike(s, t, node, level, scope, e, n);
    assert(deleted_at_upto(t, node, level, e, (n + 1) as nat) == (deleted_at_upto(
        t,
        node,
        level,
        e,
        n,
    ) || (d.node_id == node && del_hits(t, d, level, e))));
}

/// A path that does not hold the node of a new record deletes what it
/// deleted before.
pub proof fn lemma_deleted_on_beside(
    s: StoreModel,
    d: ChangeRow,
    path: Seq<i64>,
    level: Level,
    scope: ScopeModel,
    e: i64,
    m: nat,
)
    requires
        s.wf(),
        d.id == ceiling(change_ids(s)) + 1,
        m <= path.len(),
        forall|p: int| 0 <= p < m ==> path[p] != d.node_id,
    ensures
        deleted_on_upto(s.with_change(d), path, level, e, m) == deleted_on_upto(s, path, level, e, m),
    decreases m,
{
    if m > 0 {
        lemma_deleted_on_beside(s, d, path, level, scope, e, (m - 1) as nat);
        lemma_deleted_at_after(s, d, path[m - 1], level, scope, e);
    }
}

/// Where two stores delete the same of what was collected, the same survive.
pub proof fn lemma_survivors_agree(
    s: StoreModel,
    t: StoreModel,
    path: Seq<i64>,
    level: Level,
    found: Seq<Found>,
    k: nat,
)
    requires
        k <= found.len(),
        forall|i: int|
            0 <= i < k ==> deleted_on(t, path, level, (#[trigger] found[i]).entity) == deleted_on(
                s,
                path,
                level,
                found[i].entity,
            ),
    ensures
        survivors(t, path, level, found, k) == survivors(s, path, level, found, k),
    decreases k,
{
    if k > 0 {
        lemma_survivors_agree(s, t, path, level, found, (k - 1) as nat);
        assert(deleted_on(t, path, level, found[k - 1].entity) == deleted_on(
            s,
            path,
            level,
            found[k - 1].entity,
        ));
    }
}

/// A collected record stands for a live add of the log: the log holds a
/// record of that id, of that node, that adds that entity.
pub open spec fn stands_for(s: StoreModel, level: Level, scope: ScopeModel, f: Found) -> bool {
    exists|i: int|
        0 <= i < s.changes.len() && (#[trigger] s.changes[i]).id == f.change_id && s.changes[i].node_id
            == f.node_id && detail(s.changes[i], level) == Some(f.entity) && is_live_add(
            s,
            s.changes[i],
            level,
            scope,
        )
}

/// What holds of everything collected: each record stands for a live add, and
/// no two add the same entity.
pub open spec fn well_collected(s: StoreModel, level: Level, scope: ScopeModel, found: Seq<Found>) -> bool {
    &&& forall|j: int| 0 <= j < found.len() ==> stands_for(s, level, scope, #[trigger] found[j])
    &&& forall|a: int, b: int|
        0 <= a < b < found.len() ==> (#[trigger] found[a]).entity != (#[trigger] found[b]).entity
}

/// A node collects well on top of what was collected well.
pub proof fn lemma_gather_node_well(
    s: StoreModel,
    acc: Seq<Found>,
    node: i64,
    node_index: usize,
    level: Level,
    scope: ScopeModel,
    k: nat,
)
    requires
        well_collected(s, level, scope, acc),
        k <= s.changes.len(),
    ensures
        well_collected(s, level, scope, gather_node(s, acc, node, node_index, level, scope, k)),
    decreases k,
{
    if k > 0 {
        lemma_gather_node_well(s, acc, node, node_index, level, scope, (k - 1) as nat);
        let before = gather_node(s, acc, node, node_index, level, scope, (k - 1) as nat);
        let now = gather_node(s, acc, node, node_index, level, scope, k);
        let c = s.changes[k - 1];
        if c.node_id == node && is_live_add(s, c, level, scope) {
            let f = Found {
                change_id: c.id,
                entity: detail(c, level)->0,
                node_id: node,
                node_index: node_index,
            };
            if !holds_entity(before, f.entity) {
                assert(now == before.push(f));
                assert(stands_for(s, level, scope, f));
                assert forall|a: int, b: int| 0 <= a < b < now.len() implies (#[trigger] now[a]).entity
                    != (#[trigger] now[b]).entity by {
                    if b == before.len() {
                        assert(before[a].entity != f.entity);
                    } else {
                        assert(before[a].entity != before[b].entity);
                    }
                }
                assert forall|j: int| 0 <= j < now.len() implies stands_for(
                    s,
                    level,
                    scope,
                    #[trigger] now[j],
                ) by {
                    if j < before.len() {
                        assert(now[j] == before[j]);
                    }
                }
            }
        }
    }
}

/// Replay collects well.
pub proof fn lemma_gather_well(s: StoreModel, path: Seq<i64>, level: Level, scope: ScopeModel, m: nat)
    requires
        m <= path.len(),
    ensures
        well_collected(s, level, scope, gather(s, path, level, scope, m)),
    decreases m,
{
    if m > 0 {
        lemma_gather_well(s, path, level, scope, (m - 1) as nat);
        let acc = gather(s, path, level, scope, (m - 1) as nat);
        lemma_gather_node_well(
            s,
            acc,
            path[m - 1],
            (m - 1) as usize,
            level,
            scope,
            s.changes.len(),
        );
    }
}

/// What is collected stays collected while a node's records are read.
pub proof fn lemma_gather_node_keeps(
    s: StoreModel,
    acc: Seq<Found>,
    node: i64,
    node_index: usize,
    level: Level,
    scope: ScopeModel,
    k: nat,
    e: i64,
)
    requires
        holds_entity(acc, e),
    ensures
        holds_entity(gather_node(s, acc, node, node_index, level, scope, k), e),
    decreases k,
{
    if k > 0 {
        lemma_gather_node_keeps(s, acc, node, node_index, level, scope, (k - 1) as nat, e);
        let before = gather_node(s, acc, node, node_index, level, scope, (k - 1) as nat);
        let now = gather_node(s, acc, node, node_index, level, scope, k);
        let x = choose|x: int| 0 <= x < before.len() && (#[trigger] before[x]).entity == e;
        if now != before {
            assert(now[x] == before[x]);
        }
    }
}

/// The entity of a live add of a node is collected when the node's records
/// are read.
pub proof fn lemma_gather_node_takes(
    s: StoreModel,
    acc: Seq<Found>,
    node: i64,
    node_index: usize,
    level: Level,
    scope: ScopeModel,
    k: nat,
    i: int,
)
    requires
        0 <= i < k <= s.changes.len(),
        s.changes[i].node_id == node,
        is_live_add(s, s.changes[i], level, scope),
    ensures
        holds_entity(
            gather_node(s, acc, node, node_index, level, scope, k),
            detail(s.changes[i], level)->0,
        ),
    decreases k,
{
    let e = detail(s.changes[i], level)->0;
    let before = gather_node(s, acc, node, node_index, level, scope, (k - 1) as nat);
    let now = gather_node(s, acc, node, node_index, level, scope, k);
    if i < k - 1 {
        lemma_gather_node_takes(s, acc, node, node_index, level, scope, (k - 1) as nat, i);
        let x = choose|x: int| 0 <= x < before.len() && (#[trigger] before[x]).entity == e;
        if now != before {
            assert(now[x] == before[x]);
        }
    } else if !holds_entity(before, e) {
        assert(now[before.len() as int].entity == e);
    }
}

/// The entity of a live add of a node of the path is collected.
pub proof fn lemma_gather_takes(
    s: StoreModel,
    path: Seq<i64>,
    level: Level,
    scope: ScopeModel,
    m: nat,
    p: int,
    i: int,
)
    requires
        0 <= p < m <= path.len(),
        0 <= i < s.changes.len(),
        s.changes[i].node_id == path[p],
        is_live_add(s, s.changes[i], level, scope),
    ensures
        holds_entity(gather(s, path, level, scope, m), detail(s.changes[i], level)->0),
    decreases m,
{
    let acc = gather(s, path, level, scope, (m - 1) as nat);
    if p < m - 1 {
        lemma_gather_takes(s, path, level, scope, (m - 1) as nat, p, i);
        lemma_gather_node_keeps(
            s,
            acc,
            path[m - 1],
            (m - 1) as usize,
            level,
            scope,
            s.changes.len(),
            detail(s.changes[i], level)->0,
        );
    } else {
        lemma_gather_node_takes(
            s,
            acc,
            path[m - 1],
            (m - 1) as usize,
            level,
            scope,
            s.changes.len(),
            i,
        );
    }
}

/// Whether every collected record was collected at one of the first `m`
/// nodes of the path.
pub open spec fn collected_on(path: Seq<i64>, m: nat, found: Seq<Found>) -> bool {
    forall|j: int|
        0 <= j < found.len() ==> path.take(m as int).contains((#[trigger] found[j]).node_id)
}

/// What a node collects is the node's.
pub proof fn lemma_gather_node_on_path(
    s: StoreModel,
    path: Seq<i64>,
    m: nat,
    acc: Seq<Found>,
    level: Level,
    scope: ScopeModel,
    k: nat,
)
    requires
        0 < m <= path.len(),
        collected_on(path, (m - 1) as nat, acc),
    ensures
        collected_on(
            path,
            m,
            gather_node(s, acc, path[m - 1], (m - 1) as usize, level, scope, k),
        ),
    decreases k,
{
    let now = gather_node(s, acc, path[m - 1], (m - 1) as usize, level, scope, k);
    assert(path.take(m as int)[m - 1] == path[m - 1]);
    if k == 0 {
        assert forall|j: int| 0 <= j < now.len() implies path.take(m as int).contains(
            (#[trigger] now[j]).node_id,
        ) by {
            let shorter = path.take(m - 1);
            assert(shorter.contains(acc[j].node_id));
            let x = choose|x: int| 0 <= x < shorter.len() && shorter[x] == acc[j].node_id;
            assert(path.take(m as int)[x] == acc[j].node_id);
        }
    } else {
        lemma_gather_node_on_path(s, path, m, acc, level, scope, (k - 1) as nat);
        let before = gather_node(s, acc, path[m - 1], (m - 1) as usize, level, scope, (k - 1) as nat);
        assert forall|j: int| 0 <= j < now.len() implies path.take(m as int).contains(
            (#[trigger] now[j]).node_id,
        ) by {
            if j < before.len() {
                assert(now[j] == before[j]);
            }
        }
    }
}

/// What replay collects was collected at a node of the path.
pub proof fn lemma_gather_on_path(s: StoreModel, path: Seq<i64>, level: Level, scope: ScopeModel, m: nat)
    requires
        m <= path.len(),
    ensures
        collected_on(path, m, gather(s, path, level, scope, m)),
    decreases m,
{
    if m > 0 {
        lemma_gather_on_path(s, path, level, scope, (m - 1) as nat);
        lemma_gather_node_on_path(
            s,
            path,
            m,
            gather(s, path, level, scope, (m - 1) as nat),
            level,
            scope,
            s.changes.len(),
        );
    }
}

} // verus!
