//! Level replay: which entities of one level are live at the end of a path.
//!
//! The records of the nodes of a path are read node by node, from the root
//! down, and within a node in the order of the log. An add record counts when
//! its entity exists and its scope matches; the first add seen for an entity
//! stands for it. A delete record anywhere on the path removes the entity of
//! the add record that it names.

use crate::store::{holds_id, block_ids, change_ids, detail, entity_ids, first_index, Store, StoreModel};
use crate::text::text_eq;
use crate::types::{Action, ChangeRow, Level};
use vstd::prelude::*;

verus! {

/// Which add records of a level a replay keeps.
pub enum Scope<'a> {
    /// Every add record of the level.
    Any,
    /// Those whose scope is this change record.
    Under(i64),
    /// Those whose scope is this change record; for 0, also those without a scope.
    UnderOrTop(i64),
    /// Blocks without a scope that lie in this zone.
    Zone(&'a str),
}

pub enum ScopeModel {
    Any,
    Under(i64),
    UnderOrTop(i64),
    Zone(Seq<char>),
}

impl<'a> View for Scope<'a> {
    type V = ScopeModel;

    open spec fn view(&self) -> ScopeModel {
        match *self {
            Scope::Any => ScopeModel::Any,
            Scope::Under(id) => ScopeModel::Under(id),
            Scope::UnderOrTop(id) => ScopeModel::UnderOrTop(id),
            Scope::Zone(z) => ScopeModel::Zone(z@),
        }
    }
}

/// A collected add record: the entity it adds, the record's id, the node that
/// owns it and that node's index in the path.
#[derive(Debug, Clone, Copy, PartialEq, Eq)]
pub struct Found {
    pub change_id: i64,
    pub entity: i64,
    pub node_id: i64,
    pub node_index: usize,
}

/// The zone of the block with this id.
pub open spec fn zone_of(s: StoreModel, block: i64) -> Seq<char> {
    s.blocks[first_index(block_ids(s), block)->0].zone
}

/// Whether an add record of entity `e` falls under a scope.
pub open spec fn in_scope(s: StoreModel, c: ChangeRow, e: i64, scope: ScopeModel) -> bool {
    match scope {
        ScopeModel::Any => true,
        ScopeModel::Under(id) => c.target == Some(id),
        ScopeModel::UnderOrTop(id) => c.target == Some(id) || (c.target is None && id == 0),
        ScopeModel::Zone(z) => c.target is None && block_ids(s).contains(e) && zone_of(s, e) == z,
    }
}

/// Whether `c` adds, at this level and under this scope, an entity that exists.
pub open spec fn is_live_add(s: StoreModel, c: ChangeRow, level: Level, scope: ScopeModel) -> bool {
    &&& c.action == Action::Add
    &&& c.level == level
    &&& detail(c, level) is Some
    &&& entity_ids(s, level).contains(detail(c, level)->0)
    &&& in_scope(s, c, detail(c, level)->0, scope)
}

/// Whether some collected record adds entity `e`.
pub open spec fn holds_entity(acc: Seq<Found>, e: i64) -> bool {
    exists|i: int| 0 <= i < acc.len() && (#[trigger] acc[i]).entity == e
}

/// Adds are insert-if-absent: a later add of a collected entity changes nothing.
pub open spec fn absorb(acc: Seq<Found>, f: Found) -> Seq<Found> {
    if holds_entity(acc, f.entity) {
        acc
    } else {
        acc.push(f)
    }
}

/// `acc` after the first `k` records of the log, of which those of `node`
/// that are live adds are absorbed.
pub open spec fn gather_node(
    s: StoreModel,
    acc: Seq<Found>,
    node: i64,
    node_index: usize,
    level: Level,
    scope: ScopeModel,
    k: nat,
) -> Seq<Found>
    decreases k,
{
    if k == 0 {
        acc
    } else {
        let before = gather_node(s, acc, node, node_index, level, scope, (k - 1) as nat);
        let c = s.changes[k - 1];
        if c.node_id == node && is_live_add(s, c, level, scope) {
            absorb(
                before,
                Found {
                    change_id: c.id,
                    entity: detail(c, level)->0,
                    node_id: node,
                    node_index: node_index,
                },
            )
        } else {
            before
        }
    }
}

/// The adds collected from the first `m` nodes of the path.
pub open spec fn gather(s: StoreModel, path: Seq<i64>, level: Level, scope: ScopeModel, m: nat) -> Seq<
    Found,
>
    decreases m,
{
    if m == 0 {
        Seq::<Found>::empty()
    } else {
        gather_node(
            s,
            gather(s, path, level, scope, (m - 1) as nat),
            path[m - 1],
            (m - 1) as usize,
            level,
            scope,
            s.changes.len(),
        )
    }
}

/// Whether `d` is a delete record of this level whose target adds entity `e`.
pub open spec fn del_hits(s: StoreModel, d: ChangeRow, level: Level, e: i64) -> bool {
    &&& d.action == Action::Del
    &&& d.level == level
    &&& d.target is Some
    &&& first_index(change_ids(s), d.target->0) is Some
    &&& detail(s.changes[first_index(change_ids(s), d.target->0)->0], level) == Some(e)
}

/// Whether one of the first `k` records of the log is a delete of `node` that
/// removes entity `e`.
pub open spec fn deleted_at_upto(s: StoreModel, node: i64, level: Level, e: i64, k: nat) -> bool
    decreases k,
{
    k > 0 && (deleted_at_upto(s, node, level, e, (k - 1) as nat) || (s.changes[k - 1].node_id
        == node && del_hits(s, s.changes[k - 1], level, e)))
}

/// Whether `node` recorded a delete that removes entity `e`.
pub open spec fn deleted_at(s: StoreModel, node: i64, level: Level, e: i64) -> bool {
    deleted_at_upto(s, node, level, e, s.changes.len())
}

/// Whether one of the first `m` nodes of the path recorded a delete that
/// removes entity `e`.
pub open spec fn deleted_on_upto(s: StoreModel, path: Seq<i64>, level: Level, e: i64, m: nat) -> bool
    decreases m,
{
    m > 0 && (deleted_on_upto(s, path, level, e, (m - 1) as nat) || deleted_at(
        s,
        path[m - 1],
        level,
        e,
    ))
}

/// Whether a node of the path recorded a delete that removes entity `e`.
pub open spec fn deleted_on(s: StoreModel, path: Seq<i64>, level: Level, e: i64) -> bool {
    deleted_on_upto(s, path, level, e, path.len())
}

/// Those of the first `k` collected records whose entity no delete removes.
pub open spec fn survivors(
    s: StoreModel,
    path: Seq<i64>,
    level: Level,
    found: Seq<Found>,
    k: nat,
) -> Seq<Found>
    decreases k,
{
    if k == 0 {
        Seq::<Found>::empty()
    } else {
        let before = survivors(s, path, level, found, (k - 1) as nat);
        if deleted_on(s, path, level, found[k - 1].entity) {
            before
        } else {
            before.push(found[k - 1])
        }
    }
}

/// The live entities of a level under a scope at the end of a path, in the
/// order in which their add records were collected.
pub open spec fn live(s: StoreModel, path: Seq<i64>, level: Level, scope: ScopeModel) -> Seq<Found> {
    let found = gather(s, path, level, scope, path.len());
    survivors(s, path, level, found, found.len())
}

/// Every collected record is a record of the log and adds an entity that exists.
pub open spec fn entries_exist(s: StoreModel, level: Level, found: Seq<Found>) -> bool {
    forall|j: int|
        0 <= j < found.len() ==> entity_ids(s, level).contains((#[trigger] found[j]).entity)
            && change_ids(s).contains(found[j].change_id)
}

/// The entity that `c` refers to at `level`.
pub fn detail_of(c: &ChangeRow, level: Level) -> (r: Option<i64>)
    ensures
        r == detail(*c, level),
{
    match level {
        Level::Folder => c.detail_folder,
        Level::Card => c.detail_card,
        Level::Block => c.detail_block,
        Level::Line => c.detail_line,
        Level::Unknown => None,
    }
}

/// The index of the entity `e` in the table of `level`.
pub fn find_entity(store: &Store, level: Level, e: i64) -> (r: Option<usize>)
    ensures
        crate::store::located(r, entity_ids(store@, level), e),
{
    match level {
        Level::Folder => store.find_folder(e),
        Level::Card => store.find_card(e),
        Level::Block => store.find_block(e),
        Level::Line => store.find_line(e),
        Level::Unknown => {
            proof {
                crate::store::lemma_no_index(Seq::<i64>::empty(), e);
            }
            None
        },
    }
}

/// The entity that `c` adds, if `c` is a live add of this level and scope.
pub fn live_add_entity(store: &Store, c: &ChangeRow, level: Level, scope: &Scope) -> (r: Option<i64>)
    ensures
        match r {
            Some(e) => is_live_add(store@, *c, level, scope@) && detail(*c, level) == Some(e),
            None => !is_live_add(store@, *c, level, scope@),
        },
{
    if c.action != Action::Add || c.level != level {
        return None;
    }
    let e = match detail_of(c, level) {
        Some(e) => e,
        None => {
            return None;
        },
    };
    let k = match find_entity(store, level, e) {
        Some(k) => k,
        None => {
            return None;
        },
    };
    let ok = match scope {
        Scope::Any => true,
        Scope::Under(id) => match c.target {
            Some(t) => t == *id,
            None => false,
        },
        Scope::UnderOrTop(id) => match c.target {
            Some(t) => t == *id,
            None => *id == 0,
        },
        Scope::Zone(z) => match c.target {
            Some(_) => false,
            None => match store.find_block(e) {
                Some(b) => text_eq(store.blocks[b].zone.as_str(), z),
                None => false,
            },
        },
    };
    if ok {
        Some(e)
    } else {
        None
    }
}

fn holds(acc: &Vec<Found>, e: i64) -> (r: bool)
    ensures
        r == holds_entity(acc@, e),
{
    let mut i: usize = 0;
    while i < acc.len()
        invariant
            i <= acc.len(),
            forall|j: int| 0 <= j < i ==> (#[trigger] acc@[j]).entity != e,
        decreases acc.len() - i,
    {
        if acc[i].entity == e {
            return true;
        }
        i += 1;
    }
    false
}

/// Collects the live adds of a level and scope along a path.
pub fn gather_entries(store: &Store, path: &Vec<i64>, level: Level, scope: &Scope) -> (acc: Vec<Found>)
    ensures
        acc@ == gather(store@, path@, level, scope@, path@.len()),
        entries_exist(store@, level, acc@),
{
    let mut acc: Vec<Found> = Vec::new();
    let mut p: usize = 0;
    while p < path.len()
        invariant
            p <= path.len(),
            acc@ == gather(store@, path@, level, scope@, p as nat),
            entries_exist(store@, level, acc@),
        decreases path.len() - p,
    {
        let node = path[p];
        let ghost start = acc@;
        let mut i: usize = 0;
        while i < store.changes.len()
            invariant
                i <= store.changes.len(),
                p < path.len(),
                node == path@[p as int],
                start == gather(store@, path@, level, scope@, p as nat),
                acc@ == gather_node(store@, start, node, p, level, scope@, i as nat),
                entries_exist(store@, level, acc@),
            decreases store.changes.len() - i,
        {
            let c = &store.changes[i];
            assert(change_ids(store@)[i as int] == c.id);
            if c.node_id == node {
                match live_add_entity(store, c, level, scope) {
                    Some(e) => {
                        if !holds(&acc, e) {
                            acc.push(
                                Found { change_id: c.id, entity: e, node_id: node, node_index: p },
                            );
                        }
                    },
                    None => {},
                }
            }
            i += 1;
        }
        p += 1;
    }
    acc
}

/// The entity that the record `d` of `node` deletes at a level, if it is a
/// delete record of the node and of the level whose target adds one.
pub open spec fn removed_by(s: StoreModel, d: ChangeRow, node: i64, level: Level) -> Option<i64> {
    if d.node_id == node && d.action == Action::Del && d.level == level && d.target is Some
        && first_index(change_ids(s), d.target->0) is Some {
        detail(s.changes[first_index(change_ids(s), d.target->0)->0], level)
    } else {
        None
    }
}

/// `acc` and then what the first `k` records of the log delete at `node`,
/// in the order of the log.
pub open spec fn removed_at(s: StoreModel, acc: Seq<i64>, node: i64, level: Level, k: nat) -> Seq<i64>
    decreases k,
{
    if k == 0 {
        acc
    } else {
        let before = removed_at(s, acc, node, level, (k - 1) as nat);
        match removed_by(s, s.changes[k - 1], node, level) {
            Some(e) => before.push(e),
            None => before,
        }
    }
}

/// What the first `m` nodes of the path delete, node by node.
pub open spec fn removed_on(s: StoreModel, path: Seq<i64>, level: Level, m: nat) -> Seq<i64>
    decreases m,
{
    if m == 0 {
        Seq::<i64>::empty()
    } else {
        removed_at(s, removed_on(s, path, level, (m - 1) as nat), path[m - 1], level, s.changes.len())
    }
}

/// The entities that the delete records of a path remove at a level: one for
/// each delete record that removes one, node by node along the path and in
/// the order of the log. They are the entities that the path deletes.
pub fn deleted_entities(store: &Store, path: &Vec<i64>, level: Level) -> (out: Vec<i64>)
    ensures
        out@ == removed_on(store@, path@, level, path@.len()),
        forall|e: i64| out@.contains(e) <==> deleted_on(store@, path@, level, e),
{
    let mut out: Vec<i64> = Vec::new();
    let mut p: usize = 0;
    while p < path.len()
        invariant
            p <= path.len(),
            out@ == removed_on(store@, path@, level, p as nat),
            forall|e: i64| out@.contains(e) <==> deleted_on_upto(store@, path@, level, e, p as nat),
        decreases path.len() - p,
    {
        let node = path[p];
        let ghost start = out@;
        let mut i: usize = 0;
        while i < store.changes.len()
            invariant
                i <= store.changes.len(),
                p < path.len(),
                node == path@[p as int],
                start == removed_on(store@, path@, level, p as nat),
                out@ == removed_at(store@, start, node, level, i as nat),
                forall|e: i64|
                    out@.contains(e) <==> (deleted_on_upto(store@, path@, level, e, p as nat)
                        || deleted_at_upto(store@, node, level, e, i as nat)),
            decreases store.changes.len() - i,
        {
            let d = &store.changes[i];
            let ghost before = out@;
            let mut hit: Option<i64> = None;
            if d.node_id == node && d.action == Action::Del && d.level == level {
                if let Some(t) = d.target {
                    if let Some(k) = store.find_change(t) {
                        hit = detail_of(&store.changes[k], level);
                    }
                }
            }
            assert(hit == removed_by(store@, store@.changes[i as int], node, level));
            assert(forall|e: i64|
                (d.node_id == node && del_hits(store@, *d, level, e)) <==> hit == Some(e));
            if let Some(e0) = hit {
                out.push(e0);
                assert(forall|e: i64| out@.contains(e) <==> (before.contains(e) || e == e0)) by {
                    assert(out@.last() == e0);
                    assert(forall|j: int| 0 <= j < before.len() ==> out@[j] == before[j]);
                }
            }
            assert forall|e: i64|
                out@.contains(e) <==> (deleted_on_upto(store@, path@, level, e, p as nat)
                    || deleted_at_upto(store@, node, level, e, (i + 1) as nat)) by {
                assert(deleted_at_upto(store@, node, level, e, (i + 1) as nat) == (deleted_at_upto(
                    store@,
                    node,
                    level,
                    e,
                    i as nat,
                ) || (store@.changes[i as int].node_id == node && del_hits(
                    store@,
                    store@.changes[i as int],
                    level,
                    e,
                ))));
                assert(before.contains(e) <==> (deleted_on_upto(store@, path@, level, e, p as nat)
                    || deleted_at_upto(store@, node, level, e, i as nat)));
            }
            i += 1;
        }
        p += 1;
    }
    out
}

/// The live entities of a level under a scope at the end of a path.
pub fn live_entries(store: &Store, path: &Vec<i64>, level: Level, scope: &Scope) -> (out: Vec<Found>)
    ensures
        out@ == live(store@, path@, level, scope@),
        entries_exist(store@, level, out@),
{
    let found = gather_entries(store, path, level, scope);
    let gone = deleted_entities(store, path, level);
    let mut out: Vec<Found> = Vec::new();
    let mut k: usize = 0;
    while k < found.len()
        invariant
            k <= found.len(),
            forall|e: i64| gone@.contains(e) <==> deleted_on(store@, path@, level, e),
            out@ == survivors(store@, path@, level, found@, k as nat),
            entries_exist(store@, level, found@),
            entries_exist(store@, level, out@),
        decreases found.len() - k,
    {
        if !holds_id(&gone, found[k].entity) {
            out.push(found[k]);
        }
        k += 1;
    }
    out
}

} // verus!
