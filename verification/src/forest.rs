//! The node tree is a forest: no node is its own ancestor.
//!
//! A store is a forest when its nodes can be ranked so that every parent
//! ranks below its children. Creating a node and rebasing one keep a forest a
//! forest, and in a forest the path of a node ends at the node and holds it
//! nowhere else.

use crate::chain::{injective_below, lemma_pigeonhole};
use crate::frame::{lemma_absent, lemma_held, lemma_held_index, lemma_index_of};
use crate::node::{node_path, parent_of, path_up, reparented};
use crate::store::{ceiling, first_index, lemma_ceiling, node_ids, present, StoreModel};
use crate::types::NodeRow;
use vstd::prelude::*;

verus! {

/// Whether `rank` puts every parent below its children.
pub open spec fn ranked(s: StoreModel, rank: spec_fn(i64) -> nat) -> bool {
    forall|i: int|
        0 <= i < s.nodes.len() && (#[trigger] s.nodes[i]).parent_id is Some ==> rank(
            s.nodes[i].parent_id->0,
        ) < rank(s.nodes[i].id)
}

/// Whether the nodes form a forest.
pub open spec fn is_forest(s: StoreModel) -> bool {
    exists|rank: spec_fn(i64) -> nat| #[trigger] ranked(s, rank)
}

/// A ranking of a forest.
pub open spec fn ranking(s: StoreModel) -> spec_fn(i64) -> nat {
    choose|rank: spec_fn(i64) -> nat| #[trigger] ranked(s, rank)
}

/// The parent of a node ranks below it.
pub proof fn lemma_parent_ranks_below(s: StoreModel, rank: spec_fn(i64) -> nat, id: i64)
    requires
        ranked(s, rank),
        parent_of(s, id) is Some,
    ensures
        rank(parent_of(s, id)->0) < rank(id),
        node_ids(s).contains(id),
{
    lemma_held_index(node_ids(s), id);
    let i = first_index(node_ids(s), id)->0;
    assert(node_ids(s)[i] == id);
    assert(s.nodes[i].id == id);
}

/// Along a path the ranks ascend: every id before the last ranks below it.
pub proof fn lemma_path_ranks(s: StoreModel, rank: spec_fn(i64) -> nat, id: i64, fuel: nat)
    requires
        ranked(s, rank),
    ensures
        path_up(s, id, fuel).len() >= 1,
        path_up(s, id, fuel).last() == id,
        forall|j: int|
            0 <= j < path_up(s, id, fuel).len() - 1 ==> rank(#[trigger] path_up(s, id, fuel)[j])
                < rank(id),
        forall|a: int, b: int|
            0 <= a < b < path_up(s, id, fuel).len() ==> rank(#[trigger] path_up(s, id, fuel)[a])
                < rank(#[trigger] path_up(s, id, fuel)[b]),
    decreases fuel,
{
    if parent_of(s, id) is Some && fuel > 0 {
        let p = parent_of(s, id)->0;
        lemma_parent_ranks_below(s, rank, id);
        lemma_path_ranks(s, rank, p, (fuel - 1) as nat);
        let before = path_up(s, p, (fuel - 1) as nat);
        let path = path_up(s, id, fuel);
        assert(path == before.push(id));
        assert forall|j: int| 0 <= j < path.len() - 1 implies rank(#[trigger] path[j]) < rank(
            id,
        ) by {
            assert(path[j] == before[j]);
            if j < before.len() - 1 {
                assert(rank(before[j]) < rank(p));
            }
        }
        assert forall|a: int, b: int| 0 <= a < b < path.len() implies rank(#[trigger] path[a])
            < rank(#[trigger] path[b]) by {
            assert(path[a] == before[a]);
            if b < before.len() {
                assert(path[b] == before[b]);
                assert(rank(before[a]) < rank(before[b]));
            } else {
                assert(rank(path[a]) < rank(id));
            }
        }
    }
}

/// In a forest the path of a node ends at the node and holds it nowhere else.
pub proof fn lemma_forest_path(s: StoreModel, id: i64)
    requires
        is_forest(s),
    ensures
        node_path(s, id).len() > 0,
        node_path(s, id).last() == id,
        forall|p: int| 0 <= p < node_path(s, id).len() - 1 ==> #[trigger] node_path(s, id)[p] != id,
{
    lemma_path_ranks(s, ranking(s), id, s.nodes.len());
}

/// A path is a walk with enough fuel as soon as the fuel covers its length.
pub proof fn lemma_enough_fuel(s: StoreModel, rank: spec_fn(i64) -> nat, id: i64, fuel: nat)
    requires
        ranked(s, rank),
        fuel + 1 >= path_up(s, id, rank(id)).len(),
    ensures
        path_up(s, id, fuel) == path_up(s, id, rank(id)),
    decreases rank(id),
{
    if parent_of(s, id) is Some {
        let p = parent_of(s, id)->0;
        lemma_parent_ranks_below(s, rank, id);
        lemma_path_ranks(s, rank, p, rank(p));
        lemma_whole_path(s, rank, p, (rank(id) - 1) as nat);
        assert(path_up(s, id, rank(id)) == path_up(s, p, rank(p)).push(id));
        lemma_enough_fuel(s, rank, p, (fuel - 1) as nat);
    }
}

/// With fuel for its rank a walk reaches the root: more fuel changes nothing.
pub proof fn lemma_whole_path(s: StoreModel, rank: spec_fn(i64) -> nat, id: i64, fuel: nat)
    requires
        ranked(s, rank),
        fuel >= rank(id),
    ensures
        path_up(s, id, fuel) == path_up(s, id, rank(id)),
    decreases rank(id),
{
    if parent_of(s, id) is Some {
        let p = parent_of(s, id)->0;
        lemma_parent_ranks_below(s, rank, id);
        lemma_whole_path(s, rank, p, (fuel - 1) as nat);
        lemma_whole_path(s, rank, p, (rank(id) - 1) as nat);
    }
}

/// Every id on the path of a node that exists is a node that exists.
pub proof fn lemma_path_exists(s: StoreModel, id: i64, fuel: nat)
    requires
        s.wf(),
        node_ids(s).contains(id),
    ensures
        forall|j: int|
            0 <= j < path_up(s, id, fuel).len() ==> node_ids(s).contains(
                #[trigger] path_up(s, id, fuel)[j],
            ),
    decreases fuel,
{
    if parent_of(s, id) is Some && fuel > 0 {
        let p = parent_of(s, id)->0;
        lemma_held_index(node_ids(s), id);
        let i = first_index(node_ids(s), id)->0;
        assert(present(s.nodes[i].parent_id, node_ids(s)));
        lemma_path_exists(s, p, (fuel - 1) as nat);
        let before = path_up(s, p, (fuel - 1) as nat);
        let path = path_up(s, id, fuel);
        assert forall|j: int| 0 <= j < path.len() implies node_ids(s).contains(
            #[trigger] path[j],
        ) by {
            if j < before.len() {
                assert(path[j] == before[j]);
            }
        }
    }
}

/// In a forest the walk from a node reaches the root within as many steps as
/// there are nodes.
pub proof fn lemma_path_is_whole(s: StoreModel, rank: spec_fn(i64) -> nat, id: i64)
    requires
        s.wf(),
        ranked(s, rank),
    ensures
        node_path(s, id) == path_up(s, id, rank(id)),
{
    let whole = path_up(s, id, rank(id));
    lemma_path_ranks(s, rank, id, rank(id));
    if node_ids(s).contains(id) {
        lemma_path_exists(s, id, rank(id));
        let at = Seq::new(whole.len(), |j: int| first_index(node_ids(s), whole[j])->0);
        assert(injective_below(at, s.nodes.len() as int)) by {
            assert forall|j: int| 0 <= j < at.len() implies 0 <= #[trigger] at[j] && at[j]
                < s.nodes.len() by {
                assert(node_ids(s).contains(whole[j]));
                lemma_held(node_ids(s), whole[j]);
            }
            assert forall|a: int, b: int| 0 <= a < b < at.len() implies #[trigger] at[a]
                != #[trigger] at[b] by {
                assert(node_ids(s).contains(whole[a]));
                assert(node_ids(s).contains(whole[b]));
                lemma_held(node_ids(s), whole[a]);
                lemma_held(node_ids(s), whole[b]);
                assert(rank(whole[a]) < rank(whole[b]));
            }
        }
        lemma_pigeonhole(at, s.nodes.len() as int);
        lemma_enough_fuel(s, rank, id, s.nodes.len());
    } else {
        lemma_absent(node_ids(s), id);
    }
}

/// A forest with one more node, whose id is new and whose parent exists, is
/// a forest.
pub proof fn lemma_forest_grows(s: StoreModel, row: NodeRow)
    requires
        s.wf(),
        is_forest(s),
        row.id == ceiling(node_ids(s)) + 1,
        present(row.parent_id, node_ids(s)),
    ensures
        is_forest(s.with_node(row)),
{
    let rank = ranking(s);
    let t = s.with_node(row);
    let top: nat = match row.parent_id {
        Some(p) => rank(p) + 1,
        None => 0,
    };
    let rank2 = |x: i64|
        if x == row.id {
            top
        } else {
            rank(x)
        };
    assert forall|i: int| 0 <= i < t.nodes.len() && (#[trigger] t.nodes[i]).parent_id is Some implies rank2(
        t.nodes[i].parent_id->0,
    ) < rank2(t.nodes[i].id) by {
        if i < s.nodes.len() {
            assert(t.nodes[i] == s.nodes[i]);
            assert(present(s.nodes[i].parent_id, node_ids(s)));
            let p = s.nodes[i].parent_id->0;
            let v = choose|v: int| 0 <= v < node_ids(s).len() && node_ids(s)[v] == p;
            lemma_ceiling(node_ids(s), v);
            assert(node_ids(s)[i] == s.nodes[i].id);
            lemma_ceiling(node_ids(s), i);
        } else {
            let p = row.parent_id->0;
            let v = choose|v: int| 0 <= v < node_ids(s).len() && node_ids(s)[v] == p;
            lemma_ceiling(node_ids(s), v);
        }
    }
    assert(ranked(t, rank2));
}

/// A forest in which nodes keep their ids and their parents is a forest.
pub proof fn lemma_forest_kept(s: StoreModel, t: StoreModel)
    requires
        is_forest(s),
        t.nodes.len() == s.nodes.len(),
        forall|i: int|
            0 <= i < s.nodes.len() ==> (#[trigger] t.nodes[i]).id == s.nodes[i].id && t.nodes[i].parent_id
                == s.nodes[i].parent_id,
    ensures
        is_forest(t),
{
    let rank = ranking(s);
    assert forall|i: int| 0 <= i < t.nodes.len() && (#[trigger] t.nodes[i]).parent_id is Some implies rank(
        t.nodes[i].parent_id->0,
    ) < rank(t.nodes[i].id) by {
        assert(s.nodes[i].parent_id is Some);
    }
    assert(ranked(t, rank));
}

/// A forest without one of its nodes is a forest.
pub proof fn lemma_forest_shrinks(s: StoreModel, at: int)
    requires
        is_forest(s),
        0 <= at < s.nodes.len(),
    ensures
        is_forest(StoreModel { nodes: s.nodes.remove(at), ..s }),
{
    let rank = ranking(s);
    let t = StoreModel { nodes: s.nodes.remove(at), ..s };
    assert forall|i: int| 0 <= i < t.nodes.len() && (#[trigger] t.nodes[i]).parent_id is Some implies rank(
        t.nodes[i].parent_id->0,
    ) < rank(t.nodes[i].id) by {
        let a = if i < at {
            i
        } else {
            i + 1
        };
        assert(t.nodes[i] == s.nodes[a]);
    }
    assert(ranked(t, rank));
}

/// Whether the node lies on the whole path of `x`.
pub open spec fn below(s: StoreModel, rank: spec_fn(i64) -> nat, node: i64, x: i64) -> bool {
    path_up(s, x, rank(x)).contains(node)
}

/// A node other than `node` lies below `node` exactly if its parent does.
pub proof fn lemma_below_parent(s: StoreModel, rank: spec_fn(i64) -> nat, node: i64, x: i64)
    requires
        ranked(s, rank),
        parent_of(s, x) is Some,
        x != node,
    ensures
        below(s, rank, node, x) == below(s, rank, node, parent_of(s, x)->0),
{
    let p = parent_of(s, x)->0;
    lemma_parent_ranks_below(s, rank, x);
    lemma_whole_path(s, rank, p, (rank(x) - 1) as nat);
    let up = path_up(s, p, rank(p));
    let path = path_up(s, x, rank(x));
    assert(path == up.push(x));
    if up.contains(node) {
        let j = choose|j: int| 0 <= j < up.len() && up[j] == node;
        assert(path[j] == node);
    }
    if path.contains(node) {
        let j = choose|j: int| 0 <= j < path.len() && path[j] == node;
        assert(up[j] == node);
    }
}

/// A forest in which a node moves under a node on whose path it does not
/// lie, or becomes a root, is a forest.
pub proof fn lemma_forest_rebased(s: StoreModel, node: i64, new_parent: Option<i64>)
    requires
        s.wf(),
        is_forest(s),
        new_parent is Some ==> !node_path(s, new_parent->0).contains(node),
    ensures
        is_forest(reparented(s, node, new_parent)),
{
    let rank = ranking(s);
    let t = reparented(s, node, new_parent);
    if first_index(node_ids(s), node) is Some {
        lemma_held_index(node_ids(s), node);
        let at = first_index(node_ids(s), node)->0;
        assert(s.nodes[at].id == node);
        let lift: nat = match new_parent {
            Some(p) => rank(p) + 1,
            None => 0,
        };
        let rank2 = |x: i64|
            if below(s, rank, node, x) {
                rank(x) + lift
            } else {
                rank(x)
            };
        assert forall|i: int|
            0 <= i < t.nodes.len() && (#[trigger] t.nodes[i]).parent_id is Some implies rank2(
            t.nodes[i].parent_id->0,
        ) < rank2(t.nodes[i].id) by {
            let x = t.nodes[i].id;
            assert(s.nodes[i].id == x);
            assert(node_ids(s)[i] == x);
            lemma_index_of(node_ids(s), i);
            if i == at {
                let p = new_parent->0;
                lemma_path_is_whole(s, rank, p);
                lemma_path_ranks(s, rank, node, rank(node));
                let own = path_up(s, node, rank(node));
                assert(own[own.len() - 1] == node);
                assert(below(s, rank, node, node));
            } else {
                assert(t.nodes[i] == s.nodes[i]);
                assert(x != node) by {
                    if x == node {
                        assert(node_ids(s)[at] == node);
                        lemma_index_of(node_ids(s), at);
                    }
                }
                assert(parent_of(s, x) == s.nodes[i].parent_id);
                lemma_below_parent(s, rank, node, x);
            }
        }
        assert(ranked(t, rank2));
    }
}

} // verus!
