//! The node tree: a forest of branch points held by parent pointers.

use crate::store::{
    holds_id,
    ceiling, first_index, lemma_ceiling_kept, located, node_ids, present, project_ids, Store,
    StoreModel,
};
use crate::forest::{
    is_forest, lemma_forest_grows, lemma_forest_kept, lemma_forest_rebased, lemma_forest_shrinks,
};
use crate::serial::{fresh_serial, generate_serial};
use crate::text::text_eq;
use crate::types::{EngineError, NodeDetail, NodeDetailFolder, NodeRow, WTNode};
use vstd::prelude::*;

verus! {

/// The parent of a node: `None` for a root and for an id that names no node.
pub open spec fn parent_of(s: StoreModel, id: i64) -> Option<i64> {
    match first_index(node_ids(s), id) {
        Some(i) => s.nodes[i].parent_id,
        None => None,
    }
}

/// The ids from an ancestor down to `id`, following at most `fuel` parent links.
pub open spec fn path_up(s: StoreModel, id: i64, fuel: nat) -> Seq<i64>
    decreases fuel,
{
    match parent_of(s, id) {
        Some(p) => if fuel > 0 {
            path_up(s, p, (fuel - 1) as nat).push(id)
        } else {
            seq![id]
        },
        None => seq![id],
    }
}

/// The path of a node, root first. The walk follows at most as many parent
/// links as there are nodes, which in a forest reaches the root.
pub open spec fn node_path(s: StoreModel, id: i64) -> Seq<i64> {
    path_up(s, id, s.nodes.len())
}

/// The ids of the children of `node` among the first `k` nodes.
pub open spec fn kids(s: StoreModel, node: i64, k: nat) -> Seq<i64>
    decreases k,
{
    if k == 0 {
        Seq::<i64>::empty()
    } else {
        let before = kids(s, node, (k - 1) as nat);
        if s.nodes[k - 1].parent_id == Some(node) {
            before.push(s.nodes[k - 1].id)
        } else {
            before
        }
    }
}

/// The ids of the direct children of `node`.
pub open spec fn children(s: StoreModel, node: i64) -> Seq<i64> {
    kids(s, node, s.nodes.len())
}

/// The parent of the node `id`, if it has one.
pub fn parent_id_of(store: &Store, id: i64) -> (r: Option<i64>)
    ensures
        r == parent_of(store@, id),
{
    match store.find_node(id) {
        Some(i) => store.nodes[i].parent_id,
        None => None,
    }
}

/// The path of a node, root first and the node last. `NotFound` where there
/// is no such node.
pub fn get_node_path(store: &Store, node_id: i64) -> (r: Result<Vec<i64>, EngineError>)
    ensures
        match first_index(node_ids(store@), node_id) {
            Some(_) => r is Ok && r->Ok_0@ == node_path(store@, node_id),
            None => r == Err::<Vec<i64>, EngineError>(EngineError::NotFound),
        },
{
    match store.find_node(node_id) {
        Some(_) => Ok(walk_up(store, node_id)),
        None => Err(EngineError::NotFound),
    }
}

/// The walk from an id to the root, whether or not the id names a node.
pub(crate) fn walk_up(store: &Store, node_id: i64) -> (path: Vec<i64>)
    ensures
        path@ == node_path(store@, node_id),
{
    let mut path: Vec<i64> = Vec::new();
    let mut current = node_id;
    let mut fuel: usize = store.nodes.len();
    loop
        invariant_except_break
            node_path(store@, node_id) == path_up(store@, current, fuel as nat) + path@,
        ensures
            path@ == node_path(store@, node_id),
        decreases fuel,
    {
        path.insert(0, current);
        let parent = parent_id_of(store, current);
        match parent {
            Some(p) => {
                if fuel > 0 {
                    assert(path_up(store@, current, fuel as nat) == path_up(
                        store@,
                        p,
                        (fuel - 1) as nat,
                    ).push(current));
                    assert(path_up(store@, p, (fuel - 1) as nat).push(current) + path@.drop_first()
                        =~= path_up(store@, p, (fuel - 1) as nat) + path@);
                    current = p;
                    fuel -= 1;
                } else {
                    assert(seq![current] + path@.drop_first() =~= path@);
                    break ;
                }
            },
            None => {
                assert(seq![current] + path@.drop_first() =~= path@);
                break ;
            },
        }
    }
    path
}

/// The ids of the direct children of `node`.
pub fn child_nodes(store: &Store, node: i64) -> (out: Vec<i64>)
    ensures
        out@ == children(store@, node),
{
    let mut out: Vec<i64> = Vec::new();
    let mut k: usize = 0;
    while k < store.nodes.len()
        invariant
            k <= store.nodes.len(),
            out@ == kids(store@, node, k as nat),
        decreases store.nodes.len() - k,
    {
        match store.nodes[k].parent_id {
            Some(p) => {
                if p == node {
                    out.push(store.nodes[k].id);
                }
            },
            None => {},
        }
        k += 1;
    }
    out
}

/// The store in which the node `id` has the parent `parent`.
pub open spec fn reparented(s: StoreModel, id: i64, parent: Option<i64>) -> StoreModel {
    match first_index(node_ids(s), id) {
        Some(i) => StoreModel {
            nodes: s.nodes.update(i, NodeRow { parent_id: parent, ..s.nodes[i] }),
            ..s
        },
        None => s,
    }
}

/// Why a rebase is refused, if it is: the node or the new parent does not
/// exist, or the node lies on the path of the new parent, so that the new
/// parent is the node itself or one of its descendants.
pub open spec fn rebase_error(s: StoreModel, node: i64, new_parent: Option<i64>) -> Option<EngineError> {
    if !node_ids(s).contains(node) || (new_parent is Some && !node_ids(s).contains(new_parent->0)) {
        Some(EngineError::NotFound)
    } else if new_parent is Some && node_path(s, new_parent->0).contains(node) {
        Some(EngineError::InvalidOperation)
    } else {
        None
    }
}

/// Moves a node under a new parent, or makes it a root. A move that would
/// close a cycle is refused, and the tree is left as it was. The change
/// records of the moved subtree stay with their nodes.
pub fn rebase_node(store: &mut Store, node_id: i64, new_parent_id: Option<i64>) -> (r: Result<
    (),
    EngineError,
>)
    requires
        old(store)@.wf(),
    ensures
        final(store)@.wf(),
        match rebase_error(old(store)@, node_id, new_parent_id) {
            Some(e) => r == Err::<(), EngineError>(e) && final(store)@ == old(store)@,
            None => r is Ok && final(store)@ == reparented(old(store)@, node_id, new_parent_id),
        },
        is_forest(old(store)@) ==> is_forest(final(store)@),
{
    let at = match store.find_node(node_id) {
        Some(i) => i,
        None => {
            return Err(EngineError::NotFound);
        },
    };
    match new_parent_id {
        Some(p) => {
            if store.find_node(p).is_none() {
                return Err(EngineError::NotFound);
            }
            let path = walk_up(store, p);
            if holds_id(&path, node_id) {
                return Err(EngineError::InvalidOperation);
            }
        },
        None => {},
    }
    store.nodes[at].parent_id = new_parent_id;
    proof {
        let s = old(store)@;
        let t = store@;
        assert(t.nodes =~= s.nodes.update(
            at as int,
            NodeRow { parent_id: new_parent_id, ..s.nodes[at as int] },
        ));
        assert(t =~= reparented(s, node_id, new_parent_id));
        lemma_node_touched(s, t, at as int);
        if is_forest(s) {
            lemma_forest_rebased(s, node_id, new_parent_id);
        }
    }
    Ok(())
}

/// A store stays well formed when one node changes and keeps its id, and its
/// parent exists.
pub proof fn lemma_node_touched(s: StoreModel, t: StoreModel, at: int)
    requires
        s.wf(),
        0 <= at < s.nodes.len(),
        t.nodes.len() == s.nodes.len(),
        forall|i: int| 0 <= i < s.nodes.len() && i != at ==> #[trigger] t.nodes[i] == s.nodes[i],
        t.nodes[at].id == s.nodes[at].id,
        present(t.nodes[at].parent_id, node_ids(s)),
        t.projects == s.projects,
        t.changes == s.changes,
        t.folders == s.folders,
        t.cards == s.cards,
        t.blocks == s.blocks,
        t.lines == s.lines,
    ensures
        t.wf(),
        node_ids(t) == node_ids(s),
{
    assert(node_ids(t) =~= node_ids(s));
    lemma_ceiling_kept(s, t);
    assert forall|i: int| 0 <= i < t.nodes.len() implies present(
        (#[trigger] t.nodes[i]).parent_id,
        node_ids(t),
    ) by {
        if i != at {
            assert(present(s.nodes[i].parent_id, node_ids(s)));
        }
    }
    assert forall|i: int| 0 <= i < t.changes.len() implies t.change_refs_ok(
        #[trigger] t.changes[i],
    ) by {
        assert(s.change_refs_ok(s.changes[i]));
    }
    assert forall|i: int| 0 <= i < t.lines.len() implies crate::store::within(
        (#[trigger] t.lines[i]).position,
        crate::store::line_ids(t),
    ) by {
        assert(crate::store::within(s.lines[i].position, crate::store::line_ids(s)));
    }
}

/// The first of the first `k` projects that has this name.
pub open spec fn project_named(s: StoreModel, name: Seq<char>, k: nat) -> Option<int>
    decreases k,
{
    if k == 0 {
        None
    } else {
        match project_named(s, name, (k - 1) as nat) {
            Some(i) => Some(i),
            None => if s.projects[k - 1].name == name {
                Some(k - 1)
            } else {
                None
            },
        }
    }
}

/// Once found, the first project of a name stays the answer.
pub proof fn lemma_project_named_stays(s: StoreModel, name: Seq<char>, k: nat, n: nat)
    requires
        k <= n,
        project_named(s, name, k) is Some,
    ensures
        project_named(s, name, n) == project_named(s, name, k),
    decreases n - k,
{
    if k < n {
        lemma_project_named_stays(s, name, k, (n - 1) as nat);
    }
}

/// The index of the first project with this name.
pub fn find_project_named(store: &Store, name: &str) -> (r: Option<usize>)
    ensures
        match r {
            Some(i) => i < store.projects.len() && project_named(
                store@,
                name@,
                store@.projects.len(),
            ) == Some(i as int),
            None => project_named(store@, name@, store@.projects.len()) is None,
        },
{
    let mut i: usize = 0;
    while i < store.projects.len()
        invariant
            i <= store.projects.len(),
            project_named(store@, name@, i as nat) is None,
        decreases store.projects.len() - i,
    {
        if text_eq(store.projects[i].name.as_str(), name) {
            proof {
                lemma_project_named_stays(
                    store@,
                    name@,
                    (i + 1) as nat,
                    store@.projects.len(),
                );
            }
            return Some(i);
        }
        i += 1;
    }
    None
}

/// The node that a creation makes: it gets the next id and an empty description.
pub open spec fn new_node(s: StoreModel, project: i64, parent: Option<i64>, name: Seq<char>) -> NodeRow {
    NodeRow {
        id: (ceiling(node_ids(s)) + 1) as i64,
        project_id: project,
        parent_id: parent,
        name: name,
        desc: Seq::<char>::empty(),
    }
}

/// Why the creation of a child is refused, if it is.
pub open spec fn child_error(s: StoreModel, project_name: Seq<char>, parent: i64) -> Option<EngineError> {
    if project_named(s, project_name, s.projects.len()) is None || !node_ids(s).contains(parent) {
        Some(EngineError::NotFound)
    } else if ceiling(node_ids(s)) >= i64::MAX {
        Some(EngineError::StorageFailure)
    } else {
        None
    }
}

/// Creates a node of the named project under `parent_id`.
pub fn create_child_node(store: &mut Store, project_name: String, parent_id: i64, name: String) -> (r:
    Result<WTNode, EngineError>)
    requires
        old(store)@.wf(),
    ensures
        final(store)@.wf(),
        match child_error(old(store)@, project_name@, parent_id) {
            Some(e) => r == Err::<WTNode, EngineError>(e) && final(store)@ == old(store)@,
            None => {
                let project = old(store)@.projects[project_named(
                    old(store)@,
                    project_name@,
                    old(store)@.projects.len(),
                )->0].id;
                let row = new_node(old(store)@, project, Some(parent_id), name@);
                r is Ok && r->Ok_0@ == row && final(store)@ == old(store)@.with_node(row)
            },
        },
        is_forest(old(store)@) ==> is_forest(final(store)@),
{
    let project_id = match find_project_named(store, project_name.as_str()) {
        Some(i) => store.projects[i].id,
        None => {
            return Err(EngineError::NotFound);
        },
    };
    if store.find_node(parent_id).is_none() {
        return Err(EngineError::NotFound);
    }
    if store.last_node_id() == i64::MAX {
        return Err(EngineError::StorageFailure);
    }
    let shown = name.clone();
    let id = store.push_node(project_id, Some(parent_id), name, String::new());
    proof {
        if is_forest(old(store)@) {
            lemma_forest_grows(old(store)@, new_node(old(store)@, project_id, Some(parent_id), name@));
        }
    }
    Ok(
        WTNode {
            id: id,
            project_id: project_id,
            parent_id: Some(parent_id),
            name: shown,
            desc: String::new(),
        },
    )
}

/// Why the creation of a sibling is refused, if it is: the sibling does not
/// exist, or its project is not the named one, or the table is full.
pub open spec fn brother_error(s: StoreModel, project_name: Seq<char>, sibling: i64) -> Option<EngineError> {
    match first_index(node_ids(s), sibling) {
        None => Some(EngineError::NotFound),
        Some(i) => match first_index(project_ids(s), s.nodes[i].project_id) {
            None => Some(EngineError::NotFound),
            Some(p) => if s.projects[p].name != project_name {
                Some(EngineError::NotFound)
            } else if ceiling(node_ids(s)) >= i64::MAX {
                Some(EngineError::StorageFailure)
            } else {
                None
            },
        },
    }
}

/// The index of the project with this id.
pub fn find_project(store: &Store, id: i64) -> (r: Option<usize>)
    ensures
        located(r, project_ids(store@), id),
{
    proof {
        assert(crate::store::keys(store.projects@) =~= project_ids(store@));
    }
    crate::store::find_row(&store.projects, id)
}

/// Creates a node beside `sibling_id`: in the same project, under the same
/// parent.
pub fn create_brother_node(store: &mut Store, project_name: String, sibling_id: i64, name: String) -> (r:
    Result<WTNode, EngineError>)
    requires
        old(store)@.wf(),
    ensures
        final(store)@.wf(),
        match brother_error(old(store)@, project_name@, sibling_id) {
            Some(e) => r == Err::<WTNode, EngineError>(e) && final(store)@ == old(store)@,
            None => {
                let sibling = old(store)@.nodes[first_index(node_ids(old(store)@), sibling_id)->0];
                let row = new_node(old(store)@, sibling.project_id, sibling.parent_id, name@);
                r is Ok && r->Ok_0@ == row && final(store)@ == old(store)@.with_node(row)
            },
        },
        is_forest(old(store)@) ==> is_forest(final(store)@),
{
    let at = match store.find_node(sibling_id) {
        Some(i) => i,
        None => {
            return Err(EngineError::NotFound);
        },
    };
    let project_id = store.nodes[at].project_id;
    let parent_id = store.nodes[at].parent_id;
    match find_project(store, project_id) {
        Some(p) => {
            if !text_eq(store.projects[p].name.as_str(), project_name.as_str()) {
                return Err(EngineError::NotFound);
            }
        },
        None => {
            return Err(EngineError::NotFound);
        },
    }
    if store.last_node_id() == i64::MAX {
        return Err(EngineError::StorageFailure);
    }
    proof {
        assert(present(old(store)@.nodes[at as int].parent_id, node_ids(old(store)@)));
    }
    let shown = name.clone();
    let id = store.push_node(project_id, parent_id, name, String::new());
    proof {
        if is_forest(old(store)@) {
            lemma_forest_grows(old(store)@, new_node(old(store)@, project_id, parent_id, name@));
        }
    }
    Ok(
        WTNode {
            id: id,
            project_id: project_id,
            parent_id: parent_id,
            name: shown,
            desc: String::new(),
        },
    )
}

/// The store in which the node `id` has this name and this description; each
/// is kept where `None` is given.
pub open spec fn node_described(
    s: StoreModel,
    id: i64,
    name: Option<Seq<char>>,
    desc: Option<Seq<char>>,
) -> StoreModel {
    match first_index(node_ids(s), id) {
        Some(i) => StoreModel {
            nodes: s.nodes.update(
                i,
                NodeRow {
                    name: match name {
                        Some(n) => n,
                        None => s.nodes[i].name,
                    },
                    desc: match desc {
                        Some(d) => d,
                        None => s.nodes[i].desc,
                    },
                    ..s.nodes[i]
                },
            ),
            ..s
        },
        None => s,
    }
}

/// The views of two optional strings.
pub open spec fn opt_view(o: Option<String>) -> Option<Seq<char>> {
    match o {
        Some(s) => Some(s@),
        None => None,
    }
}

fn describe_node(store: &mut Store, node_id: i64, name: Option<String>, desc: Option<String>) -> (r:
    Result<(), EngineError>)
    requires
        old(store)@.wf(),
    ensures
        final(store)@.wf(),
        final(store)@ == node_described(old(store)@, node_id, opt_view(name), opt_view(desc)),
        r is Ok <==> node_ids(old(store)@).contains(node_id),
        r is Err ==> r == Err::<(), EngineError>(EngineError::NotFound),
        is_forest(old(store)@) ==> is_forest(final(store)@),
{
    let at = match store.find_node(node_id) {
        Some(i) => i,
        None => {
            return Err(EngineError::NotFound);
        },
    };
    match name {
        Some(n) => {
            store.nodes[at].name = n;
        },
        None => {},
    }
    match desc {
        Some(d) => {
            store.nodes[at].desc = d;
        },
        None => {},
    }
    proof {
        let s = old(store)@;
        let t = store@;
        assert(t.nodes =~= node_described(s, node_id, opt_view(name), opt_view(desc)).nodes);
        assert(t =~= node_described(s, node_id, opt_view(name), opt_view(desc)));
        assert(present(s.nodes[at as int].parent_id, node_ids(s)));
        lemma_node_touched(s, t, at as int);
        if is_forest(s) {
            lemma_forest_kept(s, t);
        }
    }
    Ok(())
}

/// Renames a node. `NotFound` where there is no such node.
pub fn rename_node(store: &mut Store, node_id: i64, new_name: String) -> (r: Result<(), EngineError>)
    requires
        old(store)@.wf(),
    ensures
        final(store)@.wf(),
        final(store)@ == node_described(old(store)@, node_id, Some(new_name@), None),
        r is Ok <==> node_ids(old(store)@).contains(node_id),
        r is Err ==> r == Err::<(), EngineError>(EngineError::NotFound),
        is_forest(old(store)@) ==> is_forest(final(store)@),
{
    describe_node(store, node_id, Some(new_name), None)
}

/// Replaces the description of a node. `NotFound` where there is no such node.
pub fn update_node_desc(store: &mut Store, node_id: i64, desc: String) -> (r: Result<(), EngineError>)
    requires
        old(store)@.wf(),
    ensures
        final(store)@.wf(),
        final(store)@ == node_described(old(store)@, node_id, None, Some(desc@)),
        r is Ok <==> node_ids(old(store)@).contains(node_id),
        r is Err ==> r == Err::<(), EngineError>(EngineError::NotFound),
        is_forest(old(store)@) ==> is_forest(final(store)@),
{
    describe_node(store, node_id, None, Some(desc))
}

/// Replaces the note of a node, which is its description.
pub fn update_node_note(store: &mut Store, node_id: i64, note: String) -> (r: Result<(), EngineError>)
    requires
        old(store)@.wf(),
    ensures
        final(store)@.wf(),
        final(store)@ == node_described(old(store)@, node_id, None, Some(note@)),
        r is Ok <==> node_ids(old(store)@).contains(node_id),
        r is Err ==> r == Err::<(), EngineError>(EngineError::NotFound),
        is_forest(old(store)@) ==> is_forest(final(store)@),
{
    describe_node(store, node_id, None, Some(note))
}

/// Replaces the name and the description of a node.
pub fn update_node_by_id(store: &mut Store, node_id: i64, name: String, desc: String) -> (r: Result<
    (),
    EngineError,
>)
    requires
        old(store)@.wf(),
    ensures
        final(store)@.wf(),
        final(store)@ == node_described(old(store)@, node_id, Some(name@), Some(desc@)),
        r is Ok <==> node_ids(old(store)@).contains(node_id),
        r is Err ==> r == Err::<(), EngineError>(EngineError::NotFound),
        is_forest(old(store)@) ==> is_forest(final(store)@),
{
    describe_node(store, node_id, Some(name), Some(desc))
}

/// The name and the description of a node. `NotFound` where there is no such
/// node. The structure by name is left empty.
pub fn get_node_detail(store: &Store, node_id: i64) -> (r: Result<NodeDetail, EngineError>)
    ensures
        match first_index(node_ids(store@), node_id) {
            Some(i) => r is Ok && r->Ok_0.node_id == node_id && r->Ok_0.name@ == store@.nodes[i].name
                && r->Ok_0.desc@ == store@.nodes[i].desc && r->Ok_0.structure@.len() == 0,
            None => r is Err && r->Err_0 == EngineError::NotFound,
        },
{
    match store.find_node(node_id) {
        Some(i) => {
            let structure: Vec<(String, NodeDetailFolder)> = Vec::new();
            Ok(
                NodeDetail {
                    node_id: node_id,
                    name: store.nodes[i].name.clone(),
                    desc: store.nodes[i].desc.clone(),
                    structure: structure,
                },
            )
        },
        None => Err(EngineError::NotFound),
    }
}

/// Whether a node has a child.
pub open spec fn has_child(s: StoreModel, node: i64) -> bool {
    exists|i: int| 0 <= i < s.nodes.len() && (#[trigger] s.nodes[i]).parent_id == Some(node)
}

/// Whether a change record belongs to a node.
pub open spec fn has_record(s: StoreModel, node: i64) -> bool {
    exists|i: int| 0 <= i < s.changes.len() && (#[trigger] s.changes[i]).node_id == node
}

/// Why the deletion of a node is refused, if it is: the node does not exist,
/// or it has children, or change records still belong to it.
pub open spec fn delete_error(s: StoreModel, node: i64) -> Option<EngineError> {
    if !node_ids(s).contains(node) {
        Some(EngineError::NotFound)
    } else if has_child(s, node) || has_record(s, node) {
        Some(EngineError::InvalidOperation)
    } else {
        None
    }
}

/// The store without the node `id`.
pub open spec fn node_removed(s: StoreModel, id: i64) -> StoreModel {
    match first_index(node_ids(s), id) {
        Some(i) => StoreModel { nodes: s.nodes.remove(i), ..s },
        None => s,
    }
}

/// Deletes a node that has no children and no change records. A node that
/// change records still refer to is never deleted.
pub fn delete_node(store: &mut Store, node_id: i64) -> (r: Result<(), EngineError>)
    requires
        old(store)@.wf(),
    ensures
        final(store)@.wf(),
        match delete_error(old(store)@, node_id) {
            Some(e) => r == Err::<(), EngineError>(e) && final(store)@ == old(store)@,
            None => r is Ok && final(store)@ == node_removed(old(store)@, node_id),
        },
        is_forest(old(store)@) ==> is_forest(final(store)@),
{
    let at = match store.find_node(node_id) {
        Some(i) => i,
        None => {
            return Err(EngineError::NotFound);
        },
    };
    let mut i: usize = 0;
    while i < store.nodes.len()
        invariant
            i <= store.nodes.len(),
            *store == *old(store),
            store@.wf(),
            node_ids(store@).contains(node_id),
            forall|j: int| 0 <= j < i ==> (#[trigger] store@.nodes[j]).parent_id != Some(node_id),
        decreases store.nodes.len() - i,
    {
        match store.nodes[i].parent_id {
            Some(p) => {
                if p == node_id {
                    assert(store@.nodes[i as int].parent_id == Some(node_id));
                    return Err(EngineError::InvalidOperation);
                }
            },
            None => {},
        }
        i += 1;
    }
    let mut k: usize = 0;
    while k < store.changes.len()
        invariant
            k <= store.changes.len(),
            *store == *old(store),
            store@.wf(),
            node_ids(store@).contains(node_id),
            !has_child(store@, node_id),
            forall|j: int| 0 <= j < k ==> (#[trigger] store@.changes[j]).node_id != node_id,
        decreases store.changes.len() - k,
    {
        if store.changes[k].node_id == node_id {
            assert(store@.changes[k as int].node_id == node_id);
            return Err(EngineError::InvalidOperation);
        }
        k += 1;
    }
    let ghost s = store@;
    store.nodes.remove(at);
    proof {
        let t = store@;
        assert(t.nodes =~= s.nodes.remove(at as int));
        assert(t =~= node_removed(s, node_id));
        lemma_node_removed(s, at as int);
        if is_forest(s) {
            lemma_forest_shrinks(s, at as int);
        }
    }
    Ok(())
}

/// A store stays well formed without a node that nothing refers to.
pub proof fn lemma_node_removed(s: StoreModel, at: int)
    requires
        s.wf(),
        0 <= at < s.nodes.len(),
        !has_child(s, s.nodes[at].id),
        !has_record(s, s.nodes[at].id),
    ensures
        (StoreModel { nodes: s.nodes.remove(at), ..s }).wf(),
{
    let t = StoreModel { nodes: s.nodes.remove(at), ..s };
    let gone = s.nodes[at].id;
    lemma_ceiling_kept(s, t);
    assert(node_ids(t) =~= node_ids(s).remove(at));
    assert forall|i: int, j: int| 0 <= i < j < node_ids(t).len() implies node_ids(t)[i] < node_ids(
        t,
    )[j] by {
        let a = if i < at {
            i
        } else {
            i + 1
        };
        let b = if j < at {
            j
        } else {
            j + 1
        };
        assert(node_ids(t)[i] == node_ids(s)[a]);
        assert(node_ids(t)[j] == node_ids(s)[b]);
    }
    assert forall|i: int| 0 <= i < node_ids(t).len() implies node_ids(t)[i] >= 1 by {
        let a = if i < at {
            i
        } else {
            i + 1
        };
        assert(node_ids(t)[i] == node_ids(s)[a]);
    }
    assert forall|x: i64| x != gone && node_ids(s).contains(x) implies node_ids(t).contains(x) by {
        let v = choose|v: int| 0 <= v < node_ids(s).len() && node_ids(s)[v] == x;
        assert(node_ids(s)[at] == gone);
        if v < at {
            assert(node_ids(t)[v] == x);
        } else {
            assert(node_ids(t)[v - 1] == x);
        }
    }
    assert forall|i: int| 0 <= i < t.nodes.len() implies present(
        (#[trigger] t.nodes[i]).parent_id,
        node_ids(t),
    ) by {
        let a = if i < at {
            i
        } else {
            i + 1
        };
        assert(t.nodes[i] == s.nodes[a]);
        assert(present(s.nodes[a].parent_id, node_ids(s)));
        if s.nodes[a].parent_id == Some(gone) {
            assert(has_child(s, gone));
        }
    }
    assert forall|i: int| 0 <= i < t.changes.len() implies t.change_refs_ok(
        #[trigger] t.changes[i],
    ) by {
        assert(s.change_refs_ok(s.changes[i]));
        if s.changes[i].node_id == gone {
            assert(has_record(s, gone));
        }
    }
    assert forall|i: int| 0 <= i < t.lines.len() implies crate::store::within(
        (#[trigger] t.lines[i]).position,
        crate::store::line_ids(t),
    ) by {
        assert(crate::store::within(s.lines[i].position, crate::store::line_ids(s)));
    }
}

/// The serial for the next line of the named project; where there is no
/// project of that name, of the project 0.
pub fn generate_line_serial(store: &Store, project_name: &str) -> (out: String)
    ensures
        out@ == fresh_serial(
            store@.lines,
            match project_named(store@, project_name@, store@.projects.len()) {
                Some(i) => store@.projects[i].id,
                None => 0i64,
            },
        ),
{
    let project = match find_project_named(store, project_name) {
        Some(i) => store.projects[i].id,
        None => 0,
    };
    generate_serial(&store.lines, project)
}

} // verus!
