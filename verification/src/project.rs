//! Projects: the bootstrap of a new project, and the system folders that it
//! creates.

use crate::changes::recorded_add;
use crate::forest::{is_forest, lemma_forest_grows, lemma_forest_kept};
use crate::store::{
    card_ids, ceiling, change_ids, first_index, folder_ids, node_ids, project_ids, Store,
    StoreModel,
};
use crate::text::text_eq;
use crate::store::node_rows;
use crate::types::{
    WTNode,
    Action, CardRow, ChangeRow, EngineError, FolderRow, Level, NodeRow, ProjectRow, WTProject,
};
use vstd::prelude::*;
use vstd::string::StringExecFns;

verus! {

/// The name of the root node of a new project.
pub open spec fn root_name() -> Seq<char> {
    "\u{6839}\u{8282}\u{70b9}"@
}

/// The store with one more system folder at `node`, and in it one card that
/// triggers for everyone.
pub open spec fn system_pair(
    s: StoreModel,
    node: i64,
    folder_name: Seq<char>,
    card_name: Seq<char>,
) -> StoreModel {
    let with_folder = recorded_add(
        s.with_folder(FolderRow { id: (ceiling(folder_ids(s)) + 1) as i64, name: folder_name }),
        Level::Folder,
        node,
        None,
    );
    recorded_add(
        with_folder.with_card(
            CardRow {
                id: (ceiling(card_ids(s)) + 1) as i64,
                name: card_name,
                desc: Seq::<char>::empty(),
                key_word: Seq::<char>::empty(),
                image_word: Seq::<char>::empty(),
                trigger_mode: 0,
                trigger_system: true,
                trigger_user: true,
                trigger_ai: true,
            },
        ),
        Level::Card,
        node,
        Some(ceiling(change_ids(with_folder)) as i64),
    )
}

/// The store after a project is created: the project, its root node, which is
/// its current node, and at that node the three system folders with their
/// cards.
pub open spec fn bootstrapped(
    s: StoreModel,
    name: Seq<char>,
    project_type: Seq<char>,
    now: Seq<char>,
) -> StoreModel {
    let project = (ceiling(project_ids(s)) + 1) as i64;
    let node = (ceiling(node_ids(s)) + 1) as i64;
    let with_node = s.with_project(
        ProjectRow {
            id: project,
            name: name,
            project_type: project_type,
            current_node: Some(node),
            create_time: now,
            update_time: now,
        },
    ).with_node(
        NodeRow {
            id: node,
            project_id: project,
            parent_id: None,
            name: root_name(),
            desc: Seq::<char>::empty(),
        },
    );
    system_pair(
        system_pair(
            system_pair(with_node, node, "SYS_PRE"@, "SYS_PRE_BASE"@),
            node,
            "SYS_POST"@,
            "SYS_POST_BASE"@,
        ),
        node,
        "SYS_GLOBAL"@,
        "SYS_GLOBAL_BASE"@,
    )
}

/// Whether the tables have ids left for the rows of a new project.
pub open spec fn bootstrap_room(s: StoreModel) -> bool {
    &&& ceiling(project_ids(s)) < i64::MAX
    &&& ceiling(node_ids(s)) < i64::MAX
    &&& ceiling(folder_ids(s)) + 3 <= i64::MAX
    &&& ceiling(card_ids(s)) + 3 <= i64::MAX
    &&& ceiling(change_ids(s)) + 6 <= i64::MAX
}

fn add_system_pair(store: &mut Store, node: i64, folder_name: &str, card_name: &str)
    requires
        old(store)@.wf(),
        node_ids(old(store)@).contains(node),
        ceiling(folder_ids(old(store)@)) < i64::MAX,
        ceiling(card_ids(old(store)@)) < i64::MAX,
        ceiling(change_ids(old(store)@)) + 2 <= i64::MAX,
    ensures
        final(store)@.wf(),
        final(store)@ == system_pair(old(store)@, node, folder_name@, card_name@),
        node_ids(final(store)@) == node_ids(old(store)@),
        project_ids(final(store)@) == project_ids(old(store)@),
        ceiling(folder_ids(final(store)@)) == ceiling(folder_ids(old(store)@)) + 1,
        ceiling(card_ids(final(store)@)) == ceiling(card_ids(old(store)@)) + 1,
        ceiling(change_ids(final(store)@)) == ceiling(change_ids(old(store)@)) + 2,
{
    let ghost s = store@;
    let fid = store.push_folder(String::from_str(folder_name));
    proof {
        crate::store::lemma_ceiling_kept(s, store@);
        assert(folder_ids(store@) =~= folder_ids(s).push(fid));
    }
    let ghost s1 = store@;
    let folder_change = store.push_change(Action::Add, Level::Folder, node, None, Some(fid));
    proof {
        crate::store::lemma_ceiling_kept(s1, store@);
        assert(change_ids(store@) =~= change_ids(s1).push(folder_change));
    }
    let ghost s2 = store@;
    let cid = store.push_card(
        String::from_str(card_name),
        String::new(),
        String::new(),
        String::new(),
        0,
        true,
        true,
        true,
    );
    proof {
        crate::store::lemma_ceiling_kept(s2, store@);
        assert(card_ids(store@) =~= card_ids(s2).push(cid));
    }
    let ghost s3 = store@;
    let card_change = store.push_change(Action::Add, Level::Card, node, Some(folder_change), Some(cid));
    proof {
        crate::store::lemma_ceiling_kept(s3, store@);
        assert(change_ids(store@) =~= change_ids(s3).push(card_change));
    }
}

/// Creates a project with its root node and its system folders. `now` is the
/// time of creation as the caller writes it. Either every row is created or,
/// where the tables lack the room, none.
pub fn create_project(store: &mut Store, name: String, project_type: String, now: String) -> (r: Result<
    WTProject,
    EngineError,
>)
    requires
        old(store)@.wf(),
    ensures
        final(store)@.wf(),
        if bootstrap_room(old(store)@) {
            &&& r is Ok
            &&& final(store)@ == bootstrapped(old(store)@, name@, project_type@, now@)
            &&& r->Ok_0@ == final(store)@.projects[old(store)@.projects.len() as int]
        } else {
            r == Err::<WTProject, EngineError>(EngineError::StorageFailure) && final(store)@ == old(
                store,
            )@
        },
        is_forest(old(store)@) ==> is_forest(final(store)@),
{
    let last_project = store.last_project_id();
    let last_node = store.last_node_id();
    let last_folder = store.last_folder_id();
    let last_card = store.last_card_id();
    let last_change = store.last_change_id();
    if last_project == i64::MAX || last_node == i64::MAX || last_folder > i64::MAX - 3 || last_card
        > i64::MAX - 3 || last_change > i64::MAX - 6 {
        return Err(EngineError::StorageFailure);
    }
    let ghost s = store@;
    let node = last_node + 1;
    let row = WTProject {
        id: last_project + 1,
        name: name.clone(),
        project_type: project_type.clone(),
        current_node: Some(node),
        create_time: now.clone(),
        update_time: now.clone(),
    };
    let project = store.push_project(name, project_type, Some(node), now.clone(), now);
    proof {
        crate::store::lemma_ceiling_kept(s, store@);
    }
    let ghost s1 = store@;
    let node_id = store.push_node(project, None, String::from_str("\u{6839}\u{8282}\u{70b9}"), String::new());
    proof {
        crate::store::lemma_ceiling_kept(s1, store@);
        assert(node_ids(store@) =~= node_ids(s1).push(node_id));
        assert(node_ids(store@)[node_ids(s1).len() as int] == node_id);
    }
    let ghost s2 = store@;
    proof {
        if is_forest(s) {
            lemma_forest_kept(s, s1);
            lemma_forest_grows(
                s1,
                NodeRow {
                    id: node_id,
                    project_id: project,
                    parent_id: None,
                    name: root_name(),
                    desc: Seq::<char>::empty(),
                },
            );
        }
    }
    add_system_pair(store, node_id, "SYS_PRE", "SYS_PRE_BASE");
    add_system_pair(store, node_id, "SYS_POST", "SYS_POST_BASE");
    add_system_pair(store, node_id, "SYS_GLOBAL", "SYS_GLOBAL_BASE");
    proof {
        if is_forest(s2) {
            lemma_forest_kept(s2, store@);
        }
    }
    Ok(row)
}

/// The first root node of a project among the first `k` nodes.
pub open spec fn root_of(s: StoreModel, project: i64, k: nat) -> Option<i64>
    decreases k,
{
    if k == 0 {
        None
    } else {
        match root_of(s, project, (k - 1) as nat) {
            Some(r) => Some(r),
            None => if s.nodes[k - 1].project_id == project && s.nodes[k - 1].parent_id is None {
                Some(s.nodes[k - 1].id)
            } else {
                None
            },
        }
    }
}

/// Once found, the first root stays the answer.
pub proof fn lemma_root_stays(s: StoreModel, project: i64, k: nat, n: nat)
    requires
        k <= n,
        root_of(s, project, k) is Some,
    ensures
        root_of(s, project, n) == root_of(s, project, k),
    decreases n - k,
{
    if k < n {
        lemma_root_stays(s, project, k, (n - 1) as nat);
    }
}

/// Whether a name is that of a system folder.
pub open spec fn is_system_folder(name: Seq<char>) -> bool {
    name == "SYS_PRE"@ || name == "SYS_POST"@ || name == "SYS_GLOBAL"@
}

/// Whether `c` adds a system folder at `root`.
pub open spec fn adds_system_folder(s: StoreModel, root: i64, c: ChangeRow) -> bool {
    &&& c.node_id == root
    &&& c.level == Level::Folder
    &&& c.action == Action::Add
    &&& c.detail_folder is Some
    &&& first_index(folder_ids(s), c.detail_folder->0) is Some
    &&& is_system_folder(s.folders[first_index(folder_ids(s), c.detail_folder->0)->0].name)
}

/// The system folders that the first `k` records add at `root`: the name of
/// each with the id of its add record.
pub open spec fn system_folders(s: StoreModel, root: i64, k: nat) -> Seq<(Seq<char>, i64)>
    decreases k,
{
    if k == 0 {
        Seq::<(Seq<char>, i64)>::empty()
    } else {
        let before = system_folders(s, root, (k - 1) as nat);
        let c = s.changes[k - 1];
        if adds_system_folder(s, root, c) {
            before.push(
                (s.folders[first_index(folder_ids(s), c.detail_folder->0)->0].name, c.id),
            )
        } else {
            before
        }
    }
}

/// The names of a list of named ids, as texts.
pub open spec fn named_ids(v: Seq<(String, i64)>) -> Seq<(Seq<char>, i64)> {
    Seq::new(v.len(), |i: int| (v[i].0@, v[i].1))
}

/// The add records of the system folders of a project, each under the name of
/// its folder, in the order of the log. `NotFound` where the project has no
/// root node.
pub fn get_system_folder_change_ids(store: &Store, project_id: i64) -> (r: Result<
    Vec<(String, i64)>,
    EngineError,
>)
    ensures
        match root_of(store@, project_id, store@.nodes.len()) {
            Some(root) => r is Ok && named_ids(r->Ok_0@) == system_folders(
                store@,
                root,
                store@.changes.len(),
            ),
            None => r is Err && r->Err_0 == EngineError::NotFound,
        },
{
    let mut root: Option<i64> = None;
    let mut n: usize = 0;
    while n < store.nodes.len() && root.is_none()
        invariant
            n <= store.nodes.len(),
            root == root_of(store@, project_id, n as nat),
        decreases store.nodes.len() - n,
    {
        if store.nodes[n].project_id == project_id && store.nodes[n].parent_id.is_none() {
            root = Some(store.nodes[n].id);
        }
        n += 1;
    }
    let root = match root {
        Some(x) => {
            proof {
                lemma_root_stays(store@, project_id, n as nat, store@.nodes.len());
            }
            x
        },
        None => {
            return Err(EngineError::NotFound);
        },
    };
    let mut out: Vec<(String, i64)> = Vec::new();
    let mut k: usize = 0;
    while k < store.changes.len()
        invariant
            k <= store.changes.len(),
            named_ids(out@) == system_folders(store@, root, k as nat),
        decreases store.changes.len() - k,
    {
        let c = &store.changes[k];
        if c.node_id == root && c.level == Level::Folder && c.action == Action::Add {
            match c.detail_folder {
                Some(f) => {
                    match store.find_folder(f) {
                        Some(i) => {
                            let name = &store.folders[i].name;
                            if text_eq(name.as_str(), "SYS_PRE") || text_eq(name.as_str(), "SYS_POST")
                                || text_eq(name.as_str(), "SYS_GLOBAL") {
                                let ghost before = out@;
                                out.push((name.clone(), c.id));
                                assert(named_ids(out@) =~= named_ids(before).push((name@, c.id)));
                            }
                        },
                        None => {},
                    }
                },
                None => {},
            }
        }
        k += 1;
    }
    Ok(out)
}

/// The indices of the nodes of a project among the first `k` nodes.
pub open spec fn members(nodes: Seq<NodeRow>, project: i64, k: nat) -> Seq<int>
    decreases k,
{
    if k == 0 {
        Seq::<int>::empty()
    } else {
        let before = members(nodes, project, (k - 1) as nat);
        if nodes[k - 1].project_id == project {
            before.push(k - 1)
        } else {
            before
        }
    }
}

/// The indices as numbers.
pub open spec fn as_ints(v: Seq<usize>) -> Seq<int> {
    Seq::new(v.len(), |i: int| v[i] as int)
}

/// The nodes of a project: the index of each among `nodes`, in their order.
pub fn project_nodes(nodes: &Vec<WTNode>, project_id: i64) -> (out: Vec<usize>)
    ensures
        as_ints(out@) == members(node_rows(nodes@), project_id, nodes@.len()),
        forall|i: int| 0 <= i < out.len() ==> out@[i] < nodes.len(),
{
    let mut out: Vec<usize> = Vec::new();
    let mut k: usize = 0;
    while k < nodes.len()
        invariant
            k <= nodes.len(),
            as_ints(out@) == members(node_rows(nodes@), project_id, k as nat),
            forall|i: int| 0 <= i < out.len() ==> out@[i] < nodes.len(),
        decreases nodes.len() - k,
    {
        if nodes[k].project_id == project_id {
            let ghost before = out@;
            out.push(k);
            assert(as_ints(out@) =~= as_ints(before).push(k as int));
        }
        k += 1;
    }
    out
}

/// The current node of a project: the one that it names, or else the first
/// of its nodes, or none where it has no node.
pub open spec fn current_node(p: ProjectRow, nodes: Seq<NodeRow>) -> Option<i64> {
    match p.current_node {
        Some(n) => Some(n),
        None => {
            let own = members(nodes, p.id, nodes.len());
            if own.len() > 0 {
                Some(nodes[own[0]].id)
            } else {
                None
            }
        },
    }
}

/// The current node of a project.
pub fn current_node_of(p: &WTProject, nodes: &Vec<WTNode>) -> (r: Option<i64>)
    ensures
        r == current_node(p@, node_rows(nodes@)),
{
    match p.current_node {
        Some(n) => Some(n),
        None => {
            let own = project_nodes(nodes, p.id);
            if own.len() > 0 {
                assert(as_ints(own@)[0] == own@[0] as int);
                Some(nodes[own[0]].id)
            } else {
                None
            }
        },
    }
}

} // verus!
