use worldtree::changes::{add_block, add_card, add_folder, add_line, delete_line};
use worldtree::digest::{content_digest, same_digest};
use worldtree::lines::{replay_lines_in_block, sort_lines_by_position, LineState};
use worldtree::node::{
    create_child_node, delete_node, generate_line_serial, get_node_path,
};
use worldtree::project::{create_project, current_node_of, project_nodes};
use worldtree::replay::{deleted_entities, gather_entries, live_entries, Found, Scope};
use worldtree::save::{entity_at, save_block_content};
use worldtree::serial::{next_serial, next_serial_str};
use worldtree::store::{find_row, holds_id, ids_of, last_row_id, Store};
use worldtree::types::{EngineError, Level, WTNode, WTProject};

fn ready() -> (Store, i64, i64) {
    let mut store = Store::new();
    let p =
        create_project(&mut store, "demo".to_string(), "novel".to_string(), "t0".to_string()).unwrap();
    (store, p.id, p.current_node.unwrap())
}

fn block(store: &mut Store, node: i64) -> i64 {
    let folder = add_folder(store, node, "f".to_string()).unwrap();
    let card = add_card(store, node, Some(folder), "c".to_string(), String::new()).unwrap();
    add_block(store, node, Some(card), "b".to_string(), "card".to_string()).unwrap()
}

fn state(id: i64, position: Option<i64>, node_index: usize) -> LineState {
    LineState { id, change_id: 100 + id, position, node_id: 1, node_index }
}

fn order(lines: &[LineState]) -> Vec<i64> {
    sort_lines_by_position(&lines.to_vec()).into_iter().map(|l| l.id).collect()
}

#[test]
fn next_serial_is_next_serial_str() {
    for sn in ["aaaa", "aaaz", "zZ99", "9999", ""] {
        assert_eq!(next_serial(sn), next_serial_str(sn));
    }
    assert_eq!(next_serial("zZ99"), "z0aa");
}

#[test]
fn digest_is_md5_of_the_utf8_text() {
    let abc = content_digest("abc");
    let want: [u8; 16] = [
        0x90, 0x01, 0x50, 0x98, 0x3c, 0xd2, 0x4f, 0xb0, 0xd6, 0x96, 0x3f, 0x7d, 0x28, 0xe1, 0x7f, 0x72,
    ];
    assert_eq!(abc, want);
    let empty = content_digest("");
    assert_eq!(empty[0], 0xd4);
    assert_eq!(empty[15], 0x7e);
    assert!(same_digest(&abc, &want));
    assert!(!same_digest(&abc, &empty));
    assert!(same_digest(&content_digest("é"), &content_digest("\u{e9}")));
}

#[test]
fn a_new_store_is_well_formed() {
    assert!(Store::new().check());
    let (store, _, _) = ready();
    assert!(store.check());
}

#[test]
fn check_refuses_ids_out_of_order() {
    let (mut store, _, _) = ready();
    store.folders.swap(0, 1);
    assert!(!store.check());
    let (mut store, _, _) = ready();
    store.folders[0].id = 0;
    assert!(!store.check());
    let (mut store, _, _) = ready();
    store.cards[1].id = store.cards[0].id;
    assert!(!store.check());
}

#[test]
fn check_refuses_references_to_rows_not_given_out() {
    let (mut store, _, root) = ready();
    store.nodes[0].parent_id = Some(9);
    assert!(!store.check());
    let (mut store, _, _) = ready();
    store.changes[0].node_id = 9;
    assert!(!store.check());
    let (mut store, _, _) = ready();
    store.changes[0].target = Some(7);
    assert!(!store.check());
    let (mut store, _, _) = ready();
    store.changes[0].detail_folder = Some(4);
    assert!(!store.check());
    let (mut store, project, _) = ready();
    let b = block(&mut store, root);
    add_line(&mut store, root, project, b, "x".to_string()).unwrap();
    assert!(store.check());
    store.lines[0].position = Some(2);
    assert!(!store.check());
}

#[test]
fn store_stays_well_formed_through_edits() {
    let (mut store, project, root) = ready();
    let a = create_child_node(&mut store, "demo".to_string(), root, "a".to_string()).unwrap().id;
    let b = block(&mut store, root);
    save_block_content(&mut store, a, project, b, "one\ntwo\nthree").unwrap();
    save_block_content(&mut store, a, project, b, "three\nfour").unwrap();
    save_block_content(&mut store, root, project, b, "").unwrap();
    assert!(store.check());
}

#[test]
fn delete_node_removes_a_leaf_without_records() {
    let (mut store, _, root) = ready();
    let a = create_child_node(&mut store, "demo".to_string(), root, "a".to_string()).unwrap().id;
    let b = create_child_node(&mut store, "demo".to_string(), a, "b".to_string()).unwrap().id;
    assert_eq!(delete_node(&mut store, 99), Err(EngineError::NotFound));
    assert_eq!(delete_node(&mut store, a), Err(EngineError::InvalidOperation));
    assert_eq!(delete_node(&mut store, root), Err(EngineError::InvalidOperation));
    assert_eq!(delete_node(&mut store, b), Ok(()));
    let ids: Vec<i64> = store.nodes.iter().map(|n: &WTNode| n.id).collect();
    assert_eq!(ids, vec![root, a]);
    add_folder(&mut store, a, "f".to_string()).unwrap();
    assert_eq!(delete_node(&mut store, a), Err(EngineError::InvalidOperation));
    assert!(store.check());
}

#[test]
fn line_serial_is_allocated_by_project_name() {
    let (mut store, project, root) = ready();
    assert_eq!(generate_line_serial(&store, "demo"), "aaaa");
    let b = block(&mut store, root);
    add_line(&mut store, root, project, b, "x".to_string()).unwrap();
    assert_eq!(generate_line_serial(&store, "demo"), "aaab");
    assert_eq!(generate_line_serial(&store, "nobody"), "aaaa");
}

#[test]
fn save_block_content_returns_the_lines_by_serial() {
    let (mut store, project, root) = ready();
    let b = block(&mut store, root);
    let lines = save_block_content(&mut store, root, project, b, "x\n \ny").unwrap();
    let got: Vec<(&str, Option<&str>, &str)> =
        lines.iter().map(|(sn, d)| (sn.as_str(), d.content.as_deref(), d.sync_dot.as_str())).collect();
    assert_eq!(
        got,
        vec![
            ("aaaa", Some("x"), "green-square"),
            ("aaab", Some(" "), "green-square"),
            ("aaac", Some("y"), "green-square"),
        ]
    );
    let again = save_block_content(&mut store, root, project, b, "x\n \ny").unwrap();
    assert_eq!(again, lines);
    assert_eq!(save_block_content(&mut store, 99, project, b, "x"), Err(EngineError::NotFound));
    assert_eq!(save_block_content(&mut store, root, project, 99, "x"), Err(EngineError::NotFound));
}

#[test]
fn entity_of_a_change_record() {
    let (store, _, _) = ready();
    assert_eq!(entity_at(&store, 1, Level::Folder), Some(1));
    assert_eq!(entity_at(&store, 2, Level::Card), Some(1));
    assert_eq!(entity_at(&store, 2, Level::Folder), None);
    assert_eq!(entity_at(&store, 77, Level::Folder), None);
}

#[test]
fn replay_collects_first_adds_and_drops_deleted() {
    let (mut store, project, root) = ready();
    let a = create_child_node(&mut store, "demo".to_string(), root, "a".to_string()).unwrap().id;
    let b = block(&mut store, root);
    let first = add_line(&mut store, root, project, b, "1".to_string()).unwrap();
    let second = add_line(&mut store, a, project, b, "2".to_string()).unwrap();
    delete_line(&mut store, a, first).unwrap();
    let path = get_node_path(&store, a).unwrap();
    let found = gather_entries(&store, &path, Level::Line, &Scope::Under(b));
    assert_eq!(
        found,
        vec![
            Found { change_id: first, entity: 1, node_id: root, node_index: 0 },
            Found { change_id: second, entity: 2, node_id: a, node_index: 1 },
        ]
    );
    assert_eq!(deleted_entities(&store, &path, Level::Line), vec![1]);
    let live = live_entries(&store, &path, Level::Line, &Scope::Under(b));
    assert_eq!(live, vec![Found { change_id: second, entity: 2, node_id: a, node_index: 1 }]);
    assert_eq!(live_entries(&store, &path, Level::Folder, &Scope::Any).len(), 4);
    assert!(live_entries(&store, &path, Level::Line, &Scope::Under(b + 1)).is_empty());
    assert_eq!(replay_lines_in_block(&store, &path, b).len(), 1);
}

#[test]
fn a_later_add_of_a_collected_entity_changes_nothing() {
    let (mut store, project, root) = ready();
    let b = block(&mut store, root);
    let first = add_line(&mut store, root, project, b, "1".to_string()).unwrap();
    let mut again = store.changes[store.changes.len() - 1];
    again.id += 1;
    store.changes.push(again);
    assert!(store.check());
    let path = get_node_path(&store, root).unwrap();
    let live = live_entries(&store, &path, Level::Line, &Scope::Under(b));
    assert_eq!(live.len(), 1);
    assert_eq!(live[0].change_id, first);
}

#[test]
fn one_chain_is_displayed_in_its_order() {
    let lines = [state(3, Some(2), 0), state(1, None, 0), state(2, Some(1), 0)];
    assert_eq!(order(&lines), vec![1, 2, 3]);
}

#[test]
fn two_chains_are_walked_breadth_first() {
    let lines = [
        state(1, None, 0),
        state(2, Some(1), 0),
        state(3, Some(2), 0),
        state(10, None, 0),
        state(11, Some(10), 0),
    ];
    assert_eq!(order(&lines), vec![1, 10, 2, 11, 3]);
}

#[test]
fn followers_of_one_line_are_ordered_by_depth_then_id() {
    let lines = [state(1, None, 0), state(5, Some(1), 1), state(4, Some(1), 1), state(9, Some(1), 0)];
    assert_eq!(order(&lines), vec![1, 9, 4, 5]);
}

#[test]
fn without_a_head_the_lines_keep_their_order() {
    let lines = [state(2, Some(1), 0), state(1, Some(2), 0), state(3, Some(7), 0)];
    assert_eq!(order(&lines), vec![2, 1, 3]);
    assert_eq!(order(&[]), Vec::<i64>::new());
}

fn node(id: i64, project_id: i64, parent_id: Option<i64>) -> WTNode {
    WTNode { id, project_id, parent_id, name: format!("n{}", id), desc: String::new() }
}

fn project(id: i64, current_node: Option<i64>) -> WTProject {
    WTProject {
        id,
        name: format!("p{}", id),
        project_type: String::new(),
        current_node,
        create_time: String::new(),
        update_time: String::new(),
    }
}

#[test]
fn rows_are_found_by_id() {
    let nodes = vec![node(2, 1, None), node(5, 1, Some(2)), node(9, 2, None)];
    assert_eq!(find_row(&nodes, 5), Some(1));
    assert_eq!(find_row(&nodes, 2), Some(0));
    assert_eq!(find_row(&nodes, 3), None);
    assert_eq!(last_row_id(&nodes), 9);
    assert_eq!(last_row_id(&Vec::<WTNode>::new()), 0);
    assert_eq!(ids_of(&nodes), vec![2, 5, 9]);
    assert!(holds_id(&vec![2, 5, 9], 5));
    assert!(!holds_id(&vec![2, 5, 9], 4));
}

#[test]
fn nodes_of_a_project_and_its_current_node() {
    let nodes = vec![node(1, 1, None), node(2, 2, None), node(3, 1, Some(1)), node(4, 2, Some(2))];
    assert_eq!(project_nodes(&nodes, 1), vec![0, 2]);
    assert_eq!(project_nodes(&nodes, 2), vec![1, 3]);
    assert_eq!(project_nodes(&nodes, 3), Vec::<usize>::new());
    assert_eq!(current_node_of(&project(1, Some(3)), &nodes), Some(3));
    assert_eq!(current_node_of(&project(2, None), &nodes), Some(2));
    assert_eq!(current_node_of(&project(3, None), &nodes), None);
    assert_eq!(current_node_of(&project(3, Some(7)), &nodes), Some(7));
}

#[test]
fn a_second_save_changes_nothing_at_all() {
    for text in ["x\ny\nx", "same\nsame\nsame", "b\na\nb\na", "only", ""] {
        let (mut store, project, root) = ready();
        let a = create_child_node(&mut store, "demo".to_string(), root, "a".to_string()).unwrap().id;
        let b = block(&mut store, root);
        save_block_content(&mut store, root, project, b, "a\nb\nb\nc").unwrap();
        let first = save_block_content(&mut store, a, project, b, text).unwrap();
        let once = store.clone();
        let second = save_block_content(&mut store, a, project, b, text).unwrap();
        assert_eq!(second, first);
        assert_eq!(store, once);
    }
}
