use worldtree::changes::{
    add_block, add_card, add_folder, add_folder_with_parent, add_line, delete_block, delete_card,
    delete_folder, delete_line, immediate_change, update_block_title, update_card_key_word,
    update_card_triggers, update_line_content,
};
use worldtree::content::{
    get_node_content, replay_blocks_by_zone, replay_blocks_in_card, replay_cards_in_folder,
    replay_folders,
};
use worldtree::diff::diff_and_save_block_content;
use worldtree::lines::replay_lines_in_block;
use worldtree::node::{
    create_brother_node, create_child_node, get_node_detail, get_node_path, rebase_node,
    rename_node, update_node_by_id, update_node_desc, update_node_note,
};
use worldtree::project::{create_project, get_system_folder_change_ids};
use worldtree::save::save_node_changes;
use worldtree::store::Store;
use worldtree::types::{
    Action, ChangeRow, EngineError, ImmediateChange, Level, NodeDetailTrigger, SaveBlockChange,
    SaveCardChange, SaveChanges, SaveFolderChange, WTNode,
};

struct World {
    store: Store,
    project: i64,
    root: i64,
}

fn world() -> World {
    let mut store = Store::new();
    let p = create_project(&mut store, "demo".to_string(), "novel".to_string(), "t0".to_string())
        .unwrap();
    let root = p.current_node.unwrap();
    World { store, project: p.id, root }
}

fn child(w: &mut World, parent: i64, name: &str) -> i64 {
    create_child_node(&mut w.store, "demo".to_string(), parent, name.to_string()).unwrap().id
}

/// A folder, a card in it and a block in the card, all added at `node`.
fn block_at(w: &mut World, node: i64) -> i64 {
    let folder = add_folder(&mut w.store, node, "places".to_string()).unwrap();
    let card =
        add_card(&mut w.store, node, Some(folder), "harbour".to_string(), "sea".to_string()).unwrap();
    add_block(&mut w.store, node, Some(card), "notes".to_string(), "card".to_string()).unwrap()
}

fn texts(w: &World, node: i64, block: i64) -> Vec<Option<String>> {
    let path = get_node_path(&w.store, node).unwrap();
    replay_lines_in_block(&w.store, &path, block).into_iter().map(|l| l.content).collect()
}

fn dots(w: &World, node: i64, block: i64) -> Vec<String> {
    let path = get_node_path(&w.store, node).unwrap();
    replay_lines_in_block(&w.store, &path, block).into_iter().map(|l| l.sync_dot).collect()
}

fn ids(w: &World, node: i64, block: i64) -> Vec<i64> {
    let path = get_node_path(&w.store, node).unwrap();
    replay_lines_in_block(&w.store, &path, block).into_iter().map(|l| l.id).collect()
}

fn save(w: &mut World, node: i64, block: i64, text: &str) {
    let path = get_node_path(&w.store, node).unwrap();
    let project = w.project;
    diff_and_save_block_content(&mut w.store, &path, node, project, block, text).unwrap();
}

fn some(v: &[&str]) -> Vec<Option<String>> {
    v.iter().map(|s| Some(s.to_string())).collect()
}

#[test]
fn new_project_has_root_and_system_folders() {
    let w = world();
    assert_eq!(w.project, 1);
    assert_eq!(w.root, 1);
    assert_eq!(w.store.nodes.len(), 1);
    assert_eq!(w.store.nodes[0].name, "根节点");
    assert_eq!(w.store.nodes[0].parent_id, None);
    assert_eq!(w.store.projects[0].current_node, Some(1));
    assert_eq!(w.store.changes.len(), 6);
    let content = get_node_content(&w.store, w.root).unwrap();
    let names: Vec<&str> = content.folders.iter().map(|f| f.name.as_str()).collect();
    assert_eq!(names, vec!["SYS_PRE", "SYS_POST", "SYS_GLOBAL"]);
    assert_eq!(content.folders[0].cards.len(), 1);
    assert_eq!(content.folders[0].cards[0].name, "SYS_PRE_BASE");
    assert!(content.folders[0].cards[0].trigger_system);
    assert_eq!(content.folders[2].cards[0].name, "SYS_GLOBAL_BASE");
    assert!(content.pre.is_empty());
}

#[test]
fn system_folder_change_ids_are_found_by_name() {
    let w = world();
    let found = get_system_folder_change_ids(&w.store, w.project).unwrap();
    assert_eq!(
        found,
        vec![("SYS_PRE".to_string(), 1), ("SYS_POST".to_string(), 3), ("SYS_GLOBAL".to_string(), 5)]
    );
    assert_eq!(get_system_folder_change_ids(&w.store, 99), Err(EngineError::NotFound));
}

#[test]
fn node_path_runs_from_root_to_node() {
    let mut w = world();
    let root = w.root;
    let a = child(&mut w, root, "a");
    let b = child(&mut w, a, "b");
    assert_eq!(get_node_path(&w.store, w.root).unwrap(), vec![w.root]);
    assert_eq!(get_node_path(&w.store, b).unwrap(), vec![w.root, a, b]);
    assert_eq!(get_node_path(&w.store, 77), Err(EngineError::NotFound));
}

#[test]
fn create_child_and_brother() {
    let mut w = world();
    let a = create_child_node(&mut w.store, "demo".to_string(), w.root, "a".to_string()).unwrap();
    assert_eq!(
        a,
        WTNode {
            id: 2,
            project_id: w.project,
            parent_id: Some(w.root),
            name: "a".to_string(),
            desc: String::new()
        }
    );
    let b = create_brother_node(&mut w.store, "demo".to_string(), a.id, "b".to_string()).unwrap();
    assert_eq!(b.parent_id, Some(w.root));
    assert_eq!(b.id, 3);
    let r = create_brother_node(&mut w.store, "demo".to_string(), w.root, "r".to_string()).unwrap();
    assert_eq!(r.parent_id, None);
    assert_eq!(
        create_child_node(&mut w.store, "other".to_string(), w.root, "x".to_string()),
        Err(EngineError::NotFound)
    );
    assert_eq!(
        create_child_node(&mut w.store, "demo".to_string(), 99, "x".to_string()),
        Err(EngineError::NotFound)
    );
    assert_eq!(
        create_brother_node(&mut w.store, "other".to_string(), a.id, "x".to_string()),
        Err(EngineError::NotFound)
    );
    assert_eq!(
        create_brother_node(&mut w.store, "demo".to_string(), 99, "x".to_string()),
        Err(EngineError::NotFound)
    );
}

#[test]
fn rebase_moves_a_node() {
    let mut w = world();
    let root = w.root;
    let a = child(&mut w, root, "a");
    let b = child(&mut w, root, "b");
    assert_eq!(rebase_node(&mut w.store, b, Some(a)), Ok(()));
    assert_eq!(get_node_path(&w.store, b).unwrap(), vec![w.root, a, b]);
    assert_eq!(rebase_node(&mut w.store, b, None), Ok(()));
    assert_eq!(get_node_path(&w.store, b).unwrap(), vec![b]);
}

#[test]
fn rebase_under_a_descendant_is_refused_and_changes_nothing() {
    let mut w = world();
    let root = w.root;
    let a = child(&mut w, root, "a");
    let b = child(&mut w, a, "b");
    let c = child(&mut w, b, "c");
    let before = w.store.nodes.clone();
    assert_eq!(rebase_node(&mut w.store, a, Some(c)), Err(EngineError::InvalidOperation));
    assert_eq!(rebase_node(&mut w.store, a, Some(b)), Err(EngineError::InvalidOperation));
    assert_eq!(rebase_node(&mut w.store, a, Some(a)), Err(EngineError::InvalidOperation));
    assert_eq!(w.store.nodes, before);
    assert_eq!(get_node_path(&w.store, c).unwrap(), vec![w.root, a, b, c]);
}

#[test]
fn rebase_of_unknown_nodes_is_not_found() {
    let mut w = world();
    let root = w.root;
    let a = child(&mut w, root, "a");
    assert_eq!(rebase_node(&mut w.store, 99, Some(a)), Err(EngineError::NotFound));
    assert_eq!(rebase_node(&mut w.store, a, Some(99)), Err(EngineError::NotFound));
}

#[test]
fn rebase_keeps_change_records_with_their_nodes() {
    let mut w = world();
    let root = w.root;
    let a = child(&mut w, root, "a");
    let b = child(&mut w, root, "b");
    let block = block_at(&mut w, a);
    save(&mut w, a, block, "kept");
    assert_eq!(texts(&w, b, block), Vec::<Option<String>>::new());
    rebase_node(&mut w.store, b, Some(a)).unwrap();
    assert_eq!(texts(&w, b, block), some(&["kept"]));
}

#[test]
fn node_names_and_descriptions() {
    let mut w = world();
    let root = w.root;
    let a = child(&mut w, root, "a");
    assert_eq!(rename_node(&mut w.store, a, "alpha".to_string()), Ok(()));
    assert_eq!(update_node_desc(&mut w.store, a, "first".to_string()), Ok(()));
    let d = get_node_detail(&w.store, a).unwrap();
    assert_eq!((d.node_id, d.name.as_str(), d.desc.as_str()), (a, "alpha", "first"));
    assert!(d.structure.is_empty());
    assert_eq!(update_node_note(&mut w.store, a, "second".to_string()), Ok(()));
    assert_eq!(get_node_detail(&w.store, a).unwrap().desc, "second");
    assert_eq!(update_node_by_id(&mut w.store, a, "x".to_string(), "y".to_string()), Ok(()));
    let d = get_node_detail(&w.store, a).unwrap();
    assert_eq!((d.name.as_str(), d.desc.as_str()), ("x", "y"));
    assert_eq!(rename_node(&mut w.store, 99, "n".to_string()), Err(EngineError::NotFound));
    assert!(matches!(get_node_detail(&w.store, 99), Err(EngineError::NotFound)));
}

#[test]
fn content_nests_cards_blocks_and_lines() {
    let mut w = world();
    let root = w.root;
    let folder = add_folder(&mut w.store, root, "places".to_string()).unwrap();
    let card =
        add_card(&mut w.store, root, Some(folder), "harbour".to_string(), "sea".to_string()).unwrap();
    let block =
        add_block(&mut w.store, root, Some(card), "notes".to_string(), "card".to_string()).unwrap();
    let line = add_line(&mut w.store, root, w.project, block, "fog".to_string()).unwrap();
    let pre = add_block(&mut w.store, root, None, "intro".to_string(), "pre".to_string()).unwrap();
    assert_eq!((folder, card, block, line, pre), (7, 8, 9, 10, 11));
    let content = get_node_content(&w.store, root).unwrap();
    assert_eq!(content.node_id, root);
    assert_eq!(content.folders.len(), 4);
    let f = &content.folders[3];
    assert_eq!((f.name.as_str(), f.change_id), ("places", folder));
    assert_eq!(f.cards.len(), 1);
    let c = &f.cards[0];
    assert_eq!((c.name.as_str(), c.key_word.as_str(), c.change_id), ("harbour", "sea", card));
    assert_eq!((c.trigger_system, c.trigger_user, c.trigger_ai), (false, true, true));
    assert_eq!(c.blocks.len(), 1);
    let b = &c.blocks[0];
    assert_eq!((b.title.as_str(), b.zone.as_str(), b.change_id), ("notes", "card", block));
    assert_eq!(b.lines.len(), 1);
    let l = &b.lines[0];
    assert_eq!(l.sn, "aaaa");
    assert_eq!(l.content, Some("fog".to_string()));
    assert_eq!(l.sync_dot, "green-square");
    assert_eq!(l.change_id, line);
    assert_eq!(content.pre.len(), 1);
    assert_eq!(content.pre[0].title, "intro");
    assert!(content.post.is_empty());
    assert!(content.global.is_empty());
}

#[test]
fn replay_by_level() {
    let mut w = world();
    let root = w.root;
    let block = block_at(&mut w, root);
    let path = get_node_path(&w.store, root).unwrap();
    assert_eq!(replay_folders(&w.store, &path).len(), 4);
    assert_eq!(replay_cards_in_folder(&w.store, &path, 7).len(), 1);
    assert_eq!(replay_cards_in_folder(&w.store, &path, 1)[0].name, "SYS_PRE_BASE");
    assert_eq!(replay_blocks_in_card(&w.store, &path, 8)[0].change_id, block);
    assert!(replay_blocks_in_card(&w.store, &path, 7).is_empty());
    assert!(replay_blocks_by_zone(&w.store, &path, "card").is_empty());
    assert!(replay_lines_in_block(&w.store, &Vec::new(), block).is_empty());
}

#[test]
fn cards_without_a_folder_replay_under_scope_zero() {
    let mut w = world();
    let root = w.root;
    add_card(&mut w.store, root, None, "loose".to_string(), String::new()).unwrap();
    let path = get_node_path(&w.store, root).unwrap();
    let cards = replay_cards_in_folder(&w.store, &path, 0);
    assert_eq!(cards.len(), 1);
    assert_eq!(cards[0].name, "loose");
}

#[test]
fn content_is_the_same_on_every_read() {
    let mut w = world();
    let root = w.root;
    let a = child(&mut w, root, "a");
    let block = block_at(&mut w, root);
    save(&mut w, a, block, "one\ntwo\nthree");
    let first = get_node_content(&w.store, a).unwrap();
    let second = get_node_content(&w.store, a).unwrap();
    assert_eq!(first, second);
}

#[test]
fn delete_reaches_descendants_and_spares_siblings() {
    let mut w = world();
    let root = w.root;
    let d = child(&mut w, root, "d");
    let below = child(&mut w, d, "below");
    let sibling = child(&mut w, root, "sibling");
    let folder = add_folder(&mut w.store, root, "shared".to_string()).unwrap();
    let card =
        add_card(&mut w.store, root, Some(folder), "c".to_string(), String::new()).unwrap();
    let block = add_block(&mut w.store, root, Some(card), "b".to_string(), "card".to_string()).unwrap();
    let line = add_line(&mut w.store, root, w.project, block, "x".to_string()).unwrap();
    let live = |w: &World, node: i64| -> (usize, usize, usize, usize) {
        let c = get_node_content(&w.store, node).unwrap();
        let f = c.folders.iter().find(|f| f.name == "shared");
        let cards = f.map(|f| f.cards.len()).unwrap_or(0);
        let blocks = f.and_then(|f| f.cards.first()).map(|c| c.blocks.len()).unwrap_or(0);
        let lines = f
            .and_then(|f| f.cards.first())
            .and_then(|c| c.blocks.first())
            .map(|b| b.lines.len())
            .unwrap_or(0);
        (f.is_some() as usize, cards, blocks, lines)
    };
    assert_eq!(live(&w, below), (1, 1, 1, 1));
    delete_line(&mut w.store, d, line).unwrap();
    assert_eq!(live(&w, d), (1, 1, 1, 0));
    assert_eq!(live(&w, below), (1, 1, 1, 0));
    assert_eq!(live(&w, sibling), (1, 1, 1, 1));
    assert_eq!(live(&w, root), (1, 1, 1, 1));
    delete_block(&mut w.store, d, block).unwrap();
    assert_eq!(live(&w, below), (1, 1, 0, 0));
    assert_eq!(live(&w, sibling), (1, 1, 1, 1));
    delete_card(&mut w.store, d, card).unwrap();
    assert_eq!(live(&w, below), (1, 0, 0, 0));
    assert_eq!(live(&w, sibling), (1, 1, 1, 1));
    delete_folder(&mut w.store, d, folder).unwrap();
    assert_eq!(live(&w, below), (0, 0, 0, 0));
    assert_eq!(live(&w, d), (0, 0, 0, 0));
    assert_eq!(live(&w, sibling), (1, 1, 1, 1));
    assert_eq!(live(&w, root), (1, 1, 1, 1));
}

#[test]
fn top_level_blocks_of_a_zone_can_be_deleted() {
    let mut w = world();
    let root = w.root;
    let a = child(&mut w, root, "a");
    let pre = add_block(&mut w.store, root, None, "intro".to_string(), "pre".to_string()).unwrap();
    delete_block(&mut w.store, a, pre).unwrap();
    assert_eq!(get_node_content(&w.store, root).unwrap().pre.len(), 1);
    assert_eq!(get_node_content(&w.store, a).unwrap().pre.len(), 0);
}

#[test]
fn sync_dot_colours_follow_the_children() {
    let mut w = world();
    let root = w.root;
    let n = child(&mut w, root, "n");
    let left = child(&mut w, n, "left");
    let right = child(&mut w, n, "right");
    let block = block_at(&mut w, root);
    let neither = add_line(&mut w.store, n, w.project, block, "neither".to_string()).unwrap();
    let one = add_line(&mut w.store, n, w.project, block, "one".to_string()).unwrap();
    let both = add_line(&mut w.store, n, w.project, block, "both".to_string()).unwrap();
    delete_line(&mut w.store, left, one).unwrap();
    delete_line(&mut w.store, left, both).unwrap();
    delete_line(&mut w.store, right, both).unwrap();
    let path = get_node_path(&w.store, n).unwrap();
    let lines = replay_lines_in_block(&w.store, &path, block);
    let dot = |change: i64| -> String {
        lines.iter().find(|l| l.change_id == change).unwrap().sync_dot.clone()
    };
    assert_eq!(dot(neither), "green-square");
    assert_eq!(dot(one), "yellow-square");
    assert_eq!(dot(both), "red-square");
    assert_eq!(dots(&w, left, block), vec!["green-dot".to_string()]);
    assert_eq!(dots(&w, right, block), vec!["green-dot".to_string(), "green-dot".to_string()]);
}

#[test]
fn sync_dot_is_a_dot_for_inherited_lines() {
    let mut w = world();
    let root = w.root;
    let a = child(&mut w, root, "a");
    let block = block_at(&mut w, root);
    add_line(&mut w.store, root, w.project, block, "up".to_string()).unwrap();
    add_line(&mut w.store, a, w.project, block, "down".to_string()).unwrap();
    assert_eq!(dots(&w, a, block), vec!["green-dot".to_string(), "green-square".to_string()]);
    assert_eq!(dots(&w, root, block), vec!["green-square".to_string()]);
}

#[test]
fn blank_lines_come_back_as_they_were_saved() {
    let mut w = world();
    let root = w.root;
    let block = block_at(&mut w, root);
    save(&mut w, root, block, "a\n  \n\nb");
    assert_eq!(texts(&w, root, block), some(&["a", "  ", "", "b"]));
    save(&mut w, root, block, "a\n\nb");
    assert_eq!(texts(&w, root, block), some(&["a", "", "b"]));
}

#[test]
fn content_of_an_unknown_node_is_not_found() {
    let w = world();
    assert_eq!(get_node_content(&w.store, 77), Err(EngineError::NotFound));
    assert!(get_node_content(&w.store, w.root).is_ok());
}

#[test]
fn duplicate_lines_are_lines_of_their_own() {
    let mut w = world();
    let root = w.root;
    let block = block_at(&mut w, root);
    save(&mut w, root, block, "x\ny\nx");
    let path = get_node_path(&w.store, root).unwrap();
    let lines = replay_lines_in_block(&w.store, &path, block);
    let got: Vec<Option<&str>> = lines.iter().map(|l| l.content.as_deref()).collect();
    assert_eq!(got, vec![Some("x"), Some("y"), Some("x")]);
    assert_ne!(lines[0].id, lines[2].id);
    assert_ne!(lines[0].sn, lines[2].sn);
    let content = get_node_content(&w.store, root).unwrap();
    assert_eq!(content.folders[3].cards[0].blocks[0].lines, lines);
}

#[test]
fn new_lines_remember_their_node() {
    let mut w = world();
    let root = w.root;
    let a = child(&mut w, root, "a");
    let block = block_at(&mut w, root);
    save(&mut w, root, block, "up");
    save(&mut w, a, block, "up\ndown");
    add_line(&mut w.store, a, w.project, block, "loose".to_string()).unwrap();
    let nodes: Vec<i64> = w.store.lines.iter().map(|l| l.node_id).collect();
    assert_eq!(nodes, vec![root, a, a]);
}

#[test]
fn save_then_replay_reproduces_the_text() {
    for text in ["", "only", "one\ntwo\nthree", "same\nsame\nother\nsame", "a\nb\na\nb\na"] {
        let mut w = world();
        let root = w.root;
        let block = block_at(&mut w, root);
        save(&mut w, root, block, text);
        let want: Vec<Option<String>> =
            if text.is_empty() { Vec::new() } else { text.split('\n').map(|s| Some(s.to_string())).collect() };
        assert_eq!(texts(&w, root, block), want);
    }
}

#[test]
fn save_over_earlier_text_reproduces_the_new_text() {
    let mut w = world();
    let root = w.root;
    let a = child(&mut w, root, "a");
    let block = block_at(&mut w, root);
    save(&mut w, root, block, "one\ntwo\nthree\nfour");
    save(&mut w, a, block, "four\nnew\none\none");
    assert_eq!(texts(&w, a, block), some(&["four", "new", "one", "one"]));
    save(&mut w, a, block, "");
    assert_eq!(texts(&w, a, block), Vec::<Option<String>>::new());
    save(&mut w, a, block, "back");
    assert_eq!(texts(&w, a, block), some(&["back"]));
}

#[test]
fn saving_the_same_text_twice_adds_no_records() {
    for text in ["", "only", "one\ntwo\nthree", "same\nsame\nother\nsame"] {
        let mut w = world();
        let root = w.root;
        let block = block_at(&mut w, root);
        save(&mut w, root, block, "old\ntext");
        save(&mut w, root, block, text);
        let changes = w.store.changes.clone();
        let lines = w.store.lines.clone();
        save(&mut w, root, block, text);
        assert_eq!(w.store.changes, changes);
        assert_eq!(w.store.lines, lines);
    }
}

#[test]
fn unchanged_lines_keep_their_identity() {
    let mut w = world();
    let root = w.root;
    let block = block_at(&mut w, root);
    save(&mut w, root, block, "one\ntwo\nthree");
    let before = ids(&w, root, block);
    save(&mut w, root, block, "three\none\ninserted\ntwo");
    let after = ids(&w, root, block);
    assert_eq!(after[0], before[2]);
    assert_eq!(after[1], before[0]);
    assert_eq!(after[3], before[1]);
    assert!(!before.contains(&after[2]));
    assert_eq!(texts(&w, root, block), some(&["three", "one", "inserted", "two"]));
}

#[test]
fn lines_are_matched_by_content_digest() {
    let mut w = world();
    let root = w.root;
    let block = block_at(&mut w, root);
    save(&mut w, root, block, "alpha\nbeta");
    let before = ids(&w, root, block);
    let changes = w.store.changes.len();
    save(&mut w, root, block, "gamma\nbeta");
    let after = ids(&w, root, block);
    assert_eq!(after[1], before[1]);
    assert_ne!(after[0], before[0]);
    assert_eq!(w.store.changes.len(), changes + 2);
    let last = w.store.changes[changes + 1];
    assert_eq!((last.action, last.level, last.node_id), (Action::Del, Level::Line, root));
}

#[test]
fn new_lines_get_ascending_serials() {
    let mut w = world();
    let root = w.root;
    let block = block_at(&mut w, root);
    save(&mut w, root, block, "a\nb\nc");
    let path = get_node_path(&w.store, root).unwrap();
    let sns: Vec<String> =
        replay_lines_in_block(&w.store, &path, block).into_iter().map(|l| l.sn).collect();
    assert_eq!(sns, vec!["aaaa".to_string(), "aaab".to_string(), "aaac".to_string()]);
}

#[test]
fn removed_lines_are_relinked_around() {
    let mut w = world();
    let root = w.root;
    let block = block_at(&mut w, root);
    save(&mut w, root, block, "a\nb\nc");
    let before = ids(&w, root, block);
    save(&mut w, root, block, "a\nc");
    let row = |id: i64| w.store.lines.iter().find(|l| l.id == id).unwrap();
    assert_eq!(row(before[2]).position, Some(before[0]));
    assert_eq!(row(before[0]).position, None);
    assert_eq!(texts(&w, root, block), some(&["a", "c"]));
}

#[test]
fn a_branch_edit_leaves_the_parent_text_alone() {
    let mut w = world();
    let root = w.root;
    let a = child(&mut w, root, "a");
    let block = block_at(&mut w, root);
    save(&mut w, root, block, "one\ntwo");
    save(&mut w, a, block, "one\ntwo\nthree");
    assert_eq!(texts(&w, a, block), some(&["one", "two", "three"]));
    assert_eq!(texts(&w, root, block), some(&["one", "two"]));
}

#[test]
fn several_heads_are_ordered_by_depth_then_id() {
    let mut w = world();
    let root = w.root;
    let a = child(&mut w, root, "a");
    let block = block_at(&mut w, root);
    add_line(&mut w.store, a, w.project, block, "deep".to_string()).unwrap();
    add_line(&mut w.store, root, w.project, block, "first".to_string()).unwrap();
    add_line(&mut w.store, root, w.project, block, "second".to_string()).unwrap();
    assert_eq!(texts(&w, a, block), some(&["first", "second", "deep"]));
}

#[test]
fn lines_that_no_chain_reaches_come_last() {
    let mut w = world();
    let root = w.root;
    let block = block_at(&mut w, root);
    add_line(&mut w.store, root, w.project, block, "head".to_string()).unwrap();
    add_line(&mut w.store, root, w.project, block, "loop a".to_string()).unwrap();
    add_line(&mut w.store, root, w.project, block, "loop b".to_string()).unwrap();
    let (a, b) = (w.store.lines[1].id, w.store.lines[2].id);
    w.store.lines[1].position = Some(b);
    w.store.lines[2].position = Some(a);
    assert_eq!(texts(&w, root, block), some(&["head", "loop a", "loop b"]));
}

#[test]
fn reserved_names_are_refused() {
    let mut w = world();
    let root = w.root;
    let changes = w.store.changes.len();
    assert_eq!(add_folder(&mut w.store, root, "SYS_X".to_string()), Err(EngineError::InvalidOperation));
    assert_eq!(
        add_folder_with_parent(&mut w.store, root, Some(1), "SYS_X".to_string()),
        Err(EngineError::InvalidOperation)
    );
    assert_eq!(
        add_card(&mut w.store, root, Some(1), "SYS_X".to_string(), String::new()),
        Err(EngineError::InvalidOperation)
    );
    assert_eq!(
        add_block(&mut w.store, root, Some(2), "SYS_X".to_string(), "card".to_string()),
        Err(EngineError::InvalidOperation)
    );
    assert_eq!(w.store.changes.len(), changes);
    assert!(add_folder(&mut w.store, root, "sys_x".to_string()).is_ok());
}

#[test]
fn unknown_references_are_not_found() {
    let mut w = world();
    let root = w.root;
    assert_eq!(add_folder(&mut w.store, 99, "f".to_string()), Err(EngineError::NotFound));
    assert_eq!(
        add_card(&mut w.store, root, Some(99), "c".to_string(), String::new()),
        Err(EngineError::NotFound)
    );
    assert_eq!(add_line(&mut w.store, root, w.project, 99, "l".to_string()), Err(EngineError::NotFound));
    assert_eq!(delete_line(&mut w.store, root, 99), Err(EngineError::NotFound));
    assert_eq!(delete_folder(&mut w.store, 99, 1), Err(EngineError::NotFound));
    let path = get_node_path(&w.store, root).unwrap();
    let project = w.project;
    assert_eq!(
        diff_and_save_block_content(&mut w.store, &path, root, project, 99, "x"),
        Err(EngineError::NotFound)
    );
    assert_eq!(
        diff_and_save_block_content(&mut w.store, &path, 99, project, 1, "x"),
        Err(EngineError::NotFound)
    );
}

#[test]
fn a_full_table_is_a_storage_failure() {
    let mut w = world();
    let root = w.root;
    let block = block_at(&mut w, root);
    w.store.changes.push(ChangeRow {
        id: i64::MAX,
        action: Action::Unknown,
        level: Level::Unknown,
        node_id: root,
        target: None,
        detail_folder: None,
        detail_card: None,
        detail_block: None,
        detail_line: None,
    });
    let folders = w.store.folders.len();
    assert_eq!(add_folder(&mut w.store, root, "f".to_string()), Err(EngineError::StorageFailure));
    assert_eq!(w.store.folders.len(), folders);
    assert_eq!(delete_folder(&mut w.store, root, 1), Err(EngineError::StorageFailure));
    let path = get_node_path(&w.store, root).unwrap();
    let project = w.project;
    assert_eq!(
        diff_and_save_block_content(&mut w.store, &path, root, project, block, "x"),
        Err(EngineError::StorageFailure)
    );
    assert!(w.store.lines.is_empty());
    assert_eq!(
        create_project(&mut w.store, "p".to_string(), "t".to_string(), "now".to_string()),
        Err(EngineError::StorageFailure)
    );
    assert_eq!(w.store.projects.len(), 1);
}

#[test]
fn attributes_are_updated_in_place() {
    let mut w = world();
    let root = w.root;
    let block = block_at(&mut w, root);
    add_line(&mut w.store, root, w.project, block, "old".to_string()).unwrap();
    let card_id = w.store.cards.last().unwrap().id;
    let block_id = w.store.blocks.last().unwrap().id;
    let line_id = w.store.lines.last().unwrap().id;
    assert_eq!(update_card_key_word(&mut w.store, card_id, "k1@k2".to_string()), Ok(()));
    assert_eq!(update_card_triggers(&mut w.store, card_id, true, false, false), Ok(()));
    assert_eq!(update_block_title(&mut w.store, block_id, "title".to_string()), Ok(()));
    assert_eq!(update_line_content(&mut w.store, line_id, "new".to_string()), Ok(()));
    let content = get_node_content(&w.store, root).unwrap();
    let card = &content.folders[3].cards[0];
    assert_eq!(card.key_word, "k1@k2");
    assert_eq!((card.trigger_system, card.trigger_user, card.trigger_ai), (true, false, false));
    assert_eq!(card.blocks[0].title, "title");
    assert_eq!(card.blocks[0].lines[0].content, Some("new".to_string()));
    assert_eq!(update_card_key_word(&mut w.store, 99, String::new()), Err(EngineError::NotFound));
    assert_eq!(update_card_triggers(&mut w.store, 99, true, true, true), Err(EngineError::NotFound));
    assert_eq!(update_block_title(&mut w.store, 99, String::new()), Err(EngineError::NotFound));
    assert_eq!(update_line_content(&mut w.store, 99, String::new()), Err(EngineError::NotFound));
}

fn edit(name: &str, action: &str, level: &str, target: Option<i64>) -> ImmediateChange {
    ImmediateChange {
        name: name.to_string(),
        action: action.to_string(),
        level: level.to_string(),
        target,
    }
}

#[test]
fn immediate_changes_dispatch_by_level_and_action() {
    let mut w = world();
    let root = w.root;
    let folder = immediate_change(&mut w.store, root, edit("f", "add", "folder", None)).unwrap();
    let card = immediate_change(&mut w.store, root, edit("c", "add", "card", Some(folder))).unwrap();
    let block = immediate_change(&mut w.store, root, edit("plain", "add", "block", Some(card))).unwrap();
    let content = get_node_content(&w.store, root).unwrap();
    let b = &content.folders[3].cards[0].blocks[0];
    assert_eq!((b.title.as_str(), b.zone.as_str(), b.change_id), ("plain", "card", block));
    immediate_change(&mut w.store, root, edit("", "del", "block", Some(block))).unwrap();
    immediate_change(&mut w.store, root, edit("", "del", "card", Some(card))).unwrap();
    assert!(get_node_content(&w.store, root).unwrap().folders[3].cards.is_empty());
    immediate_change(&mut w.store, root, edit("", "del", "folder", Some(folder))).unwrap();
    assert_eq!(get_node_content(&w.store, root).unwrap().folders.len(), 3);
}

#[test]
fn immediate_block_reads_title_and_zone_from_json() {
    let mut w = world();
    let root = w.root;
    let name = "{\"title\": \"Opening\", \"zone\": \"pre\"}";
    immediate_change(&mut w.store, root, edit(name, "add", "block", None)).unwrap();
    let pre = get_node_content(&w.store, root).unwrap().pre;
    assert_eq!(pre.len(), 1);
    assert_eq!((pre[0].title.as_str(), pre[0].zone.as_str()), ("Opening", "pre"));
    let only_zone = "{\"zone\": \"post\"}";
    immediate_change(&mut w.store, root, edit(only_zone, "add", "block", None)).unwrap();
    let post = get_node_content(&w.store, root).unwrap().post;
    assert_eq!(post[0].title, only_zone);
    let number = "{\"title\": 3}";
    immediate_change(&mut w.store, root, edit(number, "add", "block", Some(2))).unwrap();
    let row = w.store.blocks.last().unwrap();
    assert_eq!((row.title.as_str(), row.zone.as_str()), (number, "card"));
}

#[test]
fn immediate_changes_refuse_what_they_do_not_know() {
    let mut w = world();
    let root = w.root;
    let refused = Err(EngineError::InvalidOperation);
    assert_eq!(immediate_change(&mut w.store, root, edit("l", "add", "line", Some(1))), refused);
    assert_eq!(immediate_change(&mut w.store, root, edit("f", "move", "folder", None)), refused);
    assert_eq!(immediate_change(&mut w.store, root, edit("f", "del", "folder", None)), refused);
    assert_eq!(immediate_change(&mut w.store, root, edit("c", "del", "card", None)), refused);
    assert_eq!(immediate_change(&mut w.store, root, edit("b", "del", "block", None)), refused);
    assert_eq!(immediate_change(&mut w.store, root, edit("SYS_F", "add", "folder", None)), refused);
    assert_eq!(
        immediate_change(&mut w.store, 99, edit("f", "add", "folder", None)),
        Err(EngineError::NotFound)
    );
    assert_eq!(w.store.changes.len(), 6);
}

#[test]
fn save_node_changes_applies_edits_and_returns_lines() {
    let mut w = world();
    let root = w.root;
    let block = block_at(&mut w, root);
    let project = w.project;
    let changes = SaveChanges {
        folder: vec![
            ("7".to_string(), SaveFolderChange { name: Some("renamed".to_string()), desc: None }),
            ("x".to_string(), SaveFolderChange { name: Some("ignored".to_string()), desc: None }),
        ],
        card: vec![(
            "8".to_string(),
            SaveCardChange {
                name: Some("quay".to_string()),
                desc: Some("wet".to_string()),
                trigger: Some(NodeDetailTrigger {
                    mode: "and".to_string(),
                    words: vec!["tide".to_string(), "salt".to_string()],
                    system: true,
                    user: false,
                    ai: true,
                }),
                image: vec!["pier".to_string(), "gull".to_string()],
            },
        )],
        block: vec![
            (
                block.to_string(),
                SaveBlockChange { name: Some("log".to_string()), content: Some("a\n\nb".to_string()) },
            ),
            ("99".to_string(), SaveBlockChange { name: None, content: Some("lost".to_string()) }),
            ("8".to_string(), SaveBlockChange { name: Some("no block".to_string()), content: None }),
        ],
    };
    let unknown = SaveChanges { folder: vec![], card: vec![], block: vec![] };
    assert_eq!(save_node_changes(&mut w.store, 99, project, unknown), Err(EngineError::NotFound));
    let result = save_node_changes(&mut w.store, root, project, changes).unwrap();
    let content = get_node_content(&w.store, root).unwrap();
    let folder = &content.folders[3];
    assert_eq!(folder.name, "renamed");
    let card = &folder.cards[0];
    assert_eq!((card.name.as_str(), card.desc.as_str(), card.key_word.as_str()), ("quay", "wet", "tide@salt"));
    assert_eq!((card.trigger_system, card.trigger_user, card.trigger_ai), (true, false, true));
    assert_eq!(w.store.cards.last().unwrap().image_word, "pier@gull");
    assert_eq!(w.store.cards.last().unwrap().trigger_mode, 1);
    assert_eq!(card.blocks[0].title, "log");
    assert_eq!(result.blocks.len(), 2);
    assert_eq!(result.blocks[0].0, block);
    let lines = &result.blocks[0].1;
    let got: Vec<(&str, Option<&str>, &str)> =
        lines.iter().map(|(sn, d)| (sn.as_str(), d.content.as_deref(), d.sync_dot.as_str())).collect();
    assert_eq!(
        got,
        vec![
            ("aaaa", Some("a"), "green-square"),
            ("aaab", Some(""), "green-square"),
            ("aaac", Some("b"), "green-square"),
        ]
    );
    assert_eq!(result.blocks[1].0, 99);
    assert!(result.blocks[1].1.is_empty());
}

#[test]
fn saving_edits_twice_returns_the_same_and_adds_nothing() {
    let mut w = world();
    let root = w.root;
    let block = block_at(&mut w, root);
    let project = w.project;
    let edits = || SaveChanges {
        folder: vec![],
        card: vec![],
        block: vec![(
            block.to_string(),
            SaveBlockChange { name: None, content: Some("x\n\ny\nx".to_string()) },
        )],
    };
    let first = save_node_changes(&mut w.store, root, project, edits()).unwrap();
    let once = w.store.clone();
    let second = save_node_changes(&mut w.store, root, project, edits()).unwrap();
    assert_eq!(second, first);
    assert_eq!(w.store, once);
    let lines = &get_node_content(&w.store, root).unwrap().folders[3].cards[0].blocks[0].lines;
    let got: Vec<Option<&str>> = lines.iter().map(|l| l.content.as_deref()).collect();
    assert_eq!(got, vec![Some("x"), Some(""), Some("y"), Some("x")]);
}

#[test]
fn saving_the_empty_text_leaves_a_block_without_lines() {
    let mut w = world();
    let root = w.root;
    let block = block_at(&mut w, root);
    save(&mut w, root, block, "one\ntwo");
    save(&mut w, root, block, "");
    let content = get_node_content(&w.store, root).unwrap();
    let b = &content.folders[3].cards[0].blocks[0];
    assert_eq!(b.change_id, block);
    assert!(b.lines.is_empty());
}
