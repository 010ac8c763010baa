//! Saving the edits of a node: new names and attributes for folders, cards
//! and blocks, and new texts for blocks, which go through the line differ.

use crate::changes::{
    block_titled, card_edited, edit_card, folder_named, rename_folder, update_block_title,
    CardEdit, CardEditView,
};
use crate::diff::{diff_and_save_block_content, save_block, save_error};
use crate::lines::{replay_lines, replay_lines_in_block, views_of_lines};
use crate::node::{node_path, walk_up};
use crate::store::{change_ids, detail, first_index, node_ids, Store, StoreModel};
use crate::text::{join_words, joined, parse_id, parse_number, text_eq, texts};
use crate::types::{
    opt_text, EngineError, Level, LineData, LineDataView, LineView, ReplayedLine, SaveBlockChange,
    SaveCardChange, SaveChanges, SaveFolderChange, SaveNodeChangesResult,
};
use vstd::prelude::*;

verus! {

/// The entity that the change record `change_id` refers to at a level.
pub open spec fn entity_of(s: StoreModel, change_id: i64, level: Level) -> Option<i64> {
    match first_index(change_ids(s), change_id) {
        Some(k) => detail(s.changes[k], level),
        None => None,
    }
}

/// The entity that the change record `change_id` refers to at a level.
pub fn entity_at(store: &Store, change_id: i64, level: Level) -> (r: Option<i64>)
    ensures
        r == entity_of(store@, change_id, level),
{
    match store.find_change(change_id) {
        Some(k) => crate::replay::detail_of(&store.changes[k], level),
        None => None,
    }
}

/// The store after one folder edit: the folder that the key names gets the
/// new name, if the edit has one.
pub open spec fn folder_change_applied(s: StoreModel, key: Seq<char>, ch: SaveFolderChange) -> StoreModel {
    match parse_id(key) {
        Some(cid) => match entity_of(s, cid, Level::Folder) {
            Some(fid) => match ch.name {
                Some(n) => folder_named(s, fid, n@),
                None => s,
            },
            None => s,
        },
        None => s,
    }
}

/// The store after the first `k` folder edits.
pub open spec fn folders_applied(s: StoreModel, items: Seq<(String, SaveFolderChange)>, k: nat) -> StoreModel
    decreases k,
{
    if k == 0 {
        s
    } else {
        folder_change_applied(
            folders_applied(s, items, (k - 1) as nat),
            items[k - 1].0@,
            items[k - 1].1,
        )
    }
}

/// What a card edit changes: the name and the description where given; with
/// a trigger, the key words joined by `@`, the mode (1 for `and`, else 0) and
/// the three flags; with images, their words joined by `@`.
pub open spec fn card_change_edit(ch: SaveCardChange) -> CardEditView {
    CardEditView {
        name: opt_text(ch.name),
        desc: opt_text(ch.desc),
        key_word: match ch.trigger {
            Some(t) => Some(joined(texts(t.words@), '@')),
            None => None,
        },
        image_word: if ch.image@.len() > 0 {
            Some(joined(texts(ch.image@), '@'))
        } else {
            None
        },
        trigger_mode: match ch.trigger {
            Some(t) => Some(
                if t.mode@ == "and"@ {
                    1i32
                } else {
                    0i32
                },
            ),
            None => None,
        },
        triggers: match ch.trigger {
            Some(t) => Some((t.system, t.user, t.ai)),
            None => None,
        },
    }
}

/// The store after one card edit.
pub open spec fn card_change_applied(s: StoreModel, key: Seq<char>, ch: SaveCardChange) -> StoreModel {
    match parse_id(key) {
        Some(cid) => match entity_of(s, cid, Level::Card) {
            Some(id) => card_edited(s, id, card_change_edit(ch)),
            None => s,
        },
        None => s,
    }
}

/// The store after the first `k` card edits.
pub open spec fn cards_applied(s: StoreModel, items: Seq<(String, SaveCardChange)>, k: nat) -> StoreModel
    decreases k,
{
    if k == 0 {
        s
    } else {
        card_change_applied(cards_applied(s, items, (k - 1) as nat), items[k - 1].0@, items[k - 1].1)
    }
}

/// The store after the text of a block is saved, or the store as it was where
/// the save is refused.
pub open spec fn text_saved(
    s: StoreModel,
    path: Seq<i64>,
    node: i64,
    project: i64,
    scope: i64,
    text: Seq<char>,
) -> StoreModel {
    match save_error(s, path, node, scope, text) {
        Some(_) => s,
        None => save_block(s, path, node, project, scope, text),
    }
}

/// The store after one block edit: first the title, then the text.
pub open spec fn block_change_applied(
    s: StoreModel,
    path: Seq<i64>,
    node: i64,
    project: i64,
    key: Seq<char>,
    ch: SaveBlockChange,
) -> StoreModel {
    match parse_id(key) {
        Some(cid) => {
            let titled = match entity_of(s, cid, Level::Block) {
                Some(id) => match ch.name {
                    Some(n) => block_titled(s, id, n@),
                    None => s,
                },
                None => s,
            };
            match ch.content {
                Some(text) => text_saved(titled, path, node, project, cid, text@),
                None => titled,
            }
        },
        None => s,
    }
}

/// The store after the first `k` block edits.
pub open spec fn blocks_applied(
    s: StoreModel,
    path: Seq<i64>,
    node: i64,
    project: i64,
    items: Seq<(String, SaveBlockChange)>,
    k: nat,
) -> StoreModel
    decreases k,
{
    if k == 0 {
        s
    } else {
        block_change_applied(
            blocks_applied(s, path, node, project, items, (k - 1) as nat),
            path,
            node,
            project,
            items[k - 1].0@,
            items[k - 1].1,
        )
    }
}

/// The store after a save: the folder edits, then the card edits, then the
/// block edits, each list in order. The path of the node is that of the store
/// before the save.
pub open spec fn changes_saved(s: StoreModel, node: i64, project: i64, changes: SaveChanges) -> StoreModel {
    let with_folders = folders_applied(s, changes.folder@, changes.folder@.len());
    let with_cards = cards_applied(with_folders, changes.card@, changes.card@.len());
    blocks_applied(
        with_cards,
        node_path(s, node),
        node,
        project,
        changes.block@,
        changes.block@.len(),
    )
}

/// The add records of the blocks whose text is saved, among the first `k`
/// block edits.
pub open spec fn saved_ids(items: Seq<(String, SaveBlockChange)>, k: nat) -> Seq<i64>
    decreases k,
{
    if k == 0 {
        Seq::<i64>::empty()
    } else {
        let before = saved_ids(items, (k - 1) as nat);
        if items[k - 1].1.content is Some && parse_id(items[k - 1].0@) is Some {
            before.push(parse_id(items[k - 1].0@)->0)
        } else {
            before
        }
    }
}

/// What a save returns of a line, under the line's serial.
pub open spec fn line_pair(l: LineView) -> (Seq<char>, LineDataView) {
    (l.sn, LineDataView { content: l.content, sync_dot: l.sync_dot })
}

/// What a save returns of the lines of a block.
pub open spec fn line_pairs(lines: Seq<LineView>) -> Seq<(Seq<char>, LineDataView)> {
    Seq::new(lines.len(), |i: int| line_pair(lines[i]))
}

/// The views of returned lines.
pub open spec fn pairs_view(v: Seq<(String, LineData)>) -> Seq<(Seq<char>, LineDataView)> {
    Seq::new(v.len(), |i: int| (v[i].0@, v[i].1@))
}

/// Whether `r` holds, for each id in order, the lines that replay at the end
/// of `path` finds in that block.
pub open spec fn result_matches(
    r: SaveNodeChangesResult,
    s: StoreModel,
    path: Seq<i64>,
    ids: Seq<i64>,
) -> bool {
    &&& r.blocks@.len() == ids.len()
    &&& forall|i: int|
        0 <= i < ids.len() ==> (#[trigger] r.blocks@[i]).0 == ids[i] && pairs_view(r.blocks@[i].1@)
            == line_pairs(replay_lines(s, path, ids[i]))
}

fn copy_text(o: &Option<String>) -> (r: Option<String>)
    ensures
        opt_text(r) == opt_text(*o),
{
    match o {
        Some(s) => Some(s.clone()),
        None => None,
    }
}

fn card_edit_of(ch: &SaveCardChange) -> (e: CardEdit)
    ensures
        e@ == card_change_edit(*ch),
{
    let image_word = if ch.image.len() > 0 {
        Some(join_words(&ch.image, '@'))
    } else {
        None
    };
    match &ch.trigger {
        Some(t) => CardEdit {
            name: copy_text(&ch.name),
            desc: copy_text(&ch.desc),
            key_word: Some(join_words(&t.words, '@')),
            image_word: image_word,
            trigger_mode: Some(
                if text_eq(t.mode.as_str(), "and") {
                    1
                } else {
                    0
                },
            ),
            triggers: Some((t.system, t.user, t.ai)),
        },
        None => CardEdit {
            name: copy_text(&ch.name),
            desc: copy_text(&ch.desc),
            key_word: None,
            image_word: image_word,
            trigger_mode: None,
            triggers: None,
        },
    }
}

fn pairs_of(lines: Vec<ReplayedLine>) -> (out: Vec<(String, LineData)>)
    ensures
        pairs_view(out@) == line_pairs(views_of_lines(lines@)),
{
    let mut out: Vec<(String, LineData)> = Vec::new();
    let mut i: usize = 0;
    while i < lines.len()
        invariant
            i <= lines.len(),
            pairs_view(out@) == line_pairs(views_of_lines(lines@).take(i as int)),
        decreases lines.len() - i,
    {
        let l = &lines[i];
        let data = LineData { content: copy_text(&l.content), sync_dot: l.sync_dot.clone() };
        let ghost before = out@;
        out.push((l.sn.clone(), data));
        proof {
            assert(views_of_lines(lines@)[i as int] == lines@[i as int]@);
            assert(pairs_view(out@) =~= pairs_view(before).push((l.sn@, data@)));
            assert(pairs_view(out@) =~= line_pairs(views_of_lines(lines@).take(i + 1)));
        }
        i += 1;
    }
    assert(views_of_lines(lines@).take(lines.len() as int) =~= views_of_lines(lines@));
    out
}

/// Saves the edits of a node and returns the lines of each block whose text
/// was saved. An edit whose key is no number, or names no record of its level,
/// is passed over, and so is a text whose save is refused. `NotFound` where
/// there is no such node; the store is then unchanged.
pub fn save_node_changes(store: &mut Store, node_id: i64, project_id: i64, changes: SaveChanges) -> (r:
    Result<SaveNodeChangesResult, EngineError>)
    requires
        old(store)@.wf(),
    ensures
        final(store)@.wf(),
        match first_index(node_ids(old(store)@), node_id) {
            Some(_) => r is Ok && final(store)@ == changes_saved(
                old(store)@,
                node_id,
                project_id,
                changes,
            ) && result_matches(
                r->Ok_0,
                final(store)@,
                node_path(old(store)@, node_id),
                saved_ids(changes.block@, changes.block@.len()),
            ),
            None => r is Err && r->Err_0 == EngineError::NotFound && final(store)@ == old(store)@,
        },
{
    if store.find_node(node_id).is_none() {
        return Err(EngineError::NotFound);
    }
    Ok(apply_changes(store, node_id, project_id, changes))
}

fn apply_changes(store: &mut Store, node_id: i64, project_id: i64, changes: SaveChanges) -> (r:
    SaveNodeChangesResult)
    requires
        old(store)@.wf(),
    ensures
        final(store)@.wf(),
        final(store)@ == changes_saved(old(store)@, node_id, project_id, changes),
        result_matches(
            r,
            final(store)@,
            node_path(old(store)@, node_id),
            saved_ids(changes.block@, changes.block@.len()),
        ),
{
    let ghost s0 = store@;
    let path = walk_up(store, node_id);
    let mut i: usize = 0;
    while i < changes.folder.len()
        invariant
            i <= changes.folder.len(),
            store@.wf(),
            store@ == folders_applied(s0, changes.folder@, i as nat),
        decreases changes.folder.len() - i,
    {
        let item = &changes.folder[i];
        match parse_number(item.0.as_str()) {
            Some(cid) => {
                match entity_at(store, cid, Level::Folder) {
                    Some(fid) => {
                        match &item.1.name {
                            Some(n) => {
                                let _ = rename_folder(store, fid, n.clone());
                            },
                            None => {},
                        }
                    },
                    None => {},
                }
            },
            None => {},
        }
        i += 1;
    }
    let ghost s1 = store@;
    let mut j: usize = 0;
    while j < changes.card.len()
        invariant
            j <= changes.card.len(),
            store@.wf(),
            store@ == cards_applied(s1, changes.card@, j as nat),
        decreases changes.card.len() - j,
    {
        let item = &changes.card[j];
        match parse_number(item.0.as_str()) {
            Some(cid) => {
                match entity_at(store, cid, Level::Card) {
                    Some(id) => {
                        let _ = edit_card(store, id, card_edit_of(&item.1));
                    },
                    None => {},
                }
            },
            None => {},
        }
        j += 1;
    }
    let ghost s2 = store@;
    let mut saved: Vec<i64> = Vec::new();
    let mut k: usize = 0;
    while k < changes.block.len()
        invariant
            k <= changes.block.len(),
            store@.wf(),
            path@ == node_path(s0, node_id),
            store@ == blocks_applied(
                s2,
                path@,
                node_id,
                project_id,
                changes.block@,
                k as nat,
            ),
            saved@ == saved_ids(changes.block@, k as nat),
        decreases changes.block.len() - k,
    {
        let item = &changes.block[k];
        match parse_number(item.0.as_str()) {
            Some(cid) => {
                match entity_at(store, cid, Level::Block) {
                    Some(id) => {
                        match &item.1.name {
                            Some(n) => {
                                let _ = update_block_title(store, id, n.clone());
                            },
                            None => {},
                        }
                    },
                    None => {},
                }
                match &item.1.content {
                    Some(text) => {
                        let _ = diff_and_save_block_content(
                            store,
                            &path,
                            node_id,
                            project_id,
                            cid,
                            text.as_str(),
                        );
                        saved.push(cid);
                    },
                    None => {},
                }
            },
            None => {},
        }
        k += 1;
    }
    let mut blocks: Vec<(i64, Vec<(String, LineData)>)> = Vec::new();
    let mut b: usize = 0;
    while b < saved.len()
        invariant
            b <= saved.len(),
            blocks.len() == b,
            forall|i: int|
                0 <= i < b ==> (#[trigger] blocks@[i]).0 == saved@[i] && pairs_view(blocks@[i].1@)
                    == line_pairs(replay_lines(store@, path@, saved@[i])),
        decreases saved.len() - b,
    {
        let lines = replay_lines_in_block(store, &path, saved[b]);
        let pairs = pairs_of(lines);
        blocks.push((saved[b], pairs));
        b += 1;
    }
    SaveNodeChangesResult { blocks: blocks }
}

/// Saves the text of one block at a node and returns the lines of the block
/// after the save, in display order, each under its serial. The save runs
/// along the path of the node. On an error the store is unchanged.
pub fn save_block_content(
    store: &mut Store,
    node_id: i64,
    project_id: i64,
    block_change_id: i64,
    text: &str,
) -> (r: Result<Vec<(String, LineData)>, EngineError>)
    requires
        old(store)@.wf(),
    ensures
        final(store)@.wf(),
        match save_error(
            old(store)@,
            node_path(old(store)@, node_id),
            node_id,
            block_change_id,
            text@,
        ) {
            Some(e) => r == Err::<Vec<(String, LineData)>, EngineError>(e) && final(store)@ == old(
                store,
            )@,
            None => r is Ok && final(store)@ == save_block(
                old(store)@,
                node_path(old(store)@, node_id),
                node_id,
                project_id,
                block_change_id,
                text@,
            ) && pairs_view(r->Ok_0@) == line_pairs(
                replay_lines(final(store)@, node_path(old(store)@, node_id), block_change_id),
            ),
        },
{
    let path = walk_up(store, node_id);
    match diff_and_save_block_content(store, &path, node_id, project_id, block_change_id, text) {
        Ok(_) => {
            let lines = replay_lines_in_block(store, &path, block_change_id);
            Ok(pairs_of(lines))
        },
        Err(e) => Err(e),
    }
}

} // verus!
