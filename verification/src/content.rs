//! Content replay: the folders, cards and blocks that are live at a node, each
//! level nested in the one above by the id of its add record.

use crate::lines::{replay_lines, replay_lines_in_block};
use crate::node::{node_path, walk_up};
use crate::store::node_ids;
use crate::types::EngineError;
use crate::replay::{entries_exist, live, live_entries, Found, Scope, ScopeModel};
use crate::store::{block_ids, card_ids, first_index, folder_ids, Store, StoreModel};
use crate::types::{
    BlockRow, BlockView, CardRow, CardView, ContentView, FolderRow, FolderView, Level, NodeContent,
    ReplayedBlock, ReplayedCard, ReplayedFolder,
};
use vstd::prelude::*;

verus! {

/// The row of the block with this id.
pub open spec fn block_row(s: StoreModel, id: i64) -> BlockRow {
    s.blocks[first_index(block_ids(s), id)->0]
}

/// The row of the card with this id.
pub open spec fn card_row(s: StoreModel, id: i64) -> CardRow {
    s.cards[first_index(card_ids(s), id)->0]
}

/// The row of the folder with this id.
pub open spec fn folder_row(s: StoreModel, id: i64) -> FolderRow {
    s.folders[first_index(folder_ids(s), id)->0]
}

/// A live block with its lines.
pub open spec fn block_view(s: StoreModel, path: Seq<i64>, f: Found) -> BlockView {
    let row = block_row(s, f.entity);
    BlockView {
        id: f.entity,
        title: row.title,
        zone: row.zone,
        change_id: f.change_id,
        lines: replay_lines(s, path, f.change_id),
    }
}

/// The views of live blocks.
pub open spec fn block_views(s: StoreModel, path: Seq<i64>, found: Seq<Found>) -> Seq<BlockView> {
    Seq::new(found.len(), |i: int| block_view(s, path, found[i]))
}

/// The live blocks of the card whose add record is `card_change_id`.
pub open spec fn blocks_in_card(s: StoreModel, path: Seq<i64>, card_change_id: i64) -> Seq<BlockView> {
    block_views(s, path, live(s, path, Level::Block, ScopeModel::Under(card_change_id)))
}

/// The live top-level blocks of a zone.
pub open spec fn blocks_by_zone(s: StoreModel, path: Seq<i64>, zone: Seq<char>) -> Seq<BlockView> {
    block_views(s, path, live(s, path, Level::Block, ScopeModel::Zone(zone)))
}

/// A live card with its blocks.
pub open spec fn card_view(s: StoreModel, path: Seq<i64>, f: Found) -> CardView {
    let row = card_row(s, f.entity);
    CardView {
        id: f.entity,
        name: row.name,
        desc: row.desc,
        key_word: row.key_word,
        trigger_system: row.trigger_system,
        trigger_user: row.trigger_user,
        trigger_ai: row.trigger_ai,
        change_id: f.change_id,
        blocks: blocks_in_card(s, path, f.change_id),
    }
}

/// The views of live cards.
pub open spec fn card_views(s: StoreModel, path: Seq<i64>, found: Seq<Found>) -> Seq<CardView> {
    Seq::new(found.len(), |i: int| card_view(s, path, found[i]))
}

/// The live cards of the folder whose add record is `folder_change_id`; for 0,
/// the live cards outside any folder as well.
pub open spec fn cards_in_folder(s: StoreModel, path: Seq<i64>, folder_change_id: i64) -> Seq<CardView> {
    card_views(s, path, live(s, path, Level::Card, ScopeModel::UnderOrTop(folder_change_id)))
}

/// A live folder with its cards.
pub open spec fn folder_view(s: StoreModel, path: Seq<i64>, f: Found) -> FolderView {
    FolderView {
        id: f.entity,
        name: folder_row(s, f.entity).name,
        change_id: f.change_id,
        cards: cards_in_folder(s, path, f.change_id),
    }
}

/// The views of live folders.
pub open spec fn folder_views(s: StoreModel, path: Seq<i64>, found: Seq<Found>) -> Seq<FolderView> {
    Seq::new(found.len(), |i: int| folder_view(s, path, found[i]))
}

/// The live folders at the end of a path.
pub open spec fn folders_on(s: StoreModel, path: Seq<i64>) -> Seq<FolderView> {
    folder_views(s, path, live(s, path, Level::Folder, ScopeModel::Any))
}

/// The content of a node: what replay along its path yields.
pub open spec fn node_content(s: StoreModel, node_id: i64) -> ContentView {
    let path = node_path(s, node_id);
    ContentView {
        node_id: node_id,
        folders: folders_on(s, path),
        pre: blocks_by_zone(s, path, "pre"@),
        post: blocks_by_zone(s, path, "post"@),
        global: blocks_by_zone(s, path, "global"@),
    }
}

pub open spec fn views_of_blocks(v: Seq<ReplayedBlock>) -> Seq<BlockView> {
    v.map_values(|b: ReplayedBlock| b@)
}

pub open spec fn views_of_cards(v: Seq<ReplayedCard>) -> Seq<CardView> {
    v.map_values(|c: ReplayedCard| c@)
}

pub open spec fn views_of_folders(v: Seq<ReplayedFolder>) -> Seq<FolderView> {
    v.map_values(|f: ReplayedFolder| f@)
}

fn build_blocks(store: &Store, path: &Vec<i64>, found: &Vec<Found>) -> (out: Vec<ReplayedBlock>)
    requires
        entries_exist(store@, Level::Block, found@),
    ensures
        views_of_blocks(out@) == block_views(store@, path@, found@),
{
    let mut out: Vec<ReplayedBlock> = Vec::new();
    let mut i: usize = 0;
    while i < found.len()
        invariant
            i <= found.len(),
            entries_exist(store@, Level::Block, found@),
            views_of_blocks(out@) == block_views(store@, path@, found@.take(i as int)),
        decreases found.len() - i,
    {
        let f = found[i];
        assert(block_ids(store@).contains(found@[i as int].entity));
        match store.find_block(f.entity) {
            Some(k) => {
                let row = &store.blocks[k];
                let lines = replay_lines_in_block(store, path, f.change_id);
                let block = ReplayedBlock {
                    id: f.entity,
                    title: row.title.clone(),
                    zone: row.zone.clone(),
                    change_id: f.change_id,
                    lines: lines,
                };
                assert(block@ == block_view(store@, path@, f));
                let ghost before = out@;
                out.push(block);
                assert(views_of_blocks(out@) =~= views_of_blocks(before).push(block@));
            },
            None => {},
        }
        assert(views_of_blocks(out@) =~= block_views(store@, path@, found@.take(i + 1)));
        i += 1;
    }
    assert(found@.take(found.len() as int) =~= found@);
    out
}

/// Replays the blocks of one card.
pub fn replay_blocks_in_card(store: &Store, path: &Vec<i64>, card_change_id: i64) -> (out: Vec<
    ReplayedBlock,
>)
    ensures
        views_of_blocks(out@) == blocks_in_card(store@, path@, card_change_id),
{
    let found = live_entries(store, path, Level::Block, &Scope::Under(card_change_id));
    build_blocks(store, path, &found)
}

/// Replays the top-level blocks of one zone.
pub fn replay_blocks_by_zone(store: &Store, path: &Vec<i64>, zone: &str) -> (out: Vec<ReplayedBlock>)
    ensures
        views_of_blocks(out@) == blocks_by_zone(store@, path@, zone@),
{
    let found = live_entries(store, path, Level::Block, &Scope::Zone(zone));
    build_blocks(store, path, &found)
}

/// Replays the cards of one folder.
pub fn replay_cards_in_folder(store: &Store, path: &Vec<i64>, folder_change_id: i64) -> (out: Vec<
    ReplayedCard,
>)
    ensures
        views_of_cards(out@) == cards_in_folder(store@, path@, folder_change_id),
{
    let found = live_entries(store, path, Level::Card, &Scope::UnderOrTop(folder_change_id));
    let mut out: Vec<ReplayedCard> = Vec::new();
    let mut i: usize = 0;
    while i < found.len()
        invariant
            i <= found.len(),
            entries_exist(store@, Level::Card, found@),
            views_of_cards(out@) == card_views(store@, path@, found@.take(i as int)),
        decreases found.len() - i,
    {
        let f = found[i];
        assert(card_ids(store@).contains(found@[i as int].entity));
        match store.find_card(f.entity) {
            Some(k) => {
                let row = &store.cards[k];
                let blocks = replay_blocks_in_card(store, path, f.change_id);
                let card = ReplayedCard {
                    id: f.entity,
                    name: row.name.clone(),
                    desc: row.desc.clone(),
                    key_word: row.key_word.clone(),
                    trigger_system: row.trigger_system,
                    trigger_user: row.trigger_user,
                    trigger_ai: row.trigger_ai,
                    change_id: f.change_id,
                    blocks: blocks,
                };
                assert(card@ == card_view(store@, path@, f));
                let ghost before = out@;
                out.push(card);
                assert(views_of_cards(out@) =~= views_of_cards(before).push(card@));
            },
            None => {},
        }
        assert(views_of_cards(out@) =~= card_views(store@, path@, found@.take(i + 1)));
        i += 1;
    }
    assert(found@.take(found.len() as int) =~= found@);
    out
}

/// Replays the folders at the end of a path.
pub fn replay_folders(store: &Store, path: &Vec<i64>) -> (out: Vec<ReplayedFolder>)
    ensures
        views_of_folders(out@) == folders_on(store@, path@),
{
    let found = live_entries(store, path, Level::Folder, &Scope::Any);
    let mut out: Vec<ReplayedFolder> = Vec::new();
    let mut i: usize = 0;
    while i < found.len()
        invariant
            i <= found.len(),
            entries_exist(store@, Level::Folder, found@),
            views_of_folders(out@) == folder_views(store@, path@, found@.take(i as int)),
        decreases found.len() - i,
    {
        let f = found[i];
        assert(folder_ids(store@).contains(found@[i as int].entity));
        match store.find_folder(f.entity) {
            Some(k) => {
                let row = &store.folders[k];
                let cards = replay_cards_in_folder(store, path, f.change_id);
                let folder = ReplayedFolder {
                    id: f.entity,
                    name: row.name.clone(),
                    change_id: f.change_id,
                    cards: cards,
                };
                assert(folder@ == folder_view(store@, path@, f));
                let ghost before = out@;
                out.push(folder);
                assert(views_of_folders(out@) =~= views_of_folders(before).push(folder@));
            },
            None => {},
        }
        assert(views_of_folders(out@) =~= folder_views(store@, path@, found@.take(i + 1)));
        i += 1;
    }
    assert(found@.take(found.len() as int) =~= found@);
    out
}

/// The content of a node, reconstructed from the change log. The result is a
/// function of the store and the node alone. `NotFound` where there is no such
/// node.
pub fn get_node_content(store: &Store, node_id: i64) -> (r: Result<NodeContent, EngineError>)
    ensures
        match first_index(node_ids(store@), node_id) {
            Some(_) => r is Ok && r->Ok_0@ == node_content(store@, node_id),
            None => r is Err && r->Err_0 == EngineError::NotFound,
        },
{
    if store.find_node(node_id).is_none() {
        return Err(EngineError::NotFound);
    }
    let path = walk_up(store, node_id);
    let folders = replay_folders(store, &path);
    let pre = replay_blocks_by_zone(store, &path, "pre");
    let post = replay_blocks_by_zone(store, &path, "post");
    let global = replay_blocks_by_zone(store, &path, "global");
    Ok(NodeContent { node_id: node_id, folders: folders, pre: pre, post: post, global: global })
}

} // verus!
