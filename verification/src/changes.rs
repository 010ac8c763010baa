//! Structural edits: each one appends a record to the change log of a node.
//!
//! An add creates the entity and records it under a scope; a delete records
//! the id of the add that it invalidates. Entities are never removed from
//! their tables, so content stays addressable on paths without the delete.

use crate::serial::{fresh_serial, generate_serial};
use crate::store::{
    block_ids, card_ids, ceiling, change_ids, change_row, entity_ids, first_index, folder_ids,
    lemma_ceiling, lemma_same_refs, line_ids, node_ids, within, Store, StoreModel,
};
use crate::text::{has_prefix, starts_with};
use crate::json::{block_spec_of, block_title, block_zone};
use crate::types::{
    action_of, level_of, opt_text, parse_action, parse_level, Action, BlockRow, CardRow,
    EngineError, FolderRow, ImmediateChange, Level, LineRow,
};
use vstd::prelude::*;

verus! {

/// Names with this prefix are kept for the system's own folders, cards and
/// blocks.
pub open spec fn reserved(name: Seq<char>) -> bool {
    has_prefix(name, "SYS_"@)
}

/// Why an edit at `node` with the reference `target` into the change log is
/// refused, if it is.
pub open spec fn edit_error(s: StoreModel, level: Level, node: i64, target: Option<i64>) -> Option<
    EngineError,
> {
    if !node_ids(s).contains(node) || (target is Some && !change_ids(s).contains(target->0)) {
        Some(EngineError::NotFound)
    } else if ceiling(entity_ids(s, level)) >= i64::MAX || ceiling(change_ids(s)) >= i64::MAX {
        Some(EngineError::StorageFailure)
    } else {
        None
    }
}

/// Why an add with a name is refused, if it is.
pub open spec fn add_error(
    s: StoreModel,
    level: Level,
    node: i64,
    target: Option<i64>,
    name: Seq<char>,
) -> Option<EngineError> {
    if reserved(name) {
        Some(EngineError::InvalidOperation)
    } else {
        edit_error(s, level, node, target)
    }
}

/// Why the record of a delete is refused, if it is: the node or the add
/// record that it names does not exist, or the log has no room.
pub open spec fn record_error(s: StoreModel, node: i64, target: i64) -> Option<EngineError> {
    if !node_ids(s).contains(node) || !change_ids(s).contains(target) {
        Some(EngineError::NotFound)
    } else if ceiling(change_ids(s)) >= i64::MAX {
        Some(EngineError::StorageFailure)
    } else {
        None
    }
}

/// The record of an add of the entity that the table of `level` holds last.
pub open spec fn recorded_add(s: StoreModel, level: Level, node: i64, target: Option<i64>) -> StoreModel {
    s.with_change(
        change_row(
            s.next_change_id() as i64,
            Action::Add,
            level,
            node,
            target,
            Some(ceiling(entity_ids(s, level)) as i64),
        ),
    )
}

/// The store after a folder is added.
pub open spec fn folder_added(s: StoreModel, node: i64, target: Option<i64>, name: Seq<char>) -> StoreModel {
    recorded_add(
        s.with_folder(FolderRow { id: (ceiling(entity_ids(s, Level::Folder)) + 1) as i64, name: name }),
        Level::Folder,
        node,
        target,
    )
}

/// The store after a card is added: it triggers for the user and the model,
/// not for the system.
pub open spec fn card_added(
    s: StoreModel,
    node: i64,
    target: Option<i64>,
    name: Seq<char>,
    key_word: Seq<char>,
) -> StoreModel {
    recorded_add(
        s.with_card(
            CardRow {
                id: (ceiling(entity_ids(s, Level::Card)) + 1) as i64,
                name: name,
                desc: Seq::<char>::empty(),
                key_word: key_word,
                image_word: Seq::<char>::empty(),
                trigger_mode: 0,
                trigger_system: false,
                trigger_user: true,
                trigger_ai: true,
            },
        ),
        Level::Card,
        node,
        target,
    )
}

/// The store after a block is added.
pub open spec fn block_added(
    s: StoreModel,
    node: i64,
    target: Option<i64>,
    title: Seq<char>,
    zone: Seq<char>,
) -> StoreModel {
    recorded_add(
        s.with_block(
            BlockRow { id: (ceiling(entity_ids(s, Level::Block)) + 1) as i64, title: title, zone: zone },
        ),
        Level::Block,
        node,
        target,
    )
}

/// The store after a line is added: the line gets the project's next serial
/// and no position.
pub open spec fn line_added(
    s: StoreModel,
    node: i64,
    project: i64,
    block: i64,
    content: Seq<char>,
) -> StoreModel {
    recorded_add(
        s.with_line(
            LineRow {
                id: (ceiling(entity_ids(s, Level::Line)) + 1) as i64,
                sn: fresh_serial(s.lines, project),
                project_id: project,
                content: content,
                position: None,
                node_id: node,
            },
        ),
        Level::Line,
        node,
        Some(block),
    )
}

/// The store after a delete is recorded.
pub open spec fn recorded_delete(s: StoreModel, level: Level, node: i64, target: i64) -> StoreModel {
    s.with_change(
        change_row(s.next_change_id() as i64, Action::Del, level, node, Some(target), None),
    )
}

/// Checks the references of an edit and the room for its rows.
fn guard(store: &Store, level: Level, node_id: i64, target: Option<i64>) -> (r: Result<(), EngineError>)
    requires
        store@.wf(),
    ensures
        match edit_error(store@, level, node_id, target) {
            Some(e) => r == Err::<(), EngineError>(e),
            None => r is Ok && within(target, change_ids(store@)),
        },
{
    if store.find_node(node_id).is_none() {
        return Err(EngineError::NotFound);
    }
    match target {
        Some(t) => {
            match store.find_change(t) {
                Some(k) => {
                    proof {
                        lemma_ceiling(change_ids(store@), k as int);
                    }
                },
                None => {
                    return Err(EngineError::NotFound);
                },
            }
        },
        None => {},
    }
    if store.last_entity_id(level) == i64::MAX || store.last_change_id() == i64::MAX {
        return Err(EngineError::StorageFailure);
    }
    Ok(())
}

/// Adds a folder at a node, under the folder whose add record is
/// `parent_change_id` if there is one. Returns the id of the add record.
pub fn add_folder_with_parent(
    store: &mut Store,
    node_id: i64,
    parent_change_id: Option<i64>,
    name: String,
) -> (r: Result<i64, EngineError>)
    requires
        old(store)@.wf(),
    ensures
        final(store)@.wf(),
        match add_error(old(store)@, Level::Folder, node_id, parent_change_id, name@) {
            Some(e) => r == Err::<i64, EngineError>(e) && final(store)@ == old(store)@,
            None => r == Ok::<i64, EngineError>(old(store)@.next_change_id() as i64) && final(store)@
                == folder_added(old(store)@, node_id, parent_change_id, name@),
        },
{
    if starts_with(name.as_str(), "SYS_") {
        return Err(EngineError::InvalidOperation);
    }
    match guard(store, Level::Folder, node_id, parent_change_id) {
        Err(e) => {
            return Err(e);
        },
        Ok(_) => {},
    }
    let id = store.push_folder(name);
    proof {
        crate::store::lemma_ceiling_kept(old(store)@, store@);
        assert(ceiling(folder_ids(store@)) == id) by {
            assert(folder_ids(store@) =~= folder_ids(old(store)@).push(id));
        }
    }
    let cid = store.push_change(Action::Add, Level::Folder, node_id, parent_change_id, Some(id));
    Ok(cid)
}

/// Adds a top-level folder at a node. Returns the id of the add record.
pub fn add_folder(store: &mut Store, node_id: i64, name: String) -> (r: Result<i64, EngineError>)
    requires
        old(store)@.wf(),
    ensures
        final(store)@.wf(),
        match add_error(old(store)@, Level::Folder, node_id, None, name@) {
            Some(e) => r == Err::<i64, EngineError>(e) && final(store)@ == old(store)@,
            None => r == Ok::<i64, EngineError>(old(store)@.next_change_id() as i64) && final(store)@
                == folder_added(old(store)@, node_id, None, name@),
        },
{
    add_folder_with_parent(store, node_id, None, name)
}

/// Adds a card at a node, in the folder whose add record is
/// `folder_change_id` if there is one. Returns the id of the add record.
pub fn add_card(
    store: &mut Store,
    node_id: i64,
    folder_change_id: Option<i64>,
    name: String,
    key_word: String,
) -> (r: Result<i64, EngineError>)
    requires
        old(store)@.wf(),
    ensures
        final(store)@.wf(),
        match add_error(old(store)@, Level::Card, node_id, folder_change_id, name@) {
            Some(e) => r == Err::<i64, EngineError>(e) && final(store)@ == old(store)@,
            None => r == Ok::<i64, EngineError>(old(store)@.next_change_id() as i64) && final(store)@
                == card_added(old(store)@, node_id, folder_change_id, name@, key_word@),
        },
{
    if starts_with(name.as_str(), "SYS_") {
        return Err(EngineError::InvalidOperation);
    }
    match guard(store, Level::Card, node_id, folder_change_id) {
        Err(e) => {
            return Err(e);
        },
        Ok(_) => {},
    }
    let id = store.push_card(name, String::new(), key_word, String::new(), 0, false, true, true);
    proof {
        crate::store::lemma_ceiling_kept(old(store)@, store@);
        assert(ceiling(card_ids(store@)) == id) by {
            assert(card_ids(store@) =~= card_ids(old(store)@).push(id));
        }
    }
    let cid = store.push_change(Action::Add, Level::Card, node_id, folder_change_id, Some(id));
    Ok(cid)
}

/// Adds a block at a node, in the card whose add record is `card_change_id`,
/// or at the top level of its zone. Returns the id of the add record.
pub fn add_block(
    store: &mut Store,
    node_id: i64,
    card_change_id: Option<i64>,
    title: String,
    zone: String,
) -> (r: Result<i64, EngineError>)
    requires
        old(store)@.wf(),
    ensures
        final(store)@.wf(),
        match add_error(old(store)@, Level::Block, node_id, card_change_id, title@) {
            Some(e) => r == Err::<i64, EngineError>(e) && final(store)@ == old(store)@,
            None => r == Ok::<i64, EngineError>(old(store)@.next_change_id() as i64) && final(store)@
                == block_added(old(store)@, node_id, card_change_id, title@, zone@),
        },
{
    if starts_with(title.as_str(), "SYS_") {
        return Err(EngineError::InvalidOperation);
    }
    match guard(store, Level::Block, node_id, card_change_id) {
        Err(e) => {
            return Err(e);
        },
        Ok(_) => {},
    }
    let id = store.push_block(title, zone);
    proof {
        crate::store::lemma_ceiling_kept(old(store)@, store@);
        assert(ceiling(block_ids(store@)) == id) by {
            assert(block_ids(store@) =~= block_ids(old(store)@).push(id));
        }
    }
    let cid = store.push_change(Action::Add, Level::Block, node_id, card_change_id, Some(id));
    Ok(cid)
}

/// Adds a line at a node to the block whose add record is `block_change_id`.
/// Returns the id of the add record.
pub fn add_line(
    store: &mut Store,
    node_id: i64,
    project_id: i64,
    block_change_id: i64,
    content: String,
) -> (r: Result<i64, EngineError>)
    requires
        old(store)@.wf(),
    ensures
        final(store)@.wf(),
        match edit_error(old(store)@, Level::Line, node_id, Some(block_change_id)) {
            Some(e) => r == Err::<i64, EngineError>(e) && final(store)@ == old(store)@,
            None => r == Ok::<i64, EngineError>(old(store)@.next_change_id() as i64) && final(store)@
                == line_added(old(store)@, node_id, project_id, block_change_id, content@),
        },
{
    match guard(store, Level::Line, node_id, Some(block_change_id)) {
        Err(e) => {
            return Err(e);
        },
        Ok(_) => {},
    }
    let sn = generate_serial(&store.lines, project_id);
    let id = store.push_line(sn, project_id, content, None, node_id);
    proof {
        crate::store::lemma_ceiling_kept(old(store)@, store@);
        assert(ceiling(line_ids(store@)) == id) by {
            assert(line_ids(store@) =~= line_ids(old(store)@).push(id));
        }
    }
    let cid = store.push_change(Action::Add, Level::Line, node_id, Some(block_change_id), Some(id));
    Ok(cid)
}

/// Records at a node the delete of the entity that the add record `target`
/// added. Returns the id of the delete record.
pub fn record_delete(store: &mut Store, level: Level, node_id: i64, target: i64) -> (r: Result<
    i64,
    EngineError,
>)
    requires
        old(store)@.wf(),
    ensures
        final(store)@.wf(),
        match record_error(old(store)@, node_id, target) {
            Some(e) => r == Err::<i64, EngineError>(e) && final(store)@ == old(store)@,
            None => r == Ok::<i64, EngineError>(old(store)@.next_change_id() as i64) && final(store)@
                == recorded_delete(old(store)@, level, node_id, target),
        },
{
    match guard(store, Level::Unknown, node_id, Some(target)) {
        Err(e) => {
            return Err(e);
        },
        Ok(_) => {},
    }
    let cid = store.push_change(Action::Del, level, node_id, Some(target), None);
    Ok(cid)
}

/// Deletes a folder at a node.
pub fn delete_folder(store: &mut Store, node_id: i64, folder_change_id: i64) -> (r: Result<
    i64,
    EngineError,
>)
    requires
        old(store)@.wf(),
    ensures
        final(store)@.wf(),
        match record_error(old(store)@, node_id, folder_change_id) {
            Some(e) => r == Err::<i64, EngineError>(e) && final(store)@ == old(store)@,
            None => r == Ok::<i64, EngineError>(old(store)@.next_change_id() as i64) && final(store)@
                == recorded_delete(old(store)@, Level::Folder, node_id, folder_change_id),
        },
{
    record_delete(store, Level::Folder, node_id, folder_change_id)
}

/// Deletes a card at a node.
pub fn delete_card(store: &mut Store, node_id: i64, card_change_id: i64) -> (r: Result<i64, EngineError>)
    requires
        old(store)@.wf(),
    ensures
        final(store)@.wf(),
        match record_error(old(store)@, node_id, card_change_id) {
            Some(e) => r == Err::<i64, EngineError>(e) && final(store)@ == old(store)@,
            None => r == Ok::<i64, EngineError>(old(store)@.next_change_id() as i64) && final(store)@
                == recorded_delete(old(store)@, Level::Card, node_id, card_change_id),
        },
{
    record_delete(store, Level::Card, node_id, card_change_id)
}

/// Deletes a block at a node.
pub fn delete_block(store: &mut Store, node_id: i64, block_change_id: i64) -> (r: Result<
    i64,
    EngineError,
>)
    requires
        old(store)@.wf(),
    ensures
        final(store)@.wf(),
        match record_error(old(store)@, node_id, block_change_id) {
            Some(e) => r == Err::<i64, EngineError>(e) && final(store)@ == old(store)@,
            None => r == Ok::<i64, EngineError>(old(store)@.next_change_id() as i64) && final(store)@
                == recorded_delete(old(store)@, Level::Block, node_id, block_change_id),
        },
{
    record_delete(store, Level::Block, node_id, block_change_id)
}

/// Deletes a line at a node.
pub fn delete_line(store: &mut Store, node_id: i64, line_change_id: i64) -> (r: Result<i64, EngineError>)
    requires
        old(store)@.wf(),
    ensures
        final(store)@.wf(),
        match record_error(old(store)@, node_id, line_change_id) {
            Some(e) => r == Err::<i64, EngineError>(e) && final(store)@ == old(store)@,
            None => r == Ok::<i64, EngineError>(old(store)@.next_change_id() as i64) && final(store)@
                == recorded_delete(old(store)@, Level::Line, node_id, line_change_id),
        },
{
    record_delete(store, Level::Line, node_id, line_change_id)
}

/// The store in which the folder `id` has this name.
pub open spec fn folder_named(s: StoreModel, id: i64, name: Seq<char>) -> StoreModel {
    match first_index(folder_ids(s), id) {
        Some(i) => StoreModel { folders: s.folders.update(i, FolderRow { name: name, ..s.folders[i] }), ..s },
        None => s,
    }
}

/// The store in which the block `id` has this title.
pub open spec fn block_titled(s: StoreModel, id: i64, title: Seq<char>) -> StoreModel {
    match first_index(block_ids(s), id) {
        Some(i) => StoreModel { blocks: s.blocks.update(i, BlockRow { title: title, ..s.blocks[i] }), ..s },
        None => s,
    }
}

/// The store in which the line `id` has this content.
pub open spec fn line_rewritten(s: StoreModel, id: i64, content: Seq<char>) -> StoreModel {
    match first_index(line_ids(s), id) {
        Some(i) => StoreModel { lines: s.lines.update(i, LineRow { content: content, ..s.lines[i] }), ..s },
        None => s,
    }
}

/// New values for the attributes of a card; `None` keeps what is there.
pub struct CardEdit {
    pub name: Option<String>,
    pub desc: Option<String>,
    pub key_word: Option<String>,
    pub image_word: Option<String>,
    pub trigger_mode: Option<i32>,
    pub triggers: Option<(bool, bool, bool)>,
}

pub struct CardEditView {
    pub name: Option<Seq<char>>,
    pub desc: Option<Seq<char>>,
    pub key_word: Option<Seq<char>>,
    pub image_word: Option<Seq<char>>,
    pub trigger_mode: Option<i32>,
    pub triggers: Option<(bool, bool, bool)>,
}

impl View for CardEdit {
    type V = CardEditView;

    open spec fn view(&self) -> CardEditView {
        CardEditView {
            name: opt_text(self.name),
            desc: opt_text(self.desc),
            key_word: opt_text(self.key_word),
            image_word: opt_text(self.image_word),
            trigger_mode: self.trigger_mode,
            triggers: self.triggers,
        }
    }
}

/// The edit that changes nothing.
pub open spec fn no_edit() -> CardEditView {
    CardEditView {
        name: None,
        desc: None,
        key_word: None,
        image_word: None,
        trigger_mode: None,
        triggers: None,
    }
}

/// A card row after an edit.
pub open spec fn edited_row(r: CardRow, e: CardEditView) -> CardRow {
    CardRow {
        id: r.id,
        name: match e.name {
            Some(x) => x,
            None => r.name,
        },
        desc: match e.desc {
            Some(x) => x,
            None => r.desc,
        },
        key_word: match e.key_word {
            Some(x) => x,
            None => r.key_word,
        },
        image_word: match e.image_word {
            Some(x) => x,
            None => r.image_word,
        },
        trigger_mode: match e.trigger_mode {
            Some(x) => x,
            None => r.trigger_mode,
        },
        trigger_system: match e.triggers {
            Some(t) => t.0,
            None => r.trigger_system,
        },
        trigger_user: match e.triggers {
            Some(t) => t.1,
            None => r.trigger_user,
        },
        trigger_ai: match e.triggers {
            Some(t) => t.2,
            None => r.trigger_ai,
        },
    }
}

/// The store in which the card `id` is edited.
pub open spec fn card_edited(s: StoreModel, id: i64, e: CardEditView) -> StoreModel {
    match first_index(card_ids(s), id) {
        Some(i) => StoreModel { cards: s.cards.update(i, edited_row(s.cards[i], e)), ..s },
        None => s,
    }
}

/// Renames a folder. `NotFound` where there is no such folder.
pub fn rename_folder(store: &mut Store, folder_id: i64, name: String) -> (r: Result<(), EngineError>)
    requires
        old(store)@.wf(),
    ensures
        final(store)@.wf(),
        final(store)@ == folder_named(old(store)@, folder_id, name@),
        r is Ok <==> folder_ids(old(store)@).contains(folder_id),
        r is Err ==> r == Err::<(), EngineError>(EngineError::NotFound),
{
    let at = match store.find_folder(folder_id) {
        Some(i) => i,
        None => {
            return Err(EngineError::NotFound);
        },
    };
    store.folders[at].name = name;
    proof {
        let s = old(store)@;
        let t = store@;
        assert(t.folders =~= folder_named(s, folder_id, name@).folders);
        assert(t =~= folder_named(s, folder_id, name@));
        assert(folder_ids(t) =~= folder_ids(s));
        crate::store::lemma_ceiling_kept(s, t);
        lemma_same_refs(s, t);
    }
    Ok(())
}

/// Replaces the title of a block. `NotFound` where there is no such block.
pub fn update_block_title(store: &mut Store, block_id: i64, title: String) -> (r: Result<(), EngineError>)
    requires
        old(store)@.wf(),
    ensures
        final(store)@.wf(),
        final(store)@ == block_titled(old(store)@, block_id, title@),
        r is Ok <==> block_ids(old(store)@).contains(block_id),
        r is Err ==> r == Err::<(), EngineError>(EngineError::NotFound),
{
    let at = match store.find_block(block_id) {
        Some(i) => i,
        None => {
            return Err(EngineError::NotFound);
        },
    };
    store.blocks[at].title = title;
    proof {
        let s = old(store)@;
        let t = store@;
        assert(t.blocks =~= block_titled(s, block_id, title@).blocks);
        assert(t =~= block_titled(s, block_id, title@));
        assert(block_ids(t) =~= block_ids(s));
        crate::store::lemma_ceiling_kept(s, t);
        lemma_same_refs(s, t);
    }
    Ok(())
}

/// Replaces the content of a line. `NotFound` where there is no such line.
pub fn update_line_content(store: &mut Store, line_id: i64, content: String) -> (r: Result<(), EngineError>)
    requires
        old(store)@.wf(),
    ensures
        final(store)@.wf(),
        final(store)@ == line_rewritten(old(store)@, line_id, content@),
        r is Ok <==> line_ids(old(store)@).contains(line_id),
        r is Err ==> r == Err::<(), EngineError>(EngineError::NotFound),
{
    let at = match store.find_line(line_id) {
        Some(i) => i,
        None => {
            return Err(EngineError::NotFound);
        },
    };
    store.lines[at].content = content;
    proof {
        let s = old(store)@;
        let t = store@;
        assert(t.lines =~= line_rewritten(s, line_id, content@).lines);
        assert(t =~= line_rewritten(s, line_id, content@));
        assert(line_ids(t) =~= line_ids(s));
        crate::store::lemma_ceiling_kept(s, t);
        lemma_same_refs(s, t);
    }
    Ok(())
}

/// Edits the attributes of a card. `NotFound` where there is no such card.
pub fn edit_card(store: &mut Store, card_id: i64, edit: CardEdit) -> (r: Result<(), EngineError>)
    requires
        old(store)@.wf(),
    ensures
        final(store)@.wf(),
        final(store)@ == card_edited(old(store)@, card_id, edit@),
        r is Ok <==> card_ids(old(store)@).contains(card_id),
        r is Err ==> r == Err::<(), EngineError>(EngineError::NotFound),
{
    let at = match store.find_card(card_id) {
        Some(i) => i,
        None => {
            return Err(EngineError::NotFound);
        },
    };
    let ghost e = edit@;
    let CardEdit { name, desc, key_word, image_word, trigger_mode, triggers } = edit;
    match name {
        Some(x) => {
            store.cards[at].name = x;
        },
        None => {},
    }
    match desc {
        Some(x) => {
            store.cards[at].desc = x;
        },
        None => {},
    }
    match key_word {
        Some(x) => {
            store.cards[at].key_word = x;
        },
        None => {},
    }
    match image_word {
        Some(x) => {
            store.cards[at].image_word = x;
        },
        None => {},
    }
    match trigger_mode {
        Some(x) => {
            store.cards[at].trigger_mode = x;
        },
        None => {},
    }
    match triggers {
        Some(t) => {
            store.cards[at].trigger_system = t.0;
            store.cards[at].trigger_user = t.1;
            store.cards[at].trigger_ai = t.2;
        },
        None => {},
    }
    proof {
        let s = old(store)@;
        let t = store@;
        assert(t.cards =~= card_edited(s, card_id, e).cards);
        assert(t =~= card_edited(s, card_id, e));
        assert(card_ids(t) =~= card_ids(s));
        crate::store::lemma_ceiling_kept(s, t);
        lemma_same_refs(s, t);
    }
    Ok(())
}

/// Replaces the key word of a card. `NotFound` where there is no such card.
pub fn update_card_key_word(store: &mut Store, card_id: i64, key_word: String) -> (r: Result<
    (),
    EngineError,
>)
    requires
        old(store)@.wf(),
    ensures
        final(store)@.wf(),
        final(store)@ == card_edited(
            old(store)@,
            card_id,
            CardEditView { key_word: Some(key_word@), ..no_edit() },
        ),
        r is Ok <==> card_ids(old(store)@).contains(card_id),
        r is Err ==> r == Err::<(), EngineError>(EngineError::NotFound),
{
    let edit = CardEdit {
        name: None,
        desc: None,
        key_word: Some(key_word),
        image_word: None,
        trigger_mode: None,
        triggers: None,
    };
    edit_card(store, card_id, edit)
}

/// Sets for whom a card triggers. `NotFound` where there is no such card.
pub fn update_card_triggers(
    store: &mut Store,
    card_id: i64,
    trigger_system: bool,
    trigger_user: bool,
    trigger_ai: bool,
) -> (r: Result<(), EngineError>)
    requires
        old(store)@.wf(),
    ensures
        final(store)@.wf(),
        final(store)@ == card_edited(
            old(store)@,
            card_id,
            CardEditView {
                triggers: Some((trigger_system, trigger_user, trigger_ai)),
                ..no_edit()
            },
        ),
        r is Ok <==> card_ids(old(store)@).contains(card_id),
        r is Err ==> r == Err::<(), EngineError>(EngineError::NotFound),
{
    edit_card(
        store,
        card_id,
        CardEdit {
            name: None,
            desc: None,
            key_word: None,
            image_word: None,
            trigger_mode: None,
            triggers: Some((trigger_system, trigger_user, trigger_ai)),
        },
    )
}

/// What an edit by name does: the error that refuses it, if any, and the store
/// after it. Folders, cards and blocks can be added and deleted. A folder is
/// added at the top level. The name of a block that is added may be a JSON
/// object with the members `title` and `zone`. A delete needs a target. Any
/// other level or action is refused.
pub open spec fn immediate_result(s: StoreModel, node: i64, change: ImmediateChange) -> (
    Option<EngineError>,
    StoreModel,
) {
    let name = change.name@;
    let deleted = |level: Level|
        match change.target {
            Some(t) => (
                record_error(s, node, t),
                recorded_delete(s, level, node, t),
            ),
            None => (Some(EngineError::InvalidOperation), s),
        };
    match level_of(change.level@) {
        Level::Folder => match action_of(change.action@) {
            Action::Add => (
                add_error(s, Level::Folder, node, None, name),
                folder_added(s, node, None, name),
            ),
            Action::Del => deleted(Level::Folder),
            Action::Unknown => (Some(EngineError::InvalidOperation), s),
        },
        Level::Card => match action_of(change.action@) {
            Action::Add => (
                add_error(s, Level::Card, node, change.target, name),
                card_added(s, node, change.target, name, Seq::<char>::empty()),
            ),
            Action::Del => deleted(Level::Card),
            Action::Unknown => (Some(EngineError::InvalidOperation), s),
        },
        Level::Block => match action_of(change.action@) {
            Action::Add => (
                add_error(s, Level::Block, node, change.target, block_title(name)),
                block_added(s, node, change.target, block_title(name), block_zone(name)),
            ),
            Action::Del => deleted(Level::Block),
            Action::Unknown => (Some(EngineError::InvalidOperation), s),
        },
        _ => (Some(EngineError::InvalidOperation), s),
    }
}

/// Makes one structural edit that is given by name. Returns the id of the
/// record that it appends.
pub fn immediate_change(store: &mut Store, node_id: i64, change: ImmediateChange) -> (r: Result<
    i64,
    EngineError,
>)
    requires
        old(store)@.wf(),
    ensures
        final(store)@.wf(),
        match immediate_result(old(store)@, node_id, change).0 {
            Some(e) => r == Err::<i64, EngineError>(e) && final(store)@ == old(store)@,
            None => r == Ok::<i64, EngineError>(old(store)@.next_change_id() as i64) && final(store)@
                == immediate_result(old(store)@, node_id, change).1,
        },
{
    let level = parse_level(change.level.as_str());
    let action = parse_action(change.action.as_str());
    match level {
        Level::Folder | Level::Card | Level::Block => {},
        _ => {
            return Err(EngineError::InvalidOperation);
        },
    }
    match action {
        Action::Add => match level {
            Level::Folder => add_folder(store, node_id, change.name),
            Level::Card => add_card(store, node_id, change.target, change.name, String::new()),
            _ => {
                let (title, zone) = block_spec_of(change.name.as_str());
                add_block(store, node_id, change.target, title, zone)
            },
        },
        Action::Del => match change.target {
            Some(t) => record_delete(store, level, node_id, t),
            None => Err(EngineError::InvalidOperation),
        },
        Action::Unknown => Err(EngineError::InvalidOperation),
    }
}

} // verus!
