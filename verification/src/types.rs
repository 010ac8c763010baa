//! Rows of the six entity tables, the change log, and the replay results,
//! each with the mathematical view that the contracts speak of.

use crate::text::text_eq;
use vstd::prelude::*;
use vstd::string::StringExecFns;

verus! {

/// The kinds of failure an operation can report.
#[derive(Debug, Clone, Copy, PartialEq, Eq, Structural)]
pub enum EngineError {
    /// A node, a change record or an entity that the call names does not exist.
    NotFound,
    /// The call would create a cycle in the node tree, or uses a reserved name.
    InvalidOperation,
    /// The store cannot take another row.
    StorageFailure,
}

/// What a change record does.
#[derive(Debug, Clone, Copy, PartialEq, Eq, Structural)]
pub enum Action {
    Add,
    Del,
    Unknown,
}

/// The level of the content hierarchy that a change record is about.
#[derive(Debug, Clone, Copy, PartialEq, Eq, Structural)]
pub enum Level {
    Folder,
    Card,
    Block,
    Line,
    Unknown,
}

#[derive(Debug, Clone, PartialEq, Eq)]
pub struct WTProject {
    pub id: i64,
    pub name: String,
    pub project_type: String,
    pub current_node: Option<i64>,
    pub create_time: String,
    pub update_time: String,
}

pub struct ProjectRow {
    pub id: i64,
    pub name: Seq<char>,
    pub project_type: Seq<char>,
    pub current_node: Option<i64>,
    pub create_time: Seq<char>,
    pub update_time: Seq<char>,
}

impl View for WTProject {
    type V = ProjectRow;

    open spec fn view(&self) -> ProjectRow {
        ProjectRow {
            id: self.id,
            name: self.name@,
            project_type: self.project_type@,
            current_node: self.current_node,
            create_time: self.create_time@,
            update_time: self.update_time@,
        }
    }
}

/// A branch point of the content tree.
#[derive(Debug, Clone, PartialEq, Eq)]
pub struct WTNode {
    pub id: i64,
    pub project_id: i64,
    pub parent_id: Option<i64>,
    pub name: String,
    pub desc: String,
}

pub struct NodeRow {
    pub id: i64,
    pub project_id: i64,
    pub parent_id: Option<i64>,
    pub name: Seq<char>,
    pub desc: Seq<char>,
}

impl View for WTNode {
    type V = NodeRow;

    open spec fn view(&self) -> NodeRow {
        NodeRow {
            id: self.id,
            project_id: self.project_id,
            parent_id: self.parent_id,
            name: self.name@,
            desc: self.desc@,
        }
    }
}

#[derive(Debug, Clone, PartialEq, Eq)]
pub struct WTBranchTag {
    pub id: i64,
    pub parent_id: i64,
    pub child_id: i64,
    pub name: String,
    pub desc: String,
}

#[derive(Debug, Clone, PartialEq, Eq)]
pub struct WTFolder {
    pub id: i64,
    pub name: String,
}

pub struct FolderRow {
    pub id: i64,
    pub name: Seq<char>,
}

impl View for WTFolder {
    type V = FolderRow;

    open spec fn view(&self) -> FolderRow {
        FolderRow { id: self.id, name: self.name@ }
    }
}

#[derive(Debug, Clone, PartialEq, Eq)]
pub struct WTCard {
    pub id: i64,
    pub name: String,
    pub desc: String,
    pub key_word: String,
    pub image_word: String,
    pub trigger_mode: i32,
    pub trigger_system: bool,
    pub trigger_user: bool,
    pub trigger_ai: bool,
}

pub struct CardRow {
    pub id: i64,
    pub name: Seq<char>,
    pub desc: Seq<char>,
    pub key_word: Seq<char>,
    pub image_word: Seq<char>,
    pub trigger_mode: i32,
    pub trigger_system: bool,
    pub trigger_user: bool,
    pub trigger_ai: bool,
}

impl View for WTCard {
    type V = CardRow;

    open spec fn view(&self) -> CardRow {
        CardRow {
            id: self.id,
            name: self.name@,
            desc: self.desc@,
            key_word: self.key_word@,
            image_word: self.image_word@,
            trigger_mode: self.trigger_mode,
            trigger_system: self.trigger_system,
            trigger_user: self.trigger_user,
            trigger_ai: self.trigger_ai,
        }
    }
}

#[derive(Debug, Clone, PartialEq, Eq)]
pub struct WTBlock {
    pub id: i64,
    pub title: String,
    pub zone: String,
}

pub struct BlockRow {
    pub id: i64,
    pub title: Seq<char>,
    pub zone: Seq<char>,
}

impl View for WTBlock {
    type V = BlockRow;

    open spec fn view(&self) -> BlockRow {
        BlockRow { id: self.id, title: self.title@, zone: self.zone@ }
    }
}

/// One line of text. `position` is the id of the line that precedes it in its
/// block, or `None` for the head of a chain. `node_id` is the node at which
/// the line was made.
#[derive(Debug, Clone, PartialEq, Eq)]
pub struct WTLine {
    pub id: i64,
    pub sn: String,
    pub project_id: i64,
    pub content: String,
    pub position: Option<i64>,
    pub node_id: i64,
}

pub struct LineRow {
    pub id: i64,
    pub sn: Seq<char>,
    pub project_id: i64,
    pub content: Seq<char>,
    pub position: Option<i64>,
    pub node_id: i64,
}

impl View for WTLine {
    type V = LineRow;

    open spec fn view(&self) -> LineRow {
        LineRow {
            id: self.id,
            sn: self.sn@,
            project_id: self.project_id,
            content: self.content@,
            position: self.position,
            node_id: self.node_id,
        }
    }
}

/// One record of the change log. `action` is `"add"` or `"del"`, `level` one of
/// `"folder"`, `"card"`, `"block"`, `"line"`. For an add, `target` is the scope:
/// the id of the add record of the entity it nests under. For a delete,
/// `target` is the id of the add record that it invalidates.
#[derive(Debug, Clone, PartialEq, Eq)]
pub struct WTNodeChange {
    pub id: i64,
    pub action: String,
    pub level: String,
    pub node_id: i64,
    pub target: Option<i64>,
    pub detail_folder: Option<i64>,
    pub detail_card: Option<i64>,
    pub detail_block: Option<i64>,
    pub detail_line: Option<i64>,
}

/// A change record as the engine reads it: the tags of `WTNodeChange` decoded.
#[derive(Debug, Clone, Copy, PartialEq, Eq)]
pub struct ChangeRow {
    pub id: i64,
    pub action: Action,
    pub level: Level,
    pub node_id: i64,
    pub target: Option<i64>,
    pub detail_folder: Option<i64>,
    pub detail_card: Option<i64>,
    pub detail_block: Option<i64>,
    pub detail_line: Option<i64>,
}

/// The action that a tag names.
pub open spec fn action_of(tag: Seq<char>) -> Action {
    if tag == "add"@ {
        Action::Add
    } else if tag == "del"@ {
        Action::Del
    } else {
        Action::Unknown
    }
}

/// The level that a tag names.
pub open spec fn level_of(tag: Seq<char>) -> Level {
    if tag == "folder"@ {
        Level::Folder
    } else if tag == "card"@ {
        Level::Card
    } else if tag == "block"@ {
        Level::Block
    } else if tag == "line"@ {
        Level::Line
    } else {
        Level::Unknown
    }
}

/// The tags are six different texts.
pub proof fn lemma_tags_differ()
    ensures
        "add"@ != "del"@,
        "folder"@ != "card"@,
        "folder"@ != "block"@,
        "folder"@ != "line"@,
        "card"@ != "block"@,
        "card"@ != "line"@,
        "block"@ != "line"@,
{
    reveal_strlit("add");
    reveal_strlit("del");
    reveal_strlit("folder");
    reveal_strlit("card");
    reveal_strlit("block");
    reveal_strlit("line");
    assert("add"@[0] != "del"@[0]);
    assert("card"@[0] != "line"@[0]);
    assert("folder"@.len() != "card"@.len());
    assert("folder"@.len() != "block"@.len());
    assert("card"@.len() != "block"@.len());
    assert("block"@.len() != "line"@.len());
}

/// Reads the tag of an action.
pub fn parse_action(tag: &str) -> (a: Action)
    ensures
        a == action_of(tag@),
{
    if text_eq(tag, "add") {
        Action::Add
    } else if text_eq(tag, "del") {
        Action::Del
    } else {
        Action::Unknown
    }
}

/// Reads the tag of a level.
pub fn parse_level(tag: &str) -> (l: Level)
    ensures
        l == level_of(tag@),
{
    if text_eq(tag, "folder") {
        Level::Folder
    } else if text_eq(tag, "card") {
        Level::Card
    } else if text_eq(tag, "block") {
        Level::Block
    } else if text_eq(tag, "line") {
        Level::Line
    } else {
        Level::Unknown
    }
}

impl ChangeRow {
    /// The record with its tags written out. An unknown action or level is
    /// written as the empty tag.
    pub fn to_change(&self) -> (c: WTNodeChange)
        ensures
            c@ == *self,
    {
        proof {
            lemma_tags_differ();
            reveal_strlit("");
            reveal_strlit("add");
            reveal_strlit("del");
            reveal_strlit("folder");
            reveal_strlit("card");
            reveal_strlit("block");
            reveal_strlit("line");
        }
        let action = match self.action {
            Action::Add => String::from_str("add"),
            Action::Del => String::from_str("del"),
            Action::Unknown => String::from_str(""),
        };
        let level = match self.level {
            Level::Folder => String::from_str("folder"),
            Level::Card => String::from_str("card"),
            Level::Block => String::from_str("block"),
            Level::Line => String::from_str("line"),
            Level::Unknown => String::from_str(""),
        };
        proof {
            assert(""@.len() == 0);
            assert("add"@.len() == 3);
            assert("del"@.len() == 3);
            assert("folder"@.len() == 6);
            assert("card"@.len() == 4);
            assert("block"@.len() == 5);
            assert("line"@.len() == 4);
            assert(action_of(action@) == self.action);
            assert(level_of(level@) == self.level);
        }
        WTNodeChange {
            id: self.id,
            action: action,
            level: level,
            node_id: self.node_id,
            target: self.target,
            detail_folder: self.detail_folder,
            detail_card: self.detail_card,
            detail_block: self.detail_block,
            detail_line: self.detail_line,
        }
    }
}

impl WTNodeChange {
    /// The record with its tags decoded.
    pub fn to_row(&self) -> (r: ChangeRow)
        ensures
            r == self@,
    {
        ChangeRow {
            id: self.id,
            action: parse_action(self.action.as_str()),
            level: parse_level(self.level.as_str()),
            node_id: self.node_id,
            target: self.target,
            detail_folder: self.detail_folder,
            detail_card: self.detail_card,
            detail_block: self.detail_block,
            detail_line: self.detail_line,
        }
    }
}

impl View for WTNodeChange {
    type V = ChangeRow;

    open spec fn view(&self) -> ChangeRow {
        ChangeRow {
            id: self.id,
            action: action_of(self.action@),
            level: level_of(self.level@),
            node_id: self.node_id,
            target: self.target,
            detail_folder: self.detail_folder,
            detail_card: self.detail_card,
            detail_block: self.detail_block,
            detail_line: self.detail_line,
        }
    }
}

#[derive(Debug, Clone, PartialEq, Eq)]
pub struct ProjectInfo {
    pub id: i64,
    pub name: String,
    pub file_name: String,
    pub project_type: String,
    pub updated_at: String,
}

/// A live line as replay returns it. `content` is always there: the text of
/// the line as it was saved, the empty text for an empty line.
#[derive(Debug, Clone, PartialEq, Eq)]
pub struct ReplayedLine {
    pub id: i64,
    pub sn: String,
    pub content: Option<String>,
    pub sync_dot: String,
    pub change_id: i64,
}

pub struct LineView {
    pub id: i64,
    pub sn: Seq<char>,
    pub content: Option<Seq<char>>,
    pub sync_dot: Seq<char>,
    pub change_id: i64,
}

/// The view of an optional string.
pub open spec fn opt_text(o: Option<String>) -> Option<Seq<char>> {
    match o {
        Some(s) => Some(s@),
        None => None,
    }
}

impl View for ReplayedLine {
    type V = LineView;

    open spec fn view(&self) -> LineView {
        LineView {
            id: self.id,
            sn: self.sn@,
            content: opt_text(self.content),
            sync_dot: self.sync_dot@,
            change_id: self.change_id,
        }
    }
}

/// A live block with its ordered lines.
#[derive(Debug, Clone, PartialEq, Eq)]
pub struct ReplayedBlock {
    pub id: i64,
    pub title: String,
    pub zone: String,
    pub change_id: i64,
    pub lines: Vec<ReplayedLine>,
}

pub struct BlockView {
    pub id: i64,
    pub title: Seq<char>,
    pub zone: Seq<char>,
    pub change_id: i64,
    pub lines: Seq<LineView>,
}

impl View for ReplayedBlock {
    type V = BlockView;

    open spec fn view(&self) -> BlockView {
        BlockView {
            id: self.id,
            title: self.title@,
            zone: self.zone@,
            change_id: self.change_id,
            lines: self.lines@.map_values(|l: ReplayedLine| l@),
        }
    }
}

/// A live card with its blocks.
#[derive(Debug, Clone, PartialEq, Eq)]
pub struct ReplayedCard {
    pub id: i64,
    pub name: String,
    pub desc: String,
    pub key_word: String,
    pub trigger_system: bool,
    pub trigger_user: bool,
    pub trigger_ai: bool,
    pub change_id: i64,
    pub blocks: Vec<ReplayedBlock>,
}

pub struct CardView {
    pub id: i64,
    pub name: Seq<char>,
    pub desc: Seq<char>,
    pub key_word: Seq<char>,
    pub trigger_system: bool,
    pub trigger_user: bool,
    pub trigger_ai: bool,
    pub change_id: i64,
    pub blocks: Seq<BlockView>,
}

impl View for ReplayedCard {
    type V = CardView;

    open spec fn view(&self) -> CardView {
        CardView {
            id: self.id,
            name: self.name@,
            desc: self.desc@,
            key_word: self.key_word@,
            trigger_system: self.trigger_system,
            trigger_user: self.trigger_user,
            trigger_ai: self.trigger_ai,
            change_id: self.change_id,
            blocks: self.blocks@.map_values(|b: ReplayedBlock| b@),
        }
    }
}

/// A live folder with its cards.
#[derive(Debug, Clone, PartialEq, Eq)]
pub struct ReplayedFolder {
    pub id: i64,
    pub name: String,
    pub change_id: i64,
    pub cards: Vec<ReplayedCard>,
}

pub struct FolderView {
    pub id: i64,
    pub name: Seq<char>,
    pub change_id: i64,
    pub cards: Seq<CardView>,
}

impl View for ReplayedFolder {
    type V = FolderView;

    open spec fn view(&self) -> FolderView {
        FolderView {
            id: self.id,
            name: self.name@,
            change_id: self.change_id,
            cards: self.cards@.map_values(|c: ReplayedCard| c@),
        }
    }
}

/// The effective content of a node: its folders, and the top-level blocks of
/// the three zones.
#[derive(Debug, Clone, PartialEq, Eq)]
pub struct NodeContent {
    pub node_id: i64,
    pub folders: Vec<ReplayedFolder>,
    pub pre: Vec<ReplayedBlock>,
    pub post: Vec<ReplayedBlock>,
    pub global: Vec<ReplayedBlock>,
}

pub struct ContentView {
    pub node_id: i64,
    pub folders: Seq<FolderView>,
    pub pre: Seq<BlockView>,
    pub post: Seq<BlockView>,
    pub global: Seq<BlockView>,
}

impl View for NodeContent {
    type V = ContentView;

    open spec fn view(&self) -> ContentView {
        ContentView {
            node_id: self.node_id,
            folders: self.folders@.map_values(|f: ReplayedFolder| f@),
            pre: self.pre@.map_values(|b: ReplayedBlock| b@),
            post: self.post@.map_values(|b: ReplayedBlock| b@),
            global: self.global@.map_values(|b: ReplayedBlock| b@),
        }
    }
}

/// What a save returns of one line.
#[derive(Debug, Clone, PartialEq, Eq)]
pub struct LineData {
    pub content: Option<String>,
    pub sync_dot: String,
}

pub struct LineDataView {
    pub content: Option<Seq<char>>,
    pub sync_dot: Seq<char>,
}

impl View for LineData {
    type V = LineDataView;

    open spec fn view(&self) -> LineDataView {
        LineDataView { content: opt_text(self.content), sync_dot: self.sync_dot@ }
    }
}

/// What a save returns: for each block whose text was saved, in the order of
/// the request, the id of its add record and its lines after the save, each
/// under its serial.
#[derive(Debug, Clone, PartialEq, Eq)]
pub struct SaveNodeChangesResult {
    pub blocks: Vec<(i64, Vec<(String, LineData)>)>,
}

/// The sync dot of one line of a text.
#[derive(Debug, Clone, PartialEq, Eq)]
pub struct SyncDotStatus {
    pub line_index: i32,
    pub serial: String,
    pub shape: String,
    pub color: String,
}

#[derive(Debug, Clone, PartialEq, Eq)]
pub struct NodeDetailBlock {
    pub title: String,
    pub lines: Vec<(String, String)>,
}

/// When a card triggers: on which words, combined how, and for whom.
#[derive(Debug, Clone, PartialEq, Eq)]
pub struct NodeDetailTrigger {
    pub mode: String,
    pub words: Vec<String>,
    pub system: bool,
    pub user: bool,
    pub ai: bool,
}

#[derive(Debug, Clone, PartialEq, Eq)]
pub struct NodeDetailCard {
    pub name: String,
    pub desc: String,
    pub trigger: Option<NodeDetailTrigger>,
    pub content: Vec<(String, NodeDetailBlock)>,
    pub image: Vec<String>,
}

#[derive(Debug)]
pub struct NodeDetailFolder {
    pub name: String,
    pub cards: Vec<(String, NodeDetailCard)>,
    pub folders: Vec<(String, NodeDetailFolder)>,
}

/// The name and the description of a node, with its structure by name.
#[derive(Debug)]
pub struct NodeDetail {
    pub node_id: i64,
    pub name: String,
    pub desc: String,
    pub structure: Vec<(String, NodeDetailFolder)>,
}

/// One structural edit by name: `level` is `"folder"`, `"card"` or `"block"`,
/// `action` is `"add"` or `"del"`.
#[derive(Debug, Clone, PartialEq, Eq)]
pub struct ImmediateChange {
    pub name: String,
    pub action: String,
    pub level: String,
    pub target: Option<i64>,
}

#[derive(Debug, Clone, PartialEq, Eq)]
pub struct SaveFolderChange {
    pub name: Option<String>,
    pub desc: Option<String>,
}

#[derive(Debug, Clone, PartialEq, Eq)]
pub struct SaveCardChange {
    pub name: Option<String>,
    pub desc: Option<String>,
    pub trigger: Option<NodeDetailTrigger>,
    pub image: Vec<String>,
}

#[derive(Debug, Clone, PartialEq, Eq)]
pub struct SaveBlockChange {
    pub name: Option<String>,
    pub content: Option<String>,
}

/// The attribute edits of one save, each list keyed by the id of an add
/// record, written in decimal, and applied in order.
#[derive(Debug, Clone, PartialEq, Eq)]
pub struct SaveChanges {
    pub folder: Vec<(String, SaveFolderChange)>,
    pub card: Vec<(String, SaveCardChange)>,
    pub block: Vec<(String, SaveBlockChange)>,
}

#[derive(Debug, Clone, PartialEq, Eq)]
pub struct LineMarker {
    pub serial: String,
    pub marker_type: String,
    pub content: String,
    pub insert_before: String,
}

#[derive(Debug, Clone, PartialEq, Eq)]
pub struct ContentItem {
    pub id: String,
    pub serial: String,
    pub title: String,
    pub content: String,
    pub key_system: bool,
    pub key_user: bool,
    pub key_ai: bool,
    pub key_region: i32,
    pub value_region: i32,
    pub collapsed: bool,
}

} // verus!
