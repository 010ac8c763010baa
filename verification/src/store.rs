//! The store: the six entity tables and the change log, held in memory.
//!
//! Every table is kept in ascending order of id, so the order of the change
//! log is the order of its ids, and no row refers to an id that its table has
//! not given out yet.

use crate::types::{
    Action, BlockRow, CardRow, ChangeRow, FolderRow, Level, LineRow, NodeRow, ProjectRow, WTBlock,
    WTCard, WTFolder, WTLine, WTNode, WTProject,
};
use vstd::prelude::*;

verus! {

/// The tables of a world tree. Rows are only ever appended, except for nodes,
/// whose parent can change, and lines, whose position can change.
#[derive(Debug, Clone, PartialEq, Eq)]
pub struct Store {
    pub projects: Vec<WTProject>,
    pub nodes: Vec<WTNode>,
    pub changes: Vec<ChangeRow>,
    pub folders: Vec<WTFolder>,
    pub cards: Vec<WTCard>,
    pub blocks: Vec<WTBlock>,
    pub lines: Vec<WTLine>,
}

/// The mathematical content of a store.
#[verifier::ext_equal]
pub struct StoreModel {
    pub projects: Seq<ProjectRow>,
    pub nodes: Seq<NodeRow>,
    pub changes: Seq<ChangeRow>,
    pub folders: Seq<FolderRow>,
    pub cards: Seq<CardRow>,
    pub blocks: Seq<BlockRow>,
    pub lines: Seq<LineRow>,
}

pub open spec fn project_rows(v: Seq<WTProject>) -> Seq<ProjectRow> {
    v.map_values(|r: WTProject| r@)
}

pub open spec fn node_rows(v: Seq<WTNode>) -> Seq<NodeRow> {
    v.map_values(|r: WTNode| r@)
}

pub open spec fn folder_rows(v: Seq<WTFolder>) -> Seq<FolderRow> {
    v.map_values(|r: WTFolder| r@)
}

pub open spec fn card_rows(v: Seq<WTCard>) -> Seq<CardRow> {
    v.map_values(|r: WTCard| r@)
}

pub open spec fn block_rows(v: Seq<WTBlock>) -> Seq<BlockRow> {
    v.map_values(|r: WTBlock| r@)
}

pub open spec fn line_rows(v: Seq<WTLine>) -> Seq<LineRow> {
    v.map_values(|r: WTLine| r@)
}

impl View for Store {
    type V = StoreModel;

    open spec fn view(&self) -> StoreModel {
        StoreModel {
            projects: project_rows(self.projects@),
            nodes: node_rows(self.nodes@),
            changes: self.changes@,
            folders: folder_rows(self.folders@),
            cards: card_rows(self.cards@),
            blocks: block_rows(self.blocks@),
            lines: line_rows(self.lines@),
        }
    }
}

/// Ids ascend strictly and start at 1 or above.
pub open spec fn ascending(ids: Seq<i64>) -> bool {
    &&& forall|i: int, j: int| 0 <= i < j < ids.len() ==> ids[i] < ids[j]
    &&& forall|i: int| 0 <= i < ids.len() ==> ids[i] >= 1
}

/// The greatest id that a table has given out, 0 for an empty table.
pub open spec fn ceiling(ids: Seq<i64>) -> int {
    if ids.len() == 0 {
        0
    } else {
        ids.last() as int
    }
}

/// A reference, where present, names an id that its table has given out.
pub open spec fn within(r: Option<i64>, ids: Seq<i64>) -> bool {
    r matches Some(x) ==> x <= ceiling(ids)
}

/// A reference, where present, names an id of the table.
pub open spec fn present(r: Option<i64>, ids: Seq<i64>) -> bool {
    r matches Some(x) ==> ids.contains(x)
}

/// Whether `i` is the first index at which `ids` holds `id`.
pub open spec fn is_first_index(ids: Seq<i64>, id: i64, i: int) -> bool {
    &&& 0 <= i < ids.len()
    &&& ids[i] == id
    &&& forall|j: int| 0 <= j < i ==> ids[j] != id
}

/// The first index at which `ids` holds `id`.
pub open spec fn first_index(ids: Seq<i64>, id: i64) -> Option<int> {
    if exists|i: int| is_first_index(ids, id, i) {
        Some(choose|i: int| is_first_index(ids, id, i))
    } else {
        None
    }
}

/// What a search for `id` in `ids` returns.
pub open spec fn located(r: Option<usize>, ids: Seq<i64>, id: i64) -> bool {
    match r {
        Some(i) => is_first_index(ids, id, i as int) && first_index(ids, id) == Some(i as int),
        None => first_index(ids, id) is None && !ids.contains(id),
    }
}

/// The first index is the only one that `first_index` can return.
pub proof fn lemma_first_index(ids: Seq<i64>, id: i64, i: int)
    requires
        is_first_index(ids, id, i),
    ensures
        first_index(ids, id) == Some(i),
{
    let k = choose|k: int| is_first_index(ids, id, k);
    assert(is_first_index(ids, id, k));
    if k < i {
        assert(ids[k] != id);
    }
    if i < k {
        assert(ids[i] != id);
    }
}

/// An id that occurs nowhere has no first index.
pub proof fn lemma_no_index(ids: Seq<i64>, id: i64)
    requires
        forall|j: int| 0 <= j < ids.len() ==> ids[j] != id,
    ensures
        first_index(ids, id) is None,
        !ids.contains(id),
{
}

/// Every id of an ascending table is at most its ceiling.
pub proof fn lemma_ceiling(ids: Seq<i64>, i: int)
    requires
        ascending(ids),
        0 <= i < ids.len(),
    ensures
        1 <= ids[i] <= ceiling(ids),
{
}

pub open spec fn project_ids(s: StoreModel) -> Seq<i64> {
    s.projects.map_values(|r: ProjectRow| r.id)
}

pub open spec fn node_ids(s: StoreModel) -> Seq<i64> {
    s.nodes.map_values(|r: NodeRow| r.id)
}

pub open spec fn change_ids(s: StoreModel) -> Seq<i64> {
    s.changes.map_values(|r: ChangeRow| r.id)
}

pub open spec fn folder_ids(s: StoreModel) -> Seq<i64> {
    s.folders.map_values(|r: FolderRow| r.id)
}

pub open spec fn card_ids(s: StoreModel) -> Seq<i64> {
    s.cards.map_values(|r: CardRow| r.id)
}

pub open spec fn block_ids(s: StoreModel) -> Seq<i64> {
    s.blocks.map_values(|r: BlockRow| r.id)
}

pub open spec fn line_ids(s: StoreModel) -> Seq<i64> {
    s.lines.map_values(|r: LineRow| r.id)
}

/// The entity that a change record refers to at a level.
pub open spec fn detail(c: ChangeRow, level: Level) -> Option<i64> {
    match level {
        Level::Folder => c.detail_folder,
        Level::Card => c.detail_card,
        Level::Block => c.detail_block,
        Level::Line => c.detail_line,
        Level::Unknown => None,
    }
}

/// The ids of the entities of a level.
pub open spec fn entity_ids(s: StoreModel, level: Level) -> Seq<i64> {
    match level {
        Level::Folder => folder_ids(s),
        Level::Card => card_ids(s),
        Level::Block => block_ids(s),
        Level::Line => line_ids(s),
        Level::Unknown => Seq::<i64>::empty(),
    }
}

/// A change record of `level` that refers to the entity `detail`.
pub open spec fn change_row(
    id: i64,
    action: Action,
    level: Level,
    node_id: i64,
    target: Option<i64>,
    detail: Option<i64>,
) -> ChangeRow {
    ChangeRow {
        id: id,
        action: action,
        level: level,
        node_id: node_id,
        target: target,
        detail_folder: if level == Level::Folder {
            detail
        } else {
            None
        },
        detail_card: if level == Level::Card {
            detail
        } else {
            None
        },
        detail_block: if level == Level::Block {
            detail
        } else {
            None
        },
        detail_line: if level == Level::Line {
            detail
        } else {
            None
        },
    }
}

impl StoreModel {
    /// The store with one more change record.
    pub open spec fn with_change(self, c: ChangeRow) -> StoreModel {
        StoreModel { changes: self.changes.push(c), ..self }
    }

    /// The store with one more line.
    pub open spec fn with_line(self, l: LineRow) -> StoreModel {
        StoreModel { lines: self.lines.push(l), ..self }
    }

    /// The store in which the line `id` has the position `position`.
    pub open spec fn repositioned(self, id: i64, position: Option<i64>) -> StoreModel {
        StoreModel {
            lines: Seq::new(
                self.lines.len(),
                |i: int|
                    if self.lines[i].id == id {
                        LineRow { position: position, ..self.lines[i] }
                    } else {
                        self.lines[i]
                    },
            ),
            ..self
        }
    }

    /// The store in which every line that followed the line `from` follows `to`.
    pub open spec fn relinked(self, from: i64, to: Option<i64>) -> StoreModel {
        StoreModel {
            lines: Seq::new(
                self.lines.len(),
                |i: int|
                    if self.lines[i].position == Some(from) {
                        LineRow { position: to, ..self.lines[i] }
                    } else {
                        self.lines[i]
                    },
            ),
            ..self
        }
    }

    /// The store with one more folder.
    pub open spec fn with_folder(self, r: FolderRow) -> StoreModel {
        StoreModel { folders: self.folders.push(r), ..self }
    }

    /// The store with one more card.
    pub open spec fn with_card(self, r: CardRow) -> StoreModel {
        StoreModel { cards: self.cards.push(r), ..self }
    }

    /// The store with one more block.
    pub open spec fn with_block(self, r: BlockRow) -> StoreModel {
        StoreModel { blocks: self.blocks.push(r), ..self }
    }

    /// The store with one more node.
    pub open spec fn with_node(self, r: NodeRow) -> StoreModel {
        StoreModel { nodes: self.nodes.push(r), ..self }
    }

    /// The store with one more project.
    pub open spec fn with_project(self, r: ProjectRow) -> StoreModel {
        StoreModel { projects: self.projects.push(r), ..self }
    }

    /// The id that the next change record gets.
    pub open spec fn next_change_id(self) -> int {
        ceiling(change_ids(self)) + 1
    }

    /// The id that the next line gets.
    pub open spec fn next_line_id(self) -> int {
        ceiling(line_ids(self)) + 1
    }

    /// The store's invariant: ids ascend in every table; the parent of a node
    /// and the node of a change record exist; every other reference that the
    /// engine follows names an id that its table has given out.
    pub open spec fn wf(self) -> bool {
        &&& ascending(project_ids(self))
        &&& ascending(node_ids(self))
        &&& ascending(change_ids(self))
        &&& ascending(folder_ids(self))
        &&& ascending(card_ids(self))
        &&& ascending(block_ids(self))
        &&& ascending(line_ids(self))
        &&& forall|i: int|
            0 <= i < self.nodes.len() ==> present(
                (#[trigger] self.nodes[i]).parent_id,
                node_ids(self),
            )
        &&& forall|i: int|
            0 <= i < self.lines.len() ==> within(
                (#[trigger] self.lines[i]).position,
                line_ids(self),
            )
        &&& forall|i: int| 0 <= i < self.changes.len() ==> self.change_refs_ok(#[trigger] self.changes[i])
    }

    /// The references of one change record are within their tables.
    pub open spec fn change_refs_ok(self, c: ChangeRow) -> bool {
        &&& node_ids(self).contains(c.node_id)
        &&& within(c.target, change_ids(self))
        &&& within(c.detail_folder, folder_ids(self))
        &&& within(c.detail_card, card_ids(self))
        &&& within(c.detail_block, block_ids(self))
        &&& within(c.detail_line, line_ids(self))
    }
}

/// A row of a table: it has an id.
pub trait Keyed {
    /// The id of the row.
    spec fn key(&self) -> i64;

    /// The id of the row.
    fn row_id(&self) -> (r: i64)
        ensures
            r == self.key(),
    ;
}

impl Keyed for WTProject {
    open spec fn key(&self) -> i64 {
        self.id
    }

    fn row_id(&self) -> (r: i64) {
        self.id
    }
}

impl Keyed for WTNode {
    open spec fn key(&self) -> i64 {
        self.id
    }

    fn row_id(&self) -> (r: i64) {
        self.id
    }
}

impl Keyed for ChangeRow {
    open spec fn key(&self) -> i64 {
        self.id
    }

    fn row_id(&self) -> (r: i64) {
        self.id
    }
}

impl Keyed for WTFolder {
    open spec fn key(&self) -> i64 {
        self.id
    }

    fn row_id(&self) -> (r: i64) {
        self.id
    }
}

impl Keyed for WTCard {
    open spec fn key(&self) -> i64 {
        self.id
    }

    fn row_id(&self) -> (r: i64) {
        self.id
    }
}

impl Keyed for WTBlock {
    open spec fn key(&self) -> i64 {
        self.id
    }

    fn row_id(&self) -> (r: i64) {
        self.id
    }
}

impl Keyed for WTLine {
    open spec fn key(&self) -> i64 {
        self.id
    }

    fn row_id(&self) -> (r: i64) {
        self.id
    }
}

/// The ids of the rows of a table.
pub open spec fn keys<T: Keyed>(rows: Seq<T>) -> Seq<i64> {
    Seq::new(rows.len(), |i: int| rows[i].key())
}

/// The index of the first row with this id.
pub fn find_row<T: Keyed>(rows: &Vec<T>, id: i64) -> (r: Option<usize>)
    ensures
        located(r, keys(rows@), id),
{
    let mut i: usize = 0;
    while i < rows.len()
        invariant
            i <= rows.len(),
            forall|j: int| 0 <= j < i ==> keys(rows@)[j] != id,
        decreases rows.len() - i,
    {
        if rows[i].row_id() == id {
            proof {
                lemma_first_index(keys(rows@), id, i as int);
            }
            return Some(i);
        }
        i += 1;
    }
    proof {
        lemma_no_index(keys(rows@), id);
    }
    None
}

/// The ids of the rows of a table, in a list.
pub fn ids_of<T: Keyed>(rows: &Vec<T>) -> (ids: Vec<i64>)
    ensures
        ids@ == keys(rows@),
{
    let mut ids: Vec<i64> = Vec::new();
    let mut i: usize = 0;
    while i < rows.len()
        invariant
            i <= rows.len(),
            ids@ == keys(rows@).take(i as int),
        decreases rows.len() - i,
    {
        ids.push(rows[i].row_id());
        assert(ids@ =~= keys(rows@).take(i + 1));
        i += 1;
    }
    assert(ids@ =~= keys(rows@));
    ids
}

/// The id of the last row of a table, 0 for an empty table.
pub fn last_row_id<T: Keyed>(rows: &Vec<T>) -> (r: i64)
    ensures
        r == ceiling(keys(rows@)),
{
    if rows.len() == 0 {
        0
    } else {
        rows[rows.len() - 1].row_id()
    }
}

impl Store {
    /// A store with no rows.
    pub fn new() -> (s: Store)
        ensures
            s@.wf(),
            crate::forest::is_forest(s@),
            s@.projects.len() == 0,
            s@.nodes.len() == 0,
            s@.changes.len() == 0,
            s@.folders.len() == 0,
            s@.cards.len() == 0,
            s@.blocks.len() == 0,
            s@.lines.len() == 0,
    {
        let s = Store {
            projects: Vec::new(),
            nodes: Vec::new(),
            changes: Vec::new(),
            folders: Vec::new(),
            cards: Vec::new(),
            blocks: Vec::new(),
            lines: Vec::new(),
        };
        proof {
            assert(crate::forest::ranked(s@, |x: i64| 0nat));
        }
        s
    }

    /// The index of the node with this id.
    pub fn find_node(&self, id: i64) -> (r: Option<usize>)
        ensures
            located(r, node_ids(self@), id),
    {
        proof {
            assert(keys(self.nodes@) =~= node_ids(self@));
        }
        find_row(&self.nodes, id)
    }

    /// The index of the change record with this id.
    pub fn find_change(&self, id: i64) -> (r: Option<usize>)
        ensures
            located(r, change_ids(self@), id),
    {
        proof {
            assert(keys(self.changes@) =~= change_ids(self@));
        }
        find_row(&self.changes, id)
    }

    /// The index of the folder with this id.
    pub fn find_folder(&self, id: i64) -> (r: Option<usize>)
        ensures
            located(r, folder_ids(self@), id),
    {
        proof {
            assert(keys(self.folders@) =~= folder_ids(self@));
        }
        find_row(&self.folders, id)
    }

    /// The index of the card with this id.
    pub fn find_card(&self, id: i64) -> (r: Option<usize>)
        ensures
            located(r, card_ids(self@), id),
    {
        proof {
            assert(keys(self.cards@) =~= card_ids(self@));
        }
        find_row(&self.cards, id)
    }

    /// The index of the block with this id.
    pub fn find_block(&self, id: i64) -> (r: Option<usize>)
        ensures
            located(r, block_ids(self@), id),
    {
        proof {
            assert(keys(self.blocks@) =~= block_ids(self@));
        }
        find_row(&self.blocks, id)
    }

    /// The index of the line with this id.
    pub fn find_line(&self, id: i64) -> (r: Option<usize>)
        ensures
            located(r, line_ids(self@), id),
    {
        proof {
            assert(keys(self.lines@) =~= line_ids(self@));
        }
        find_row(&self.lines, id)
    }
}

/// A table stays ascending when it grows by the id after its ceiling.
pub proof fn lemma_push_ascending(ids: Seq<i64>, id: i64)
    requires
        ascending(ids),
        id == ceiling(ids) + 1,
    ensures
        ascending(ids.push(id)),
        ceiling(ids.push(id)) == id,
{
    assert forall|i: int, j: int| 0 <= i < j < ids.push(id).len() implies ids.push(id)[i]
        < ids.push(id)[j] by {
        if j == ids.len() {
            lemma_ceiling(ids, i);
        }
    }
}

impl Store {
    /// The greatest id of the change log, 0 when it is empty.
    pub fn last_change_id(&self) -> (r: i64)
        requires
            self@.wf(),
        ensures
            r == ceiling(change_ids(self@)),
            r >= 0,
    {
        proof {
            assert(keys(self.changes@) =~= change_ids(self@));
            if self.changes.len() > 0 {
                lemma_ceiling(change_ids(self@), self.changes.len() - 1);
            }
        }
        last_row_id(&self.changes)
    }

    /// The greatest id of the lines, 0 when there is none.
    pub fn last_line_id(&self) -> (r: i64)
        requires
            self@.wf(),
        ensures
            r == ceiling(line_ids(self@)),
            r >= 0,
    {
        proof {
            assert(keys(self.lines@) =~= line_ids(self@));
            if self.lines.len() > 0 {
                lemma_ceiling(line_ids(self@), self.lines.len() - 1);
            }
        }
        last_row_id(&self.lines)
    }

    /// Appends a change record and returns its id.
    pub fn push_change(
        &mut self,
        action: Action,
        level: Level,
        node_id: i64,
        target: Option<i64>,
        detail: Option<i64>,
    ) -> (id: i64)
        requires
            old(self)@.wf(),
            ceiling(change_ids(old(self)@)) < i64::MAX,
            node_ids(old(self)@).contains(node_id),
            within(target, change_ids(old(self)@)),
            within(detail, entity_ids(old(self)@, level)),
        ensures
            id == old(self)@.next_change_id(),
            final(self)@ == old(self)@.with_change(
                change_row(id, action, level, node_id, target, detail),
            ),
            final(self)@.wf(),
    {
        let id = self.last_change_id() + 1;
        let row = ChangeRow {
            id: id,
            action: action,
            level: level,
            node_id: node_id,
            target: target,
            detail_folder: match level {
                Level::Folder => detail,
                _ => None,
            },
            detail_card: match level {
                Level::Card => detail,
                _ => None,
            },
            detail_block: match level {
                Level::Block => detail,
                _ => None,
            },
            detail_line: match level {
                Level::Line => detail,
                _ => None,
            },
        };
        proof {
            lemma_push_ascending(change_ids(self@), id);
            assert(change_ids(self@.with_change(row)) =~= change_ids(self@).push(id));
        }
        self.changes.push(row);
        proof {
            assert(self@ =~= old(self)@.with_change(row));
            let s = self@;
            assert forall|i: int| 0 <= i < s.changes.len() implies s.change_refs_ok(
                #[trigger] s.changes[i],
            ) by {
                if i < old(self)@.changes.len() {
                    assert(old(self)@.change_refs_ok(old(self)@.changes[i]));
                }
            }
        }
        id
    }

    /// Appends a line and returns its id.
    pub fn push_line(
        &mut self,
        sn: String,
        project_id: i64,
        content: String,
        position: Option<i64>,
        node_id: i64,
    ) -> (id: i64)
        requires
            old(self)@.wf(),
            ceiling(line_ids(old(self)@)) < i64::MAX,
            within(position, line_ids(old(self)@)),
        ensures
            id == old(self)@.next_line_id(),
            final(self)@ == old(self)@.with_line(
                LineRow {
                    id: id,
                    sn: sn@,
                    project_id: project_id,
                    content: content@,
                    position: position,
                    node_id: node_id,
                },
            ),
            final(self)@.wf(),
    {
        let id = self.last_line_id() + 1;
        let row = WTLine {
            id: id,
            sn: sn,
            project_id: project_id,
            content: content,
            position: position,
            node_id: node_id,
        };
        proof {
            lemma_push_ascending(line_ids(self@), id);
            assert(line_ids(self@.with_line(row@)) =~= line_ids(self@).push(id));
        }
        self.lines.push(row);
        proof {
            assert(self@ =~= old(self)@.with_line(row@));
            let s = self@;
            assert forall|i: int| 0 <= i < s.changes.len() implies s.change_refs_ok(
                #[trigger] s.changes[i],
            ) by {
                assert(old(self)@.change_refs_ok(old(self)@.changes[i]));
            }
            assert forall|i: int| 0 <= i < s.lines.len() implies within(
                (#[trigger] s.lines[i]).position,
                line_ids(s),
            ) by {
                if i < old(self)@.lines.len() {
                    assert(within(old(self)@.lines[i].position, line_ids(old(self)@)));
                }
            }
        }
        id
    }

    /// Gives the line `id` a new position.
    pub fn set_position(&mut self, id: i64, position: Option<i64>)
        requires
            old(self)@.wf(),
            within(position, line_ids(old(self)@)),
        ensures
            final(self)@ == old(self)@.repositioned(id, position),
            final(self)@.wf(),
    {
        let mut i: usize = 0;
        while i < self.lines.len()
            invariant
                i <= self.lines.len(),
                self.lines.len() == old(self).lines.len(),
                self.projects == old(self).projects,
                self.nodes == old(self).nodes,
                self.changes == old(self).changes,
                self.folders == old(self).folders,
                self.cards == old(self).cards,
                self.blocks == old(self).blocks,
                forall|j: int|
                    0 <= j < i ==> (#[trigger] self.lines@[j])@ == old(self)@.repositioned(
                        id,
                        position,
                    ).lines[j],
                forall|j: int|
                    i <= j < self.lines.len() ==> #[trigger] self.lines@[j] == old(self).lines@[j],
            decreases self.lines.len() - i,
        {
            if self.lines[i].id == id {
                self.lines[i].position = position;
            }
            i += 1;
        }
        proof {
            assert(self@.lines =~= old(self)@.repositioned(id, position).lines);
            assert(self@ =~= old(self)@.repositioned(id, position));
            lemma_lines_touched(old(self)@, self@, position);
        }
    }

    /// Makes every line that followed the line `from` follow `to`.
    pub fn relink(&mut self, from: i64, to: Option<i64>)
        requires
            old(self)@.wf(),
            within(to, line_ids(old(self)@)),
        ensures
            final(self)@ == old(self)@.relinked(from, to),
            final(self)@.wf(),
    {
        let mut i: usize = 0;
        while i < self.lines.len()
            invariant
                i <= self.lines.len(),
                self.lines.len() == old(self).lines.len(),
                self.projects == old(self).projects,
                self.nodes == old(self).nodes,
                self.changes == old(self).changes,
                self.folders == old(self).folders,
                self.cards == old(self).cards,
                self.blocks == old(self).blocks,
                forall|j: int|
                    0 <= j < i ==> (#[trigger] self.lines@[j])@ == old(self)@.relinked(
                        from,
                        to,
                    ).lines[j],
                forall|j: int|
                    i <= j < self.lines.len() ==> #[trigger] self.lines@[j] == old(self).lines@[j],
            decreases self.lines.len() - i,
        {
            let hit = match self.lines[i].position {
                Some(p) => p == from,
                None => false,
            };
            if hit {
                self.lines[i].position = to;
            }
            i += 1;
        }
        proof {
            assert(self@.lines =~= old(self)@.relinked(from, to).lines);
            assert(self@ =~= old(self)@.relinked(from, to));
            lemma_lines_touched(old(self)@, self@, to);
        }
    }
}

/// A store stays well formed when some of its lines get a position that is
/// within the table.
pub proof fn lemma_lines_touched(s: StoreModel, t: StoreModel, position: Option<i64>)
    requires
        s.wf(),
        within(position, line_ids(s)),
        t.projects == s.projects,
        t.nodes == s.nodes,
        t.changes == s.changes,
        t.folders == s.folders,
        t.cards == s.cards,
        t.blocks == s.blocks,
        t.lines.len() == s.lines.len(),
        forall|i: int|
            0 <= i < s.lines.len() ==> (#[trigger] t.lines[i]).id == s.lines[i].id && (t.lines[i].position
                == s.lines[i].position || t.lines[i].position == position),
    ensures
        t.wf(),
        line_ids(t) == line_ids(s),
{
    assert(line_ids(t) =~= line_ids(s));
    assert(project_ids(t) =~= project_ids(s));
    assert(node_ids(t) =~= node_ids(s));
    assert(change_ids(t) =~= change_ids(s));
    assert(folder_ids(t) =~= folder_ids(s));
    assert(card_ids(t) =~= card_ids(s));
    assert(block_ids(t) =~= block_ids(s));
    assert forall|i: int| 0 <= i < t.changes.len() implies t.change_refs_ok(
        #[trigger] t.changes[i],
    ) by {
        assert(s.change_refs_ok(s.changes[i]));
    }
    assert forall|i: int| 0 <= i < t.lines.len() implies within(
        (#[trigger] t.lines[i]).position,
        line_ids(t),
    ) by {
        assert(within(s.lines[i].position, line_ids(s)));
    }
    assert forall|i: int| 0 <= i < t.nodes.len() implies present(
        (#[trigger] t.nodes[i]).parent_id,
        node_ids(t),
    ) by {
        assert(present(s.nodes[i].parent_id, node_ids(s)));
    }
}

/// `new` is `old`, or `old` with one more id: the one after its ceiling.
pub open spec fn ids_grown(old: Seq<i64>, new: Seq<i64>) -> bool {
    new == old || (ceiling(old) < i64::MAX && new == old.push((ceiling(old) + 1) as i64))
}

/// A store stays well formed when its tables grow at the end, by rows with the
/// next id whose references are within the tables, and the rows that were
/// there keep their references.
pub proof fn lemma_grown(s: StoreModel, t: StoreModel)
    requires
        s.wf(),
        ids_grown(project_ids(s), project_ids(t)),
        ids_grown(node_ids(s), node_ids(t)),
        ids_grown(change_ids(s), change_ids(t)),
        ids_grown(folder_ids(s), folder_ids(t)),
        ids_grown(card_ids(s), card_ids(t)),
        ids_grown(block_ids(s), block_ids(t)),
        ids_grown(line_ids(s), line_ids(t)),
        forall|i: int|
            0 <= i < t.nodes.len() ==> (if i < s.nodes.len() {
                (#[trigger] t.nodes[i]).parent_id == s.nodes[i].parent_id
            } else {
                present(t.nodes[i].parent_id, node_ids(t))
            }),
        forall|i: int|
            0 <= i < t.lines.len() ==> (if i < s.lines.len() {
                (#[trigger] t.lines[i]).position == s.lines[i].position
            } else {
                within(t.lines[i].position, line_ids(t))
            }),
        forall|i: int|
            0 <= i < t.changes.len() ==> (if i < s.changes.len() {
                #[trigger] t.changes[i] == s.changes[i]
            } else {
                t.change_refs_ok(t.changes[i])
            }),
    ensures
        t.wf(),
{
    lemma_ids_grown(project_ids(s), project_ids(t));
    lemma_ids_grown(node_ids(s), node_ids(t));
    lemma_ids_grown(change_ids(s), change_ids(t));
    lemma_ids_grown(folder_ids(s), folder_ids(t));
    lemma_ids_grown(card_ids(s), card_ids(t));
    lemma_ids_grown(block_ids(s), block_ids(t));
    lemma_ids_grown(line_ids(s), line_ids(t));
    assert(s.nodes.len() == node_ids(s).len());
    assert(t.nodes.len() == node_ids(t).len());
    assert(s.lines.len() == line_ids(s).len());
    assert(t.lines.len() == line_ids(t).len());
    assert(s.changes.len() == change_ids(s).len());
    assert(t.changes.len() == change_ids(t).len());
    assert forall|i: int| 0 <= i < t.nodes.len() implies present(
        (#[trigger] t.nodes[i]).parent_id,
        node_ids(t),
    ) by {
        if i < s.nodes.len() {
            assert(present(s.nodes[i].parent_id, node_ids(s)));
            lemma_grown_holds(node_ids(s), node_ids(t));
        }
    }
    assert forall|i: int| 0 <= i < t.lines.len() implies within(
        (#[trigger] t.lines[i]).position,
        line_ids(t),
    ) by {
        if i < s.lines.len() {
            assert(within(s.lines[i].position, line_ids(s)));
        }
    }
    assert forall|i: int| 0 <= i < t.changes.len() implies t.change_refs_ok(
        #[trigger] t.changes[i],
    ) by {
        if i < s.changes.len() {
            assert(s.change_refs_ok(s.changes[i]));
            lemma_grown_holds(node_ids(s), node_ids(t));
        }
    }
}

/// A grown table holds every id that it held.
pub proof fn lemma_grown_holds(old: Seq<i64>, new: Seq<i64>)
    requires
        ids_grown(old, new),
    ensures
        forall|x: i64| old.contains(x) ==> new.contains(x),
{
    assert forall|x: i64| old.contains(x) implies new.contains(x) by {
        let w = choose|w: int| 0 <= w < old.len() && old[w] == x;
        assert(new[w] == x);
    }
}

/// A grown table is ascending, as long as it was, and its ceiling did not sink.
pub proof fn lemma_ids_grown(old: Seq<i64>, new: Seq<i64>)
    requires
        ascending(old),
        ids_grown(old, new),
    ensures
        ascending(new),
        ceiling(old) <= ceiling(new),
        old.len() <= new.len(),
        0 <= ceiling(old),
{
    if old.len() > 0 {
        lemma_ceiling(old, old.len() - 1);
    }
    if new != old {
        lemma_push_ascending(old, (ceiling(old) + 1) as i64);
    }
}

impl Store {
    /// The greatest id of the nodes, 0 when there is none.
    pub fn last_node_id(&self) -> (r: i64)
        requires
            self@.wf(),
        ensures
            r == ceiling(node_ids(self@)),
            r >= 0,
    {
        proof {
            assert(keys(self.nodes@) =~= node_ids(self@));
            if self.nodes.len() > 0 {
                lemma_ceiling(node_ids(self@), self.nodes.len() - 1);
            }
        }
        last_row_id(&self.nodes)
    }

    /// The greatest id of the projects, 0 when there is none.
    pub fn last_project_id(&self) -> (r: i64)
        requires
            self@.wf(),
        ensures
            r == ceiling(project_ids(self@)),
            r >= 0,
    {
        proof {
            assert(keys(self.projects@) =~= project_ids(self@));
            if self.projects.len() > 0 {
                lemma_ceiling(project_ids(self@), self.projects.len() - 1);
            }
        }
        last_row_id(&self.projects)
    }

    /// The greatest id of the folders, 0 when there is none.
    pub fn last_folder_id(&self) -> (r: i64)
        requires
            self@.wf(),
        ensures
            r == ceiling(folder_ids(self@)),
            r >= 0,
    {
        proof {
            assert(keys(self.folders@) =~= folder_ids(self@));
            if self.folders.len() > 0 {
                lemma_ceiling(folder_ids(self@), self.folders.len() - 1);
            }
        }
        last_row_id(&self.folders)
    }

    /// The greatest id of the cards, 0 when there is none.
    pub fn last_card_id(&self) -> (r: i64)
        requires
            self@.wf(),
        ensures
            r == ceiling(card_ids(self@)),
            r >= 0,
    {
        proof {
            assert(keys(self.cards@) =~= card_ids(self@));
            if self.cards.len() > 0 {
                lemma_ceiling(card_ids(self@), self.cards.len() - 1);
            }
        }
        last_row_id(&self.cards)
    }

    /// The greatest id of the blocks, 0 when there is none.
    pub fn last_block_id(&self) -> (r: i64)
        requires
            self@.wf(),
        ensures
            r == ceiling(block_ids(self@)),
            r >= 0,
    {
        proof {
            assert(keys(self.blocks@) =~= block_ids(self@));
            if self.blocks.len() > 0 {
                lemma_ceiling(block_ids(self@), self.blocks.len() - 1);
            }
        }
        last_row_id(&self.blocks)
    }

    /// The greatest id that the table of `level` has given out.
    pub fn last_entity_id(&self, level: Level) -> (r: i64)
        requires
            self@.wf(),
        ensures
            r == ceiling(entity_ids(self@, level)),
            r >= 0,
    {
        match level {
            Level::Folder => self.last_folder_id(),
            Level::Card => self.last_card_id(),
            Level::Block => self.last_block_id(),
            Level::Line => self.last_line_id(),
            Level::Unknown => 0,
        }
    }

    /// Appends a folder and returns its id.
    pub fn push_folder(&mut self, name: String) -> (id: i64)
        requires
            old(self)@.wf(),
            ceiling(folder_ids(old(self)@)) < i64::MAX,
        ensures
            id == ceiling(folder_ids(old(self)@)) + 1,
            final(self)@ == old(self)@.with_folder(FolderRow { id: id, name: name@ }),
            final(self)@.wf(),
    {
        let id = self.last_folder_id() + 1;
        let row = WTFolder { id: id, name: name };
        self.folders.push(row);
        proof {
            assert(self@ =~= old(self)@.with_folder(row@));
            assert(folder_ids(self@) =~= folder_ids(old(self)@).push(id));
            lemma_ceiling_kept(old(self)@, self@);
            lemma_grown(old(self)@, self@);
        }
        id
    }

    /// Appends a card and returns its id.
    pub fn push_card(&mut self, name: String, desc: String, key_word: String, image_word: String,
        trigger_mode: i32, trigger_system: bool, trigger_user: bool, trigger_ai: bool) -> (id: i64)
        requires
            old(self)@.wf(),
            ceiling(card_ids(old(self)@)) < i64::MAX,
        ensures
            id == ceiling(card_ids(old(self)@)) + 1,
            final(self)@ == old(self)@.with_card(
                CardRow {
                    id: id,
                    name: name@,
                    desc: desc@,
                    key_word: key_word@,
                    image_word: image_word@,
                    trigger_mode: trigger_mode,
                    trigger_system: trigger_system,
                    trigger_user: trigger_user,
                    trigger_ai: trigger_ai,
                },
            ),
            final(self)@.wf(),
    {
        let id = self.last_card_id() + 1;
        let row = WTCard {
            id: id,
            name: name,
            desc: desc,
            key_word: key_word,
            image_word: image_word,
            trigger_mode: trigger_mode,
            trigger_system: trigger_system,
            trigger_user: trigger_user,
            trigger_ai: trigger_ai,
        };
        self.cards.push(row);
        proof {
            assert(self@ =~= old(self)@.with_card(row@));
            assert(card_ids(self@) =~= card_ids(old(self)@).push(id));
            lemma_ceiling_kept(old(self)@, self@);
            lemma_grown(old(self)@, self@);
        }
        id
    }

    /// Appends a block and returns its id.
    pub fn push_block(&mut self, title: String, zone: String) -> (id: i64)
        requires
            old(self)@.wf(),
            ceiling(block_ids(old(self)@)) < i64::MAX,
        ensures
            id == ceiling(block_ids(old(self)@)) + 1,
            final(self)@ == old(self)@.with_block(BlockRow { id: id, title: title@, zone: zone@ }),
            final(self)@.wf(),
    {
        let id = self.last_block_id() + 1;
        let row = WTBlock { id: id, title: title, zone: zone };
        self.blocks.push(row);
        proof {
            assert(self@ =~= old(self)@.with_block(row@));
            assert(block_ids(self@) =~= block_ids(old(self)@).push(id));
            lemma_ceiling_kept(old(self)@, self@);
            lemma_grown(old(self)@, self@);
        }
        id
    }

    /// Appends a node and returns its id.
    pub fn push_node(&mut self, project_id: i64, parent_id: Option<i64>, name: String, desc: String) -> (id:
        i64)
        requires
            old(self)@.wf(),
            ceiling(node_ids(old(self)@)) < i64::MAX,
            present(parent_id, node_ids(old(self)@)),
        ensures
            id == ceiling(node_ids(old(self)@)) + 1,
            final(self)@ == old(self)@.with_node(
                NodeRow {
                    id: id,
                    project_id: project_id,
                    parent_id: parent_id,
                    name: name@,
                    desc: desc@,
                },
            ),
            final(self)@.wf(),
    {
        let id = self.last_node_id() + 1;
        let row = WTNode {
            id: id,
            project_id: project_id,
            parent_id: parent_id,
            name: name,
            desc: desc,
        };
        self.nodes.push(row);
        proof {
            assert(self@ =~= old(self)@.with_node(row@));
            assert(node_ids(self@) =~= node_ids(old(self)@).push(id));
            lemma_ceiling_kept(old(self)@, self@);
            lemma_grown_holds(node_ids(old(self)@), node_ids(self@));
            lemma_grown(old(self)@, self@);
        }
        id
    }

    /// Appends a project and returns its id.
    pub fn push_project(&mut self, name: String, project_type: String, current_node: Option<i64>,
        create_time: String, update_time: String) -> (id: i64)
        requires
            old(self)@.wf(),
            ceiling(project_ids(old(self)@)) < i64::MAX,
        ensures
            id == ceiling(project_ids(old(self)@)) + 1,
            final(self)@ == old(self)@.with_project(
                ProjectRow {
                    id: id,
                    name: name@,
                    project_type: project_type@,
                    current_node: current_node,
                    create_time: create_time@,
                    update_time: update_time@,
                },
            ),
            final(self)@.wf(),
    {
        let id = self.last_project_id() + 1;
        let row = WTProject {
            id: id,
            name: name,
            project_type: project_type,
            current_node: current_node,
            create_time: create_time,
            update_time: update_time,
        };
        self.projects.push(row);
        proof {
            assert(self@ =~= old(self)@.with_project(row@));
            assert(project_ids(self@) =~= project_ids(old(self)@).push(id));
            lemma_ceiling_kept(old(self)@, self@);
            lemma_grown(old(self)@, self@);
        }
        id
    }
}

/// Tables that hold the same rows have the same ids.
pub proof fn lemma_ceiling_kept(s: StoreModel, t: StoreModel)
    ensures
        t.projects == s.projects ==> project_ids(t) == project_ids(s),
        t.nodes == s.nodes ==> node_ids(t) == node_ids(s),
        t.changes == s.changes ==> change_ids(t) == change_ids(s),
        t.folders == s.folders ==> folder_ids(t) == folder_ids(s),
        t.cards == s.cards ==> card_ids(t) == card_ids(s),
        t.blocks == s.blocks ==> block_ids(t) == block_ids(s),
        t.lines == s.lines ==> line_ids(t) == line_ids(s),
{
}

/// A store stays well formed when rows change in place without a change to
/// any id or reference.
pub proof fn lemma_same_refs(s: StoreModel, t: StoreModel)
    requires
        s.wf(),
        project_ids(t) == project_ids(s),
        node_ids(t) == node_ids(s),
        t.changes == s.changes,
        folder_ids(t) == folder_ids(s),
        card_ids(t) == card_ids(s),
        block_ids(t) == block_ids(s),
        line_ids(t) == line_ids(s),
        forall|i: int|
            0 <= i < t.nodes.len() ==> (#[trigger] t.nodes[i]).parent_id == s.nodes[i].parent_id,
        forall|i: int|
            0 <= i < t.lines.len() ==> (#[trigger] t.lines[i]).position == s.lines[i].position,
    ensures
        t.wf(),
{
    assert(change_ids(t) =~= change_ids(s));
    assert(s.nodes.len() == node_ids(s).len());
    assert(t.nodes.len() == node_ids(t).len());
    assert(s.lines.len() == line_ids(s).len());
    assert(t.lines.len() == line_ids(t).len());
    assert forall|i: int| 0 <= i < t.nodes.len() implies present(
        (#[trigger] t.nodes[i]).parent_id,
        node_ids(t),
    ) by {
        assert(present(s.nodes[i].parent_id, node_ids(s)));
    }
    assert forall|i: int| 0 <= i < t.lines.len() implies within(
        (#[trigger] t.lines[i]).position,
        line_ids(t),
    ) by {
        assert(within(s.lines[i].position, line_ids(s)));
    }
    assert forall|i: int| 0 <= i < t.changes.len() implies t.change_refs_ok(
        #[trigger] t.changes[i],
    ) by {
        assert(s.change_refs_ok(s.changes[i]));
    }
}

fn ids_ascend(ids: &Vec<i64>) -> (r: bool)
    ensures
        r == ascending(ids@),
{
    let mut i: usize = 0;
    while i < ids.len()
        invariant
            i <= ids.len(),
            forall|a: int, b: int| 0 <= a < b < i ==> ids@[a] < ids@[b],
            forall|a: int| 0 <= a < i ==> ids@[a] >= 1,
        decreases ids.len() - i,
    {
        if ids[i] < 1 {
            return false;
        }
        if i > 0 && ids[i - 1] >= ids[i] {
            assert(!(ids@[i - 1] < ids@[i as int]));
            return false;
        }
        proof {
            assert forall|a: int, b: int| 0 <= a < b < i + 1 implies ids@[a] < ids@[b] by {
                if b == i && a < i - 1 {
                    assert(ids@[a] < ids@[i - 1]);
                }
            }
        }
        i += 1;
    }
    true
}

fn last_of(ids: &Vec<i64>) -> (r: i64)
    ensures
        r == ceiling(ids@),
{
    if ids.len() == 0 {
        0
    } else {
        ids[ids.len() - 1]
    }
}

fn is_within(r: Option<i64>, last: i64) -> (ok: bool)
    ensures
        ok == (r matches Some(x) ==> x <= last),
{
    match r {
        Some(x) => x <= last,
        None => true,
    }
}

/// Whether a list of ids holds an id.
pub fn holds_id(ids: &Vec<i64>, id: i64) -> (r: bool)
    ensures
        r == ids@.contains(id),
{
    let mut i: usize = 0;
    while i < ids.len()
        invariant
            i <= ids.len(),
            forall|j: int| 0 <= j < i ==> ids@[j] != id,
        decreases ids.len() - i,
    {
        if ids[i] == id {
            return true;
        }
        i += 1;
    }
    false
}

impl Store {
    /// Whether the store is well formed. A store that was read from outside
    /// is checked with this before it is worked on.
    pub fn check(&self) -> (r: bool)
        ensures
            r == self@.wf(),
    {
        let projects = ids_of(&self.projects);
        let nodes = ids_of(&self.nodes);
        let changes = ids_of(&self.changes);
        let folders = ids_of(&self.folders);
        let cards = ids_of(&self.cards);
        let blocks = ids_of(&self.blocks);
        let lines = ids_of(&self.lines);
        proof {
            assert(projects@ =~= project_ids(self@));
            assert(nodes@ =~= node_ids(self@));
            assert(changes@ =~= change_ids(self@));
            assert(folders@ =~= folder_ids(self@));
            assert(cards@ =~= card_ids(self@));
            assert(blocks@ =~= block_ids(self@));
            assert(lines@ =~= line_ids(self@));
        }
        let mut i: usize = 0;
        if !(ids_ascend(&projects) && ids_ascend(&nodes) && ids_ascend(&changes) && ids_ascend(
            &folders,
        ) && ids_ascend(&cards) && ids_ascend(&blocks) && ids_ascend(&lines)) {
            return false;
        }
        i = 0;
        while i < self.nodes.len()
            invariant
                i <= self.nodes.len(),
                nodes@ == node_ids(self@),
                forall|j: int|
                    0 <= j < i ==> present((#[trigger] self@.nodes[j]).parent_id, node_ids(self@)),
            decreases self.nodes.len() - i,
        {
            match self.nodes[i].parent_id {
                Some(p) => {
                    if !holds_id(&nodes, p) {
                        assert(!present(self@.nodes[i as int].parent_id, node_ids(self@)));
                        return false;
                    }
                },
                None => {},
            }
            i += 1;
        }
        let last_line = last_of(&lines);
        i = 0;
        while i < self.lines.len()
            invariant
                i <= self.lines.len(),
                last_line == ceiling(line_ids(self@)),
                forall|j: int|
                    0 <= j < i ==> within((#[trigger] self@.lines[j]).position, line_ids(self@)),
            decreases self.lines.len() - i,
        {
            if !is_within(self.lines[i].position, last_line) {
                assert(!within(self@.lines[i as int].position, line_ids(self@)));
                return false;
            }
            i += 1;
        }
        let last_change = last_of(&changes);
        let last_folder = last_of(&folders);
        let last_card = last_of(&cards);
        let last_block = last_of(&blocks);
        i = 0;
        while i < self.changes.len()
            invariant
                i <= self.changes.len(),
                nodes@ == node_ids(self@),
                last_line == ceiling(line_ids(self@)),
                last_change == ceiling(change_ids(self@)),
                last_folder == ceiling(folder_ids(self@)),
                last_card == ceiling(card_ids(self@)),
                last_block == ceiling(block_ids(self@)),
                forall|j: int| 0 <= j < i ==> self@.change_refs_ok(#[trigger] self@.changes[j]),
            decreases self.changes.len() - i,
        {
            let c = &self.changes[i];
            if !(holds_id(&nodes, c.node_id) && is_within(c.target, last_change) && is_within(
                c.detail_folder,
                last_folder,
            ) && is_within(c.detail_card, last_card) && is_within(c.detail_block, last_block)
                && is_within(c.detail_line, last_line)) {
                assert(!self@.change_refs_ok(self@.changes[i as int]));
                return false;
            }
            i += 1;
        }
        true
    }
}

} // verus!
