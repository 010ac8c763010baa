//! Laws of the engine: what holds of replay and of saving whatever the store
//! and the arguments are.

use crate::changes::{record_error, recorded_delete};
use crate::diff::{old_digests, old_lines, save_block, save_error};
use crate::digest::text_digest;
use crate::forest::{is_forest, lemma_forest_path};
use crate::content::node_content;
use crate::node::{node_path, parent_of, path_up};
use crate::lines::{
    all_from, line_order, line_row, line_state, line_states, line_views, replay_lines, LineState,
};
use crate::order::{lemma_order_indices, lemma_order_length, told_apart};
use crate::roundtrip::{lemma_live_distinct, live_at};
use crate::resave::lemma_resave_changes_nothing;
use crate::roundtrip::{lemma_placed, lemma_retired, lemma_saved_replay, Saving};
use crate::save::{
    block_change_applied, blocks_applied, cards_applied, changes_saved, folders_applied, saved_ids,
    text_saved,
};
use crate::text::parse_id;
use crate::serial::{
    char_rank, fresh_serial, lemma_max_serial, lemma_pivot_steps, lemma_serial_order_chains,
    lex_less, max_serial, next_serial_text, pivot, serial_less, step,
};
use crate::types::LineRow;
use crate::text::lines_of;
use crate::frame::{
    lemma_deleted_at_hit, lemma_deleted_on_beside, lemma_deleted_on_hit, lemma_first_index_push,
    lemma_gather_after_other, lemma_gather_on_path, lemma_gather_takes, lemma_gather_well,
    lemma_held_index, lemma_survivors, lemma_survivors_agree, stands_for,
};
use crate::replay::{del_hits, deleted_on, gather, holds_entity, is_live_add, live, ScopeModel};
use crate::store::{change_ids, change_row, detail, first_index, node_ids, StoreModel};
use crate::types::{Action, BlockView, ContentView, Level, LineView, SaveChanges};
use vstd::prelude::*;

verus! {

/// A delete reaches every path through its node. When a node records the
/// delete of the add record `target`, and that record adds the entity `e`,
/// then `e` is live at the end of no path that holds the node, under whatever
/// scope it is replayed.
pub proof fn law_delete_reaches_paths_through_node(
    s: StoreModel,
    level: Level,
    node: i64,
    target: i64,
    e: i64,
    path: Seq<i64>,
    scope: ScopeModel,
)
    requires
        s.wf(),
        record_error(s, node, target) is None,
        first_index(change_ids(s), target) is Some,
        detail(s.changes[first_index(change_ids(s), target)->0], level) == Some(e),
        path.contains(node),
    ensures
        forall|j: int|
            0 <= j < live(recorded_delete(s, level, node, target), path, level, scope).len() ==> (
            #[trigger] live(recorded_delete(s, level, node, target), path, level, scope)[j]).entity
                != e,
{
    let d = change_row(s.next_change_id() as i64, Action::Del, level, node, Some(target), None);
    let t = s.with_change(d);
    assert(t == recorded_delete(s, level, node, target));
    let n = s.changes.len();
    assert(t.changes[n as int] == d);
    assert(change_ids(t) =~= change_ids(s).push(d.id));
    lemma_held_index(change_ids(s), target);
    let k = first_index(change_ids(s), target)->0;
    assert(change_ids(s)[k] == target);
    crate::store::lemma_ceiling(change_ids(s), k);
    lemma_first_index_push(change_ids(s), d.id, target);
    assert(t.changes[k] == s.changes[k]);
    assert(del_hits(t, d, level, e));
    lemma_deleted_at_hit(t, node, level, e, n as int, t.changes.len());
    let p = choose|p: int| 0 <= p < path.len() && path[p] == node;
    lemma_deleted_on_hit(t, path, level, e, p, path.len());
    let found = gather(t, path, level, scope, path.len());
    lemma_survivors(t, path, level, found, found.len());
}

/// A delete spares every path beside its node. When a node records a delete,
/// replay at the end of a path that does not hold the node finds, at every
/// level and under every scope, what it found before.
pub proof fn law_delete_spares_paths_beside_node(
    s: StoreModel,
    level: Level,
    node: i64,
    target: i64,
    path: Seq<i64>,
    replayed: Level,
    scope: ScopeModel,
)
    requires
        s.wf(),
        record_error(s, node, target) is None,
        !path.contains(node),
    ensures
        live(recorded_delete(s, level, node, target), path, replayed, scope) == live(
            s,
            path,
            replayed,
            scope,
        ),
{
    let d = change_row(s.next_change_id() as i64, Action::Del, level, node, Some(target), None);
    let t = s.with_change(d);
    lemma_gather_after_other(s, d, path, replayed, scope, path.len());
    let found = gather(s, path, replayed, scope, path.len());
    assert forall|i: int| 0 <= i < found.len() implies deleted_on(
        t,
        path,
        replayed,
        (#[trigger] found[i]).entity,
    ) == deleted_on(s, path, replayed, found[i].entity) by {
        assert forall|p: int| 0 <= p < path.len() implies path[p] != d.node_id by {
            if path[p] == node {
                assert(path.contains(node));
            }
        }
        lemma_deleted_on_beside(s, d, path, replayed, scope, found[i].entity, path.len());
    }
    lemma_survivors_agree(s, t, path, replayed, found, found.len());
}

/// Whether the digests tell the old lines of a block from the lines of a
/// text: an old line that has the digest of a line of the text has its
/// content.
pub open spec fn digests_tell_apart(s: StoreModel, path: Seq<i64>, scope: i64, text: Seq<char>) -> bool {
    forall|p: int, i: int|
        0 <= p < old_lines(s, path, scope).len() && 0 <= i < lines_of(text).len()
            && #[trigger] old_digests(s, old_lines(s, path, scope))[p] == text_digest(
            #[trigger] lines_of(text)[i],
        ) ==> line_row(s, old_lines(s, path, scope)[p].entity).content == lines_of(text)[i]
}

/// Whether a path ends at a node and holds it nowhere else, as the path of a
/// node in a forest does.
pub open spec fn ends_at(path: Seq<i64>, node: i64) -> bool {
    &&& path.len() > 0
    &&& path.last() == node
    &&& forall|p: int| 0 <= p < path.len() - 1 ==> #[trigger] path[p] != node
}

/// Save, then replay: the text comes back. After the text of a block is saved
/// at the end of a path, replay of the block at the end of that path yields
/// one line for each line of the text, in the order of the text, with the
/// content of that line, an empty line as the empty text. The law holds
/// where digests tell the old lines from the lines of the text.
pub proof fn law_save_then_replay_reproduces_text(
    s: StoreModel,
    path: Seq<i64>,
    node: i64,
    project: i64,
    scope: i64,
    text: Seq<char>,
)
    requires
        s.wf(),
        save_error(s, path, node, scope, text) is None,
        ends_at(path, node),
        digests_tell_apart(s, path, scope, text),
    ensures
        replay_lines(save_block(s, path, node, project, scope, text), path, scope).len()
            == lines_of(text).len(),
        forall|i: int|
            0 <= i < lines_of(text).len() ==> (#[trigger] replay_lines(
                save_block(s, path, node, project, scope, text),
                path,
                scope,
            )[i]).content == Some(lines_of(text)[i]),
{
    let c = Saving {
        s: s,
        path: path,
        node: node,
        project: project,
        scope: scope,
        new_lines: lines_of(text),
    };
    assert(c.ready());
    assert(c.collision_free());
    let w = lemma_placed(c, c.new_lines.len());
    let gone = lemma_retired(c, w, c.olds().len());
    lemma_saved_replay(c, w, gone);
    assert(c.retired(c.olds().len()) == save_block(s, path, node, project, scope, text));
}

/// Saving twice is saving once. When the text of a block was saved at the
/// end of a path, a second save of the same text at the end of that path
/// changes nothing: it appends no record, makes no line and moves none, so
/// every read of the store yields what it yielded before.
pub proof fn law_second_save_changes_nothing(
    s: StoreModel,
    path: Seq<i64>,
    node: i64,
    project: i64,
    scope: i64,
    text: Seq<char>,
)
    requires
        s.wf(),
        save_error(s, path, node, scope, text) is None,
        ends_at(path, node),
    ensures
        text_saved(
            save_block(s, path, node, project, scope, text),
            path,
            node,
            project,
            scope,
            text,
        ) == save_block(s, path, node, project, scope, text),
{
    let c = Saving {
        s: s,
        path: path,
        node: node,
        project: project,
        scope: scope,
        new_lines: lines_of(text),
    };
    assert(c.ready());
    let once = save_block(s, path, node, project, scope, text);
    assert(c.retired(c.olds().len()) == once);
    lemma_resave_changes_nothing(c);
    let again = Saving { s: once, ..c };
    assert(again.retired(again.olds().len()) == save_block(once, path, node, project, scope, text));
}

/// In a forest the path of a node ends at the node and holds it nowhere
/// else, so the laws of saving hold of a save along the path of its node.
pub proof fn law_forest_path_ends_at_node(s: StoreModel, node: i64)
    requires
        is_forest(s),
    ensures
        ends_at(node_path(s, node), node),
{
    lemma_forest_path(s, node);
}

/// A save touches no node, and leaves the store well formed.
pub proof fn law_save_touches_no_node(
    s: StoreModel,
    path: Seq<i64>,
    node: i64,
    project: i64,
    scope: i64,
    text: Seq<char>,
)
    requires
        s.wf(),
        save_error(s, path, node, scope, text) is None,
        ends_at(path, node),
    ensures
        save_block(s, path, node, project, scope, text).nodes == s.nodes,
        save_block(s, path, node, project, scope, text).wf(),
{
    let c = Saving {
        s: s,
        path: path,
        node: node,
        project: project,
        scope: scope,
        new_lines: lines_of(text),
    };
    let w = lemma_placed(c, c.new_lines.len());
    let gone = lemma_retired(c, w, c.olds().len());
    assert(c.retired(c.olds().len()) == save_block(s, path, node, project, scope, text));
}

/// Save, then replay, at a node of a forest: the text comes back. This is
/// the law of saving and replaying for the path of the node itself.
pub proof fn law_round_trip_at_node(s: StoreModel, node: i64, project: i64, scope: i64, text: Seq<char>)
    requires
        s.wf(),
        is_forest(s),
        save_error(s, node_path(s, node), node, scope, text) is None,
        digests_tell_apart(s, node_path(s, node), scope, text),
    ensures
        replay_lines(
            save_block(s, node_path(s, node), node, project, scope, text),
            node_path(s, node),
            scope,
        ).len() == lines_of(text).len(),
        forall|i: int|
            0 <= i < lines_of(text).len() ==> (#[trigger] replay_lines(
                save_block(s, node_path(s, node), node, project, scope, text),
                node_path(s, node),
                scope,
            )[i]).content == Some(lines_of(text)[i]),
{
    lemma_forest_path(s, node);
    law_save_then_replay_reproduces_text(s, node_path(s, node), node, project, scope, text);
}

/// Saving twice at a node of a forest is saving once. This is the law of
/// the second save for the path of the node itself, stated of the store, of
/// the lines that the save returns and of the content of the node.
pub proof fn law_resave_at_node(s: StoreModel, node: i64, project: i64, scope: i64, text: Seq<char>)
    requires
        s.wf(),
        is_forest(s),
        save_error(s, node_path(s, node), node, scope, text) is None,
    ensures
        text_saved(
            save_block(s, node_path(s, node), node, project, scope, text),
            node_path(s, node),
            node,
            project,
            scope,
            text,
        ) == save_block(s, node_path(s, node), node, project, scope, text),
        node_path(save_block(s, node_path(s, node), node, project, scope, text), node)
            == node_path(s, node),
        replay_lines(
            text_saved(
                save_block(s, node_path(s, node), node, project, scope, text),
                node_path(s, node),
                node,
                project,
                scope,
                text,
            ),
            node_path(s, node),
            scope,
        ) == replay_lines(
            save_block(s, node_path(s, node), node, project, scope, text),
            node_path(s, node),
            scope,
        ),
        node_content(
            text_saved(
                save_block(s, node_path(s, node), node, project, scope, text),
                node_path(s, node),
                node,
                project,
                scope,
                text,
            ),
            node,
        ) == node_content(save_block(s, node_path(s, node), node, project, scope, text), node),
{
    lemma_forest_path(s, node);
    law_second_save_changes_nothing(s, node_path(s, node), node, project, scope, text);
    law_save_touches_no_node(s, node_path(s, node), node, project, scope, text);
    lemma_same_nodes_same_path(
        s,
        save_block(s, node_path(s, node), node, project, scope, text),
        node,
        s.nodes.len(),
    );
}

/// The path of a node depends on the nodes alone.
pub proof fn lemma_same_nodes_same_path(s: StoreModel, t: StoreModel, id: i64, fuel: nat)
    requires
        t.nodes == s.nodes,
    ensures
        path_up(t, id, fuel) == path_up(s, id, fuel),
    decreases fuel,
{
    assert(node_ids(t) == node_ids(s));
    assert(parent_of(t, id) == parent_of(s, id));
    if parent_of(s, id) is Some && fuel > 0 {
        lemma_same_nodes_same_path(s, t, parent_of(s, id)->0, (fuel - 1) as nat);
    }
}

/// Whether lines read as the lines of a text: as many, in that order, each
/// with the content of its line.
pub open spec fn reads_as(lines: Seq<LineView>, text_lines: Seq<Seq<char>>) -> bool {
    &&& lines.len() == text_lines.len()
    &&& forall|i: int| 0 <= i < lines.len() ==> (#[trigger] lines[i]).content == Some(text_lines[i])
}

/// Whether every block among `blocks` whose add record is `scope` reads as
/// the lines of a text.
pub open spec fn blocks_read(blocks: Seq<BlockView>, scope: i64, text_lines: Seq<Seq<char>>) -> bool {
    forall|x: int|
        0 <= x < blocks.len() && (#[trigger] blocks[x]).change_id == scope ==> reads_as(
            blocks[x].lines,
            text_lines,
        )
}

/// Whether, wherever the content holds the block whose add record is
/// `scope`, in a card of a folder or at the top of a zone, the block reads as
/// the lines of a text.
pub open spec fn content_reads(content: ContentView, scope: i64, text_lines: Seq<Seq<char>>) -> bool {
    &&& blocks_read(content.pre, scope, text_lines)
    &&& blocks_read(content.post, scope, text_lines)
    &&& blocks_read(content.global, scope, text_lines)
    &&& forall|a: int, b: int|
        0 <= a < content.folders.len() && 0 <= b < content.folders[a].cards.len() ==> blocks_read(
            (#[trigger] content.folders[a].cards[b]).blocks,
            scope,
            text_lines,
        )
}

/// Save, then read the node: the text comes back. After the text of a block
/// is saved at a node of a forest, the content of the node holds the block
/// with one line for each line of the text, in the order of the text, with
/// the content of that line. The law holds where digests tell the old lines
/// from the lines of the text.
pub proof fn law_saved_text_is_read_back(s: StoreModel, node: i64, project: i64, scope: i64, text: Seq<char>)
    requires
        s.wf(),
        is_forest(s),
        save_error(s, node_path(s, node), node, scope, text) is None,
        digests_tell_apart(s, node_path(s, node), scope, text),
    ensures
        content_reads(
            node_content(save_block(s, node_path(s, node), node, project, scope, text), node),
            scope,
            lines_of(text),
        ),
{
    let path = node_path(s, node);
    let after = save_block(s, path, node, project, scope, text);
    law_round_trip_at_node(s, node, project, scope, text);
    lemma_forest_path(s, node);
    law_save_touches_no_node(s, path, node, project, scope, text);
    lemma_same_nodes_same_path(s, after, node, s.nodes.len());
    assert(node_path(after, node) == path);
    assert(reads_as(replay_lines(after, path, scope), lines_of(text)));
    let content = node_content(after, node);
    assert forall|a: int, b: int|
        0 <= a < content.folders.len() && 0 <= b < content.folders[a].cards.len() implies blocks_read(
        (#[trigger] content.folders[a].cards[b]).blocks,
        scope,
        lines_of(text),
    ) by {
        let blocks = content.folders[a].cards[b].blocks;
        assert forall|x: int|
            0 <= x < blocks.len() && (#[trigger] blocks[x]).change_id == scope implies reads_as(
            blocks[x].lines,
            lines_of(text),
        ) by {
            assert(blocks[x].lines == replay_lines(after, path, blocks[x].change_id));
        }
    }
}

/// A save of one text through the edits of a node is the save of that text.
/// Where the edits hold nothing but the text of one block, the store after
/// them is the store after the save of that text along the path of the node,
/// or the store as it was where that save is refused.
pub proof fn law_one_text_saved_through_edits(
    s: StoreModel,
    node: i64,
    project: i64,
    scope: i64,
    changes: SaveChanges,
)
    requires
        changes.folder@.len() == 0,
        changes.card@.len() == 0,
        changes.block@.len() == 1,
        changes.block@[0].1.name is None,
        changes.block@[0].1.content is Some,
        parse_id(changes.block@[0].0@) == Some(scope),
    ensures
        changes_saved(s, node, project, changes) == text_saved(
            s,
            node_path(s, node),
            node,
            project,
            scope,
            changes.block@[0].1.content->0@,
        ),
        saved_ids(changes.block@, 1) == seq![scope],
{
    let path = node_path(s, node);
    assert(folders_applied(s, changes.folder@, 0) == s);
    assert(cards_applied(s, changes.card@, 0) == s);
    assert(blocks_applied(s, path, node, project, changes.block@, 0) == s);
    assert(blocks_applied(s, path, node, project, changes.block@, 1) == block_change_applied(
        s,
        path,
        node,
        project,
        changes.block@[0].0@,
        changes.block@[0].1,
    ));
    assert(saved_ids(changes.block@, 0) =~= Seq::<i64>::empty());
    assert(saved_ids(changes.block@, 1) =~= seq![scope]);
}

/// Serials ascend: the serial after a serial comes after it in the order of
/// serials.
pub proof fn law_next_serial_ascends(s: Seq<char>)
    ensures
        serial_less(s, next_serial_text(s)),
{
    lemma_pivot_steps(s);
    let p = pivot(s);
    let next = next_serial_text(s);
    if p >= 0 {
        let c = s[p];
        assert(next[p] == step(c));
        assert(char_rank(step(c)) == char_rank(c) + 1);
        assert forall|j: int| 0 <= j < p implies s[j] == next[j] by {}
        assert(lex_less(s, next));
    }
}

/// A fresh serial is new: the serial for the next line of a project comes
/// after the serial of every line of the project.
pub proof fn law_fresh_serial_exceeds_all(lines: Seq<LineRow>, project: i64, i: int)
    requires
        0 <= i < lines.len(),
        lines[i].project_id == project,
    ensures
        serial_less(lines[i].sn, fresh_serial(lines, project)),
        lines[i].sn != fresh_serial(lines, project),
{
    lemma_max_serial(lines, project, lines.len(), i);
    let m = max_serial(lines, project, lines.len())->0;
    law_next_serial_ascends(m);
    lemma_serial_order_chains(lines[i].sn, m, next_serial_text(m));
    crate::serial::lemma_serial_order_irreflexive(lines[i].sn, lines[i].sn);
}

/// Whether a node of the path holds a live add of the entity `e`: an add
/// record of the level, under the scope, of an entity that exists.
pub open spec fn added_on(s: StoreModel, path: Seq<i64>, level: Level, scope: ScopeModel, e: i64) -> bool {
    exists|p: int, i: int|
        0 <= p < path.len() && 0 <= i < s.changes.len() && (#[trigger] s.changes[i]).node_id
            == #[trigger] path[p] && is_live_add(s, s.changes[i], level, scope) && detail(
            s.changes[i],
            level,
        ) == Some(e)
}

/// Live is added less deleted. An entity is live at the end of a path
/// exactly if a node of the path adds it and no node of the path deletes it.
pub proof fn law_live_is_added_less_deleted(
    s: StoreModel,
    path: Seq<i64>,
    level: Level,
    scope: ScopeModel,
    e: i64,
)
    ensures
        holds_entity(live(s, path, level, scope), e) <==> added_on(s, path, level, scope, e)
            && !deleted_on(s, path, level, e),
{
    let found = gather(s, path, level, scope, path.len());
    let out = live(s, path, level, scope);
    lemma_survivors(s, path, level, found, found.len());
    assert(found.take(found.len() as int) =~= found);
    if holds_entity(out, e) {
        let j = choose|j: int| 0 <= j < out.len() && (#[trigger] out[j]).entity == e;
        assert(found.contains(out[j]));
        let x = choose|x: int| 0 <= x < found.len() && found[x] == out[j];
        lemma_gather_well(s, path, level, scope, path.len());
        assert(stands_for(s, level, scope, found[x]));
        let i = choose|i: int|
            0 <= i < s.changes.len() && (#[trigger] s.changes[i]).id == found[x].change_id
                && s.changes[i].node_id == found[x].node_id && detail(s.changes[i], level) == Some(
                found[x].entity,
            ) && is_live_add(s, s.changes[i], level, scope);
        lemma_gather_on_path(s, path, level, scope, path.len());
        assert(path.take(path.len() as int) =~= path);
        assert(path.contains(found[x].node_id));
        let p = choose|p: int| 0 <= p < path.len() && path[p] == found[x].node_id;
        assert(s.changes[i].node_id == path[p]);
        assert(added_on(s, path, level, scope, e));
    }
    if added_on(s, path, level, scope, e) && !deleted_on(s, path, level, e) {
        let (p, i) = choose|p: int, i: int|
            0 <= p < path.len() && 0 <= i < s.changes.len() && (#[trigger] s.changes[i]).node_id
                == #[trigger] path[p] && is_live_add(s, s.changes[i], level, scope) && detail(
                s.changes[i],
                level,
            ) == Some(e);
        lemma_gather_takes(s, path, level, scope, path.len(), p, i);
        let x = choose|x: int| 0 <= x < found.len() && (#[trigger] found[x]).entity == e;
        assert(out.contains(found[x]));
        let j = choose|j: int| 0 <= j < out.len() && out[j] == found[x];
        assert(out[j].entity == e);
    }
}

/// The display order is a rearrangement. Where no two lines share an id,
/// the order holds as many lines as it is given, every one of them, and no
/// other.
pub proof fn law_order_rearranges(lines: Seq<LineState>, slot: spec_fn(i64) -> int)
    requires
        told_apart(lines, slot),
    ensures
        line_order(lines).len() == lines.len(),
        all_from(line_order(lines), lines),
        forall|j: int| 0 <= j < lines.len() ==> line_order(lines).contains(#[trigger] lines[j]),
{
    let from = lemma_order_indices(lines, slot);
    lemma_order_length(lines, slot);
    assert forall|a: int| 0 <= a < line_order(lines).len() implies lines.contains(
        #[trigger] line_order(lines)[a],
    ) by {
        assert(lines[from[a]] == line_order(lines)[a]);
    }
}

/// Replay shows every live line once. The lines that replay yields for a
/// block are as many as the block has live lines at the end of the path, and
/// each live line is among them.
pub proof fn law_replay_shows_each_live_line_once(s: StoreModel, path: Seq<i64>, block_change_id: i64)
    requires
        path.len() > 0,
    ensures
        replay_lines(s, path, block_change_id).len() == live(
            s,
            path,
            Level::Line,
            ScopeModel::Under(block_change_id),
        ).len(),
        forall|j: int|
            0 <= j < live(s, path, Level::Line, ScopeModel::Under(block_change_id)).len() ==> exists|
                i: int,
            |
                0 <= i < replay_lines(s, path, block_change_id).len() && (#[trigger] replay_lines(
                    s,
                    path,
                    block_change_id,
                )[i]).id == (#[trigger] live(
                    s,
                    path,
                    Level::Line,
                    ScopeModel::Under(block_change_id),
                )[j]).entity,
{
    let scope = ScopeModel::Under(block_change_id);
    let found = live(s, path, Level::Line, scope);
    let lines = line_states(s, found);
    lemma_live_distinct(s, path, Level::Line, scope);
    let slot = |id: i64| choose|j: int| live_at(found, id, j);
    assert forall|j: int| 0 <= j < lines.len() implies slot((#[trigger] lines[j]).id) == j by {
        assert(live_at(found, found[j].entity, j));
        let j2 = slot(lines[j].id);
        assert(live_at(found, found[j].entity, j2));
    }
    law_order_rearranges(lines, slot);
    let order = line_order(lines);
    let out = replay_lines(s, path, block_change_id);
    assert(out == line_views(s, path.last(), order));
    assert forall|j: int| 0 <= j < found.len() implies exists|i: int|
        0 <= i < out.len() && (#[trigger] out[i]).id == (#[trigger] found[j]).entity by {
        assert(order.contains(lines[j]));
        let i = choose|i: int| 0 <= i < order.len() && order[i] == lines[j];
        assert(out[i].id == order[i].id);
        assert(lines[j] == line_state(s, found[j]));
    }
}

/// Whether the edits of a save hold nothing but the text of the block whose
/// add record is `scope`.
pub open spec fn one_text(changes: SaveChanges, scope: i64, text: Seq<char>) -> bool {
    &&& changes.folder@.len() == 0
    &&& changes.card@.len() == 0
    &&& changes.block@.len() == 1
    &&& changes.block@[0].1.name is None
    &&& changes.block@[0].1.content is Some
    &&& changes.block@[0].1.content->0@ == text
    &&& parse_id(changes.block@[0].0@) == Some(scope)
}

/// Save a text through the edits of a node, then read the node: the text
/// comes back. The content of the node after the edits holds the block with
/// one line for each line of the text, in the order of the text, with the
/// content of that line. The law holds where digests tell the old lines from
/// the lines of the text.
pub proof fn law_edits_round_trip(
    s: StoreModel,
    node: i64,
    project: i64,
    scope: i64,
    text: Seq<char>,
    changes: SaveChanges,
)
    requires
        s.wf(),
        is_forest(s),
        one_text(changes, scope, text),
        save_error(s, node_path(s, node), node, scope, text) is None,
        digests_tell_apart(s, node_path(s, node), scope, text),
    ensures
        content_reads(
            node_content(changes_saved(s, node, project, changes), node),
            scope,
            lines_of(text),
        ),
{
    law_one_text_saved_through_edits(s, node, project, scope, changes);
    law_saved_text_is_read_back(s, node, project, scope, text);
}

/// Saving the same edits twice is saving them once. Where the edits hold
/// nothing but the text of one block, the second save changes nothing: the
/// store after it is the store after the first, and so are the lines that
/// the save returns and the content of the node.
pub proof fn law_edits_saved_twice(
    s: StoreModel,
    node: i64,
    project: i64,
    scope: i64,
    text: Seq<char>,
    changes: SaveChanges,
)
    requires
        s.wf(),
        is_forest(s),
        one_text(changes, scope, text),
        save_error(s, node_path(s, node), node, scope, text) is None,
    ensures
        changes_saved(changes_saved(s, node, project, changes), node, project, changes)
            == changes_saved(s, node, project, changes),
        node_path(changes_saved(s, node, project, changes), node) == node_path(s, node),
{
    let once = changes_saved(s, node, project, changes);
    law_one_text_saved_through_edits(s, node, project, scope, changes);
    law_one_text_saved_through_edits(once, node, project, scope, changes);
    law_resave_at_node(s, node, project, scope, text);
}

} // verus!
