//! What a save leaves behind: the lines that it emitted, linked into one
//! chain in the order of the text, and the records that make them, and no
//! other line of the block, live.

use crate::diff::{
    diff_start, first_unused, old_digests, old_lines, place, place_all, retire, retire_all,
    DiffState,
};
use crate::digest::text_digest;
use crate::frame::{
    lemma_absent, lemma_deleted_at_hit, lemma_deleted_at_witness, lemma_deleted_on_hit,
    lemma_deleted_on_witness, lemma_gather_node_alike, lemma_gather_node_skips, lemma_gather_well,
    lemma_held, lemma_held_index, lemma_index_of, lemma_survivors, reads_alike, stands_for,
};
use crate::chain::{chained, is_chain, lemma_chain_order};
use crate::lines::{
    line_order, line_row, line_state, line_states, line_view, line_views, replay_lines,
};
use crate::replay::{
    del_hits, deleted_at, deleted_on, gather, gather_node, holds_entity, is_live_add, live,
    survivors, Found, ScopeModel,
};
use crate::serial::fresh_serial;
use crate::store::{
    block_ids, card_ids, ceiling, change_ids, change_row, detail, first_index, folder_ids,
    is_first_index, lemma_ceiling, lemma_grown, lemma_lines_touched, lemma_push_ascending,
    line_ids, node_ids, project_ids, within, StoreModel,
};
use crate::types::{Action, ChangeRow, Level, LineRow};
use vstd::prelude::*;

verus! {

/// A save: the store before it, and its arguments with the text in lines.
pub struct Saving {
    pub s: StoreModel,
    pub path: Seq<i64>,
    pub node: i64,
    pub project: i64,
    pub scope: i64,
    pub new_lines: Seq<Seq<char>>,
}

impl Saving {
    /// The old lines of the block.
    pub open spec fn olds(self) -> Seq<Found> {
        old_lines(self.s, self.path, self.scope)
    }

    /// The digests of the old lines.
    pub open spec fn digests(self) -> Seq<Seq<u8>> {
        old_digests(self.s, self.olds())
    }

    /// The differ after `k` lines of the text.
    pub open spec fn after(self, k: nat) -> DiffState {
        place_all(
            diff_start(self.s, self.olds()),
            self.olds(),
            self.digests(),
            self.node,
            self.project,
            self.scope,
            self.new_lines,
            k,
        )
    }

    /// The store after the old lines up to `k` are retired.
    pub open spec fn retired(self, k: nat) -> StoreModel {
        let st = self.after(self.new_lines.len());
        retire_all(st.store, self.node, self.olds(), st.used, k)
    }

    /// No old line has the digest of a line of the text without having its
    /// content.
    pub open spec fn collision_free(self) -> bool {
        forall|p: int, i: int|
            0 <= p < self.olds().len() && 0 <= i < self.new_lines.len() && #[trigger] self.digests()[p]
                == text_digest(#[trigger] self.new_lines[i]) ==> line_row(
                self.s,
                self.olds()[p].entity,
            ).content == self.new_lines[i]
    }

    /// The path ends at the node and holds it nowhere else.
    pub open spec fn path_ends_at_node(self) -> bool {
        &&& self.path.len() > 0
        &&& self.path.last() == self.node
        &&& forall|p: int| 0 <= p < self.path.len() - 1 ==> #[trigger] self.path[p] != self.node
    }

    /// What the lemmas on a save assume: a well-formed store, a node and a
    /// block that exist, room for the rows, and a path that ends at the node.
    /// That digests tell contents apart is assumed only where it is said.
    pub open spec fn ready(self) -> bool {
        &&& self.s.wf()
        &&& node_ids(self.s).contains(self.node)
        &&& change_ids(self.s).contains(self.scope)
        &&& ceiling(line_ids(self.s)) + self.new_lines.len() <= i64::MAX
        &&& ceiling(change_ids(self.s)) + self.new_lines.len() + self.olds().len() <= i64::MAX
        &&& self.path_ends_at_node()
    }

    /// The add record of the `j`-th line that the save makes.
    pub open spec fn new_add(self, j: int) -> ChangeRow {
        change_row(
            (ceiling(change_ids(self.s)) + 1 + j) as i64,
            Action::Add,
            Level::Line,
            self.node,
            Some(self.scope),
            Some((ceiling(line_ids(self.s)) + 1 + j) as i64),
        )
    }
}

/// What a save has emitted: the ids of the lines in the order of the text,
/// the row of each, the old line that each reuses (or -1 for a line that the
/// save made), the place of each id, and the number of lines made.
pub struct Trace {
    pub ids: Seq<i64>,
    pub rows: Seq<int>,
    pub from: Seq<int>,
    pub place: spec_fn(i64) -> int,
    pub fresh: nat,
}

/// The position that the `i`-th emitted line must have.
pub open spec fn link(ids: Seq<i64>, i: int) -> Option<i64> {
    if i == 0 {
        None
    } else {
        Some(ids[i - 1])
    }
}

/// The tables that a save never touches are as they were.
pub open spec fn tables_kept(s: StoreModel, t: StoreModel) -> bool {
    &&& t.projects == s.projects
    &&& t.nodes == s.nodes
    &&& t.folders == s.folders
    &&& t.cards == s.cards
    &&& t.blocks == s.blocks
}

/// The log is the old log and then the add records of the lines made.
pub open spec fn log_grown(c: Saving, t: StoreModel, fresh: nat) -> bool {
    &&& t.changes.len() == c.s.changes.len() + fresh
    &&& forall|i: int| 0 <= i < c.s.changes.len() ==> #[trigger] t.changes[i] == c.s.changes[i]
    &&& forall|j: int| 0 <= j < fresh ==> #[trigger] t.changes[c.s.changes.len() + j] == c.new_add(j)
}

/// The lines are the old lines, with their ids and contents, and then the
/// lines made, with the next ids.
pub open spec fn lines_grown(c: Saving, t: StoreModel, fresh: nat) -> bool {
    &&& t.lines.len() == c.s.lines.len() + fresh
    &&& forall|i: int|
        0 <= i < c.s.lines.len() ==> (#[trigger] t.lines[i]).id == c.s.lines[i].id && t.lines[i].content
            == c.s.lines[i].content
    &&& forall|j: int|
        0 <= j < fresh ==> (#[trigger] t.lines[c.s.lines.len() + j]).id == ceiling(line_ids(c.s)) + 1
            + j
}

/// Whether a content stands for a line of the text: it has the digest of the
/// line, and is the line where digests tell contents apart.
pub open spec fn stands_in(c: Saving, content: Seq<char>, i: int) -> bool {
    text_digest(content) == text_digest(c.new_lines[i]) && (c.collision_free() ==> content
        == c.new_lines[i])
}

/// Each emitted line has its row, a content that stands for its line of the
/// text, and the line before it as its position.
pub open spec fn rows_linked(c: Saving, t: StoreModel, k: nat, w: Trace) -> bool {
    &&& w.ids.len() == k
    &&& w.rows.len() == k
    &&& w.from.len() == k
    &&& forall|i: int|
        0 <= i < k ==> 0 <= #[trigger] w.rows[i] && w.rows[i] < t.lines.len() && t.lines[w.rows[i]].id
            == w.ids[i] && stands_in(c, t.lines[w.rows[i]].content, i) && t.lines[w.rows[i]].position
            == link(w.ids, i)
    &&& forall|i: int| 0 <= i < k ==> (w.place)(#[trigger] w.ids[i]) == i
}

/// Whether the old line `p` is the source of an emitted line.
pub open spec fn reused(w: Trace, p: int) -> bool {
    exists|i: int| 0 <= i < w.from.len() && #[trigger] w.from[i] == p
}

/// Whether the row `r` is the row of an emitted line.
pub open spec fn emitted_row(w: Trace, r: int) -> bool {
    exists|i: int| 0 <= i < w.rows.len() && #[trigger] w.rows[i] == r
}

/// An emitted line is an old line that is marked as taken, or a line made;
/// every old line that is taken and every line made is emitted.
pub open spec fn sources_kept(c: Saving, used: Seq<bool>, k: nat, w: Trace) -> bool {
    &&& used.len() == c.olds().len()
    &&& w.fresh <= k
    &&& forall|i: int|
        0 <= i < k ==> (if #[trigger] w.from[i] >= 0 {
            w.from[i] < c.olds().len() && w.ids[i] == c.olds()[w.from[i]].entity && used[w.from[i]]
                && w.rows[i] < c.s.lines.len()
        } else {
            w.rows[i] >= c.s.lines.len()
        })
    &&& forall|p: int| 0 <= p < used.len() && #[trigger] used[p] ==> reused(w, p)
    &&& forall|j: int| 0 <= j < w.fresh ==> #[trigger] emitted_row(w, c.s.lines.len() + j)
}

/// What holds of the differ after `k` lines of the text.
pub open spec fn placed_well(c: Saving, st: DiffState, k: nat, w: Trace) -> bool {
    &&& st.store.wf()
    &&& tables_kept(c.s, st.store)
    &&& log_grown(c, st.store, w.fresh)
    &&& lines_grown(c, st.store, w.fresh)
    &&& rows_linked(c, st.store, k, w)
    &&& sources_kept(c, st.used, k, w)
    &&& st.last == (if k == 0 {
        None
    } else {
        Some(w.ids[k - 1])
    })
}

/// Whether the old line `p` was taken for a line of the text before the
/// line `i`.
pub open spec fn taken_before(w: Trace, p: int, i: int) -> bool {
    exists|x: int| 0 <= x < i && x < w.from.len() && #[trigger] w.from[x] == p
}

/// The old lines that were passed over when the line `i` of the text was
/// placed: those before the old line that it reuses, or all of them where a
/// line was made.
pub open spec fn passed_over(c: Saving, w: Trace, i: int) -> int {
    if w.from[i] >= 0 {
        w.from[i]
    } else {
        c.olds().len() as int
    }
}

/// The order in which a save takes and makes lines. A line that is reused
/// has the digest of its line of the text; every old line of that digest
/// that was passed over had been taken before; and the lines that the save
/// made stand in the order in which it made them.
pub open spec fn ordered_well(c: Saving, k: nat, w: Trace) -> bool {
    &&& w.from.len() == k
    &&& w.rows.len() == k
    &&& forall|i: int|
        0 <= i < k && #[trigger] w.from[i] >= 0 ==> w.from[i] < c.olds().len() && c.digests()[w.from[i]]
            == text_digest(c.new_lines[i])
    &&& forall|i: int, p: int|
        0 <= i < k && 0 <= p < passed_over(c, w, i) && c.digests()[p] == text_digest(
            c.new_lines[i],
        ) ==> #[trigger] taken_before(w, p, i)
    &&& forall|a: int, b: int|
        0 <= a < b < k && w.from[a] < 0 && w.from[b] < 0 ==> #[trigger] w.rows[a]
            < #[trigger] w.rows[b]
}

/// Placing one more line keeps the order in which a save takes and makes
/// lines.
pub proof fn lemma_ordered_step(
    c: Saving,
    used: Seq<bool>,
    k: nat,
    w: Trace,
    w2: Trace,
    src: int,
    row: int,
)
    requires
        k < c.new_lines.len(),
        ordered_well(c, k, w),
        sources_kept(c, used, k, w),
        w2.from == w.from.push(src),
        w2.rows == w.rows.push(row),
        src < 0 ==> forall|i: int| 0 <= i < k ==> #[trigger] w.rows[i] < row || w.from[i] >= 0,
        src >= 0 ==> src < c.olds().len() && c.digests()[src] == text_digest(c.new_lines[k as int])
            && forall|q: int|
            0 <= q < src ==> used[q] || #[trigger] c.digests()[q] != text_digest(
                c.new_lines[k as int],
            ),
        src < 0 ==> forall|q: int|
            0 <= q < c.olds().len() ==> used[q] || #[trigger] c.digests()[q] != text_digest(
                c.new_lines[k as int],
            ),
    ensures
        ordered_well(c, k + 1, w2),
{
    assert forall|i: int| 0 <= i < k + 1 && #[trigger] w2.from[i] >= 0 implies w2.from[i]
        < c.olds().len() && c.digests()[w2.from[i]] == text_digest(c.new_lines[i]) by {
        if i < k {
            assert(w2.from[i] == w.from[i]);
        }
    }
    assert forall|i: int, p: int|
        0 <= i < k + 1 && 0 <= p < passed_over(c, w2, i) && c.digests()[p] == text_digest(
            c.new_lines[i],
        ) implies #[trigger] taken_before(w2, p, i) by {
        if i < k {
            assert(w2.from[i] == w.from[i]);
            assert(passed_over(c, w2, i) == passed_over(c, w, i));
            assert(taken_before(w, p, i));
            let x = choose|x: int| 0 <= x < i && x < w.from.len() && #[trigger] w.from[x] == p;
            assert(w2.from[x] == p);
        } else {
            assert(w2.from[k as int] == src);
            assert(used[p] || c.digests()[p] != text_digest(c.new_lines[k as int]));
            assert(used[p]);
            assert(reused(w, p));
            let x = choose|x: int| 0 <= x < w.from.len() && #[trigger] w.from[x] == p;
            assert(w2.from[x] == p);
        }
    }
    assert forall|a: int, b: int|
        0 <= a < b < k + 1 && w2.from[a] < 0 && w2.from[b] < 0 implies #[trigger] w2.rows[a]
        < #[trigger] w2.rows[b] by {
        assert(w2.from[a] == w.from[a]);
        assert(w2.rows[a] == w.rows[a]);
        if b < k {
            assert(w2.from[b] == w.from[b]);
            assert(w2.rows[b] == w.rows[b]);
            assert(w.rows[a] < w.rows[b]);
        } else {
            assert(w2.from[b] == src);
            assert(w.rows[a] < row || w.from[a] >= 0);
        }
    }
}

/// What holds of the old lines: each has its row among the lines, stands for
/// an add record of the log, and no two are the same line.
pub open spec fn olds_known(c: Saving) -> bool {
    &&& forall|p: int|
        0 <= p < c.olds().len() ==> first_index(line_ids(c.s), (#[trigger] c.olds()[p]).entity) is Some
            && 0 <= first_index(line_ids(c.s), c.olds()[p].entity)->0 < c.s.lines.len()
            && c.s.lines[first_index(line_ids(c.s), c.olds()[p].entity)->0].id == c.olds()[p].entity
    &&& forall|p: int|
        0 <= p < c.olds().len() ==> stands_for(
            c.s,
            Level::Line,
            ScopeModel::Under(c.scope),
            #[trigger] c.olds()[p],
        )
    &&& forall|a: int, b: int|
        0 <= a < c.olds().len() && 0 <= b < c.olds().len() && (#[trigger] c.olds()[a]).entity == (
        #[trigger] c.olds()[b]).entity ==> a == b
}

/// Survivors keep the order of what was collected: each has an index there,
/// and the indices ascend.
pub proof fn lemma_survivors_indices(
    s: StoreModel,
    path: Seq<i64>,
    level: Level,
    found: Seq<Found>,
    k: nat,
) -> (idx: Seq<int>)
    requires
        k <= found.len(),
    ensures
        idx.len() == survivors(s, path, level, found, k).len(),
        forall|j: int|
            0 <= j < idx.len() ==> 0 <= #[trigger] idx[j] && idx[j] < k && found[idx[j]] == survivors(
                s,
                path,
                level,
                found,
                k,
            )[j],
        forall|a: int, b: int| 0 <= a < b < idx.len() ==> #[trigger] idx[a] < #[trigger] idx[b],
    decreases k,
{
    if k == 0 {
        Seq::<int>::empty()
    } else {
        let before = lemma_survivors_indices(s, path, level, found, (k - 1) as nat);
        if crate::replay::deleted_on(s, path, level, found[k - 1].entity) {
            before
        } else {
            let idx = before.push(k - 1);
            assert forall|a: int, b: int| 0 <= a < b < idx.len() implies #[trigger] idx[a]
                < #[trigger] idx[b] by {
                if b < before.len() {
                    assert(before[a] < before[b]);
                } else {
                    assert(idx[a] == before[a]);
                    assert(0 <= before[a] && before[a] < k - 1);
                }
            }
            idx
        }
    }
}

/// The old lines are known.
pub proof fn lemma_olds_known(c: Saving)
    requires
        c.s.wf(),
    ensures
        olds_known(c),
{
    let scope = ScopeModel::Under(c.scope);
    let found = gather(c.s, c.path, Level::Line, scope, c.path.len());
    lemma_gather_well(c.s, c.path, Level::Line, scope, c.path.len());
    let idx = lemma_survivors_indices(c.s, c.path, Level::Line, found, found.len());
    let olds = c.olds();
    assert(olds == survivors(c.s, c.path, Level::Line, found, found.len()));
    assert forall|p: int| 0 <= p < olds.len() implies stands_for(
        c.s,
        Level::Line,
        scope,
        #[trigger] olds[p],
    ) by {
        assert(found[idx[p]] == olds[p]);
    }
    assert forall|p: int| 0 <= p < olds.len() implies first_index(
        line_ids(c.s),
        (#[trigger] olds[p]).entity,
    ) is Some && 0 <= first_index(line_ids(c.s), olds[p].entity)->0 < c.s.lines.len()
        && c.s.lines[first_index(line_ids(c.s), olds[p].entity)->0].id == olds[p].entity by {
        assert(stands_for(c.s, Level::Line, scope, olds[p]));
        let i = choose|i: int|
            0 <= i < c.s.changes.len() && (#[trigger] c.s.changes[i]).id == olds[p].change_id
                && c.s.changes[i].node_id == olds[p].node_id && detail(c.s.changes[i], Level::Line)
                == Some(olds[p].entity) && is_live_add(c.s, c.s.changes[i], Level::Line, scope);
        assert(line_ids(c.s).contains(olds[p].entity));
        lemma_held(line_ids(c.s), olds[p].entity);
        let r = first_index(line_ids(c.s), olds[p].entity)->0;
        assert(line_ids(c.s)[r] == olds[p].entity);
    }
    assert forall|a: int, b: int|
        0 <= a < olds.len() && 0 <= b < olds.len() && (#[trigger] olds[a]).entity == (
        #[trigger] olds[b]).entity implies a == b by {
        assert(found[idx[a]] == olds[a]);
        assert(found[idx[b]] == olds[b]);
        if a < b {
            assert(idx[a] < idx[b]);
            assert(found[idx[a]].entity != found[idx[b]].entity);
        }
        if b < a {
            assert(idx[b] < idx[a]);
            assert(found[idx[b]].entity != found[idx[a]].entity);
        }
    }
}

/// What `first_unused` finds is an old line that is free and has the digest.
pub proof fn lemma_first_unused(digests: Seq<Seq<u8>>, used: Seq<bool>, h: Seq<u8>, k: nat)
    ensures
        match first_unused(digests, used, h, k) {
            Some(p) => 0 <= p < k && !used[p] && digests[p] == h && forall|q: int|
                0 <= q < p ==> used[q] || #[trigger] digests[q] != h,
            None => forall|p: int| 0 <= p < k ==> used[p] || #[trigger] digests[p] != h,
        },
    decreases k,
{
    if k > 0 {
        lemma_first_unused(digests, used, h, (k - 1) as nat);
    }
}

/// The ceilings of the tables that a save extends: as many ids on as lines
/// were made.
pub proof fn lemma_grown_ceilings(c: Saving, t: StoreModel, fresh: nat)
    requires
        c.s.wf(),
        log_grown(c, t, fresh),
        lines_grown(c, t, fresh),
        ceiling(line_ids(c.s)) + fresh <= i64::MAX,
        ceiling(change_ids(c.s)) + fresh <= i64::MAX,
    ensures
        ceiling(line_ids(t)) == ceiling(line_ids(c.s)) + fresh,
        ceiling(change_ids(t)) == ceiling(change_ids(c.s)) + fresh,
        0 <= ceiling(line_ids(c.s)),
        0 <= ceiling(change_ids(c.s)),
{
    let s = c.s;
    if s.lines.len() > 0 {
        lemma_ceiling(line_ids(s), s.lines.len() - 1);
    }
    if s.changes.len() > 0 {
        lemma_ceiling(change_ids(s), s.changes.len() - 1);
    }
    if fresh == 0 {
        assert(line_ids(t) =~= line_ids(s));
        assert(change_ids(t) =~= change_ids(s));
    } else {
        assert(t.lines[s.lines.len() + (fresh - 1)].id == ceiling(line_ids(s)) + 1 + (fresh - 1));
        assert(line_ids(t).last() == t.lines[t.lines.len() - 1].id);
        assert(t.changes[s.changes.len() + (fresh - 1)] == c.new_add(fresh - 1));
        assert(change_ids(t).last() == t.changes[t.changes.len() - 1].id);
    }
}

/// In a well-formed store only one row has a given id.
pub proof fn lemma_one_row(t: StoreModel, r: int, i: int)
    requires
        t.wf(),
        0 <= r < t.lines.len(),
        0 <= i < t.lines.len(),
        t.lines[i].id == t.lines[r].id,
    ensures
        i == r,
{
    assert(line_ids(t)[i] == t.lines[i].id);
    assert(line_ids(t)[r] == t.lines[r].id);
    if i < r {
        assert(line_ids(t)[i] < line_ids(t)[r]);
    }
    if r < i {
        assert(line_ids(t)[r] < line_ids(t)[i]);
    }
}

/// The id of an old line is not the id of an emitted line, unless the old
/// line is taken.
pub proof fn lemma_free_old_not_emitted(c: Saving, st: DiffState, k: nat, w: Trace, p: int, i: int)
    requires
        c.s.wf(),
        olds_known(c),
        placed_well(c, st, k, w),
        ceiling(line_ids(c.s)) + w.fresh <= i64::MAX,
        0 <= p < c.olds().len(),
        !st.used[p],
        0 <= i < k,
    ensures
        w.ids[i] != c.olds()[p].entity,
{
    let e = c.olds()[p].entity;
    if w.from[i] >= 0 {
        if w.ids[i] == e {
            assert(c.olds()[w.from[i]].entity == c.olds()[p].entity);
        }
    } else {
        let r = first_index(line_ids(c.s), e)->0;
        assert(c.s.lines[r].id == e);
        assert(line_ids(c.s)[r] == e);
        lemma_ceiling(line_ids(c.s), r);
        let j = w.rows[i] - c.s.lines.len();
        assert(st.store.lines[c.s.lines.len() + j].id == ceiling(line_ids(c.s)) + 1 + j);
    }
}

/// Placing a line that reuses the old line `p` keeps what holds of the differ.
pub proof fn lemma_place_reuse(c: Saving, st: DiffState, k: nat, w: Trace, p: int) -> (w2: Trace)
    requires
        c.ready(),
        olds_known(c),
        placed_well(c, st, k, w),
        k < c.new_lines.len(),
        first_unused(c.digests(), st.used, text_digest(c.new_lines[k as int]), c.olds().len())
            == Some(p),
    ensures
        placed_well(
            c,
            place(st, c.olds(), c.digests(), c.node, c.project, c.scope, c.new_lines[k as int]),
            k + 1,
            w2,
        ),
        w2.fresh == w.fresh,
        ordered_well(c, k, w) ==> ordered_well(c, k + 1, w2),
{
    let s = c.s;
    let t = st.store;
    let olds = c.olds();
    let text = c.new_lines[k as int];
    lemma_first_unused(c.digests(), st.used, text_digest(text), olds.len());
    let e = olds[p].entity;
    let r = first_index(line_ids(s), e)->0;
    assert(s.lines[r].id == e);
    assert(t.lines[r].id == e);
    let st2 = place(st, olds, c.digests(), c.node, c.project, c.scope, text);
    let t2 = st2.store;
    assert(t2 == t.repositioned(e, st.last));
    let place2 = |x: i64|
        if x == e {
            k as int
        } else {
            (w.place)(x)
        };
    let w2 = Trace {
        ids: w.ids.push(e),
        rows: w.rows.push(r),
        from: w.from.push(p),
        place: place2,
        fresh: w.fresh,
    };
    // the position that the line gets is within the table
    assert(within(st.last, line_ids(t))) by {
        if k > 0 {
            let last_row = w.rows[k - 1];
            assert(t.lines[last_row].id == w.ids[k - 1]);
            assert(line_ids(t)[last_row] == w.ids[k - 1]);
            lemma_ceiling(line_ids(t), last_row);
        }
    }
    assert forall|i: int| 0 <= i < t.lines.len() implies (#[trigger] t2.lines[i]).id == t.lines[i].id
        && (t2.lines[i].position == t.lines[i].position || t2.lines[i].position == st.last) by {}
    lemma_lines_touched(t, t2, st.last);
    // only the row of the old line changes
    assert forall|i: int| 0 <= i < t.lines.len() && i != r implies #[trigger] t2.lines[i]
        == t.lines[i] by {
        if t.lines[i].id == e {
            lemma_one_row(t, r, i);
        }
    }
    assert(t2.lines[r] == LineRow { position: st.last, ..t.lines[r] });
    // the content of the old line stands for the line of the text
    assert(stands_in(c, t.lines[r].content, k as int)) by {
        assert(c.digests()[p] == text_digest(c.new_lines[k as int]));
        assert(line_row(s, olds[p].entity) == s.lines[r]);
        assert(t.lines[r].content == s.lines[r].content);
        if c.collision_free() {
            assert(line_row(s, c.olds()[p].entity).content == c.new_lines[k as int]);
        }
    }
    assert forall|i: int| 0 <= i < k implies w.ids[i] != e by {
        lemma_free_old_not_emitted(c, st, k, w, p, i);
    }
    assert(rows_linked(c, t2, k + 1, w2)) by {
        assert forall|i: int| 0 <= i < k + 1 implies 0 <= #[trigger] w2.rows[i] && w2.rows[i]
            < t2.lines.len() && t2.lines[w2.rows[i]].id == w2.ids[i] && stands_in(
            c,
            t2.lines[w2.rows[i]].content,
            i,
        ) && t2.lines[w2.rows[i]].position == link(w2.ids, i) by {
            if i < k {
                assert(w2.rows[i] == w.rows[i]);
                assert(w.ids[i] != e);
                assert(t.lines[w.rows[i]].id == w.ids[i]);
                assert(w.rows[i] != r);
                assert(t2.lines[w.rows[i]] == t.lines[w.rows[i]]);
                assert(link(w2.ids, i) == link(w.ids, i));
            }
        }
        assert forall|i: int| 0 <= i < k + 1 implies (w2.place)(#[trigger] w2.ids[i]) == i by {
            if i < k {
                assert(w2.ids[i] == w.ids[i]);
                assert(w.ids[i] != e);
            }
        }
    }
    assert(sources_kept(c, st2.used, k + 1, w2)) by {
        assert forall|i: int| 0 <= i < k + 1 implies (if #[trigger] w2.from[i] >= 0 {
            w2.from[i] < olds.len() && w2.ids[i] == olds[w2.from[i]].entity && st2.used[w2.from[i]]
                && w2.rows[i] < s.lines.len()
        } else {
            w2.rows[i] >= s.lines.len()
        }) by {
            if i < k {
                assert(w2.from[i] == w.from[i]);
            }
        }
        assert forall|q: int| 0 <= q < st2.used.len() && #[trigger] st2.used[q] implies reused(
            w2,
            q,
        ) by {
            if q == p {
                assert(w2.from[k as int] == p);
            } else {
                assert(st.used[q]);
                assert(reused(w, q));
                let i = choose|i: int| 0 <= i < w.from.len() && #[trigger] w.from[i] == q;
                assert(w2.from[i] == q);
            }
        }
        assert forall|j: int| 0 <= j < w2.fresh implies #[trigger] emitted_row(
            w2,
            s.lines.len() + j,
        ) by {
            assert(emitted_row(w, s.lines.len() + j));
            let i = choose|i: int| 0 <= i < w.rows.len() && #[trigger] w.rows[i] == s.lines.len() + j;
            assert(w2.rows[i] == s.lines.len() + j);
        }
    }
    assert(lines_grown(c, t2, w.fresh)) by {
        assert forall|i: int| 0 <= i < s.lines.len() implies (#[trigger] t2.lines[i]).id
            == s.lines[i].id && t2.lines[i].content == s.lines[i].content by {
            assert(t.lines[i].id == s.lines[i].id);
        }
        assert forall|j: int| 0 <= j < w.fresh implies (#[trigger] t2.lines[s.lines.len() + j]).id
            == ceiling(line_ids(s)) + 1 + j by {
            assert(t.lines[s.lines.len() + j].id == ceiling(line_ids(s)) + 1 + j);
        }
    }
    if ordered_well(c, k, w) {
        lemma_ordered_step(c, st.used, k, w, w2, p, r);
    }
    w2
}

/// Placing a line for which a line is made keeps what holds of the differ.
pub proof fn lemma_place_fresh(c: Saving, st: DiffState, k: nat, w: Trace) -> (w2: Trace)
    requires
        c.ready(),
        olds_known(c),
        placed_well(c, st, k, w),
        k < c.new_lines.len(),
        first_unused(c.digests(), st.used, text_digest(c.new_lines[k as int]), c.olds().len())
            is None,
    ensures
        placed_well(
            c,
            place(st, c.olds(), c.digests(), c.node, c.project, c.scope, c.new_lines[k as int]),
            k + 1,
            w2,
        ),
        w2.fresh == w.fresh + 1,
        ordered_well(c, k, w) ==> ordered_well(c, k + 1, w2),
{
    let s = c.s;
    let t = st.store;
    let olds = c.olds();
    let text = c.new_lines[k as int];
    lemma_grown_ceilings(c, t, w.fresh);
    let id = (ceiling(line_ids(s)) + 1 + w.fresh) as i64;
    assert(id == t.next_line_id());
    let row = LineRow {
        id: id,
        sn: fresh_serial(t.lines, c.project),
        project_id: c.project,
        content: text,
        position: st.last,
        node_id: c.node,
    };
    let t1 = t.with_line(row);
    let add = c.new_add(w.fresh as int);
    assert(line_ids(t1) =~= line_ids(t).push(id));
    assert(change_ids(t1) =~= change_ids(t));
    assert(t1.next_change_id() == ceiling(change_ids(s)) + 1 + w.fresh);
    let t2 = t1.with_change(add);
    let st2 = place(st, olds, c.digests(), c.node, c.project, c.scope, text);
    assert(st2.store == t2);
    assert(change_ids(t2) =~= change_ids(t).push(add.id));
    assert(line_ids(t2) =~= line_ids(t).push(id));
    // the position that the line gets is within the table
    assert(within(st.last, line_ids(t))) by {
        if k > 0 {
            let last_row = w.rows[k - 1];
            assert(t.lines[last_row].id == w.ids[k - 1]);
            assert(line_ids(t)[last_row] == w.ids[k - 1]);
            lemma_ceiling(line_ids(t), last_row);
        }
    }
    assert(t2.wf()) by {
        lemma_push_ascending(line_ids(t), id);
        lemma_push_ascending(change_ids(t), add.id);
        assert(project_ids(t2) =~= project_ids(t));
        assert(node_ids(t2) =~= node_ids(t));
        assert(folder_ids(t2) =~= folder_ids(t));
        assert(card_ids(t2) =~= card_ids(t));
        assert(block_ids(t2) =~= block_ids(t));
        assert(change_ids(s).contains(c.scope));
        let scope_at = choose|x: int| 0 <= x < change_ids(s).len() && change_ids(s)[x] == c.scope;
        lemma_ceiling(change_ids(s), scope_at);
        assert(t2.change_refs_ok(add));
        assert(t2.changes[t.changes.len() as int] == add);
        assert(forall|i: int| 0 <= i < t.changes.len() ==> #[trigger] t2.changes[i] == t.changes[i]);
        assert(forall|i: int| 0 <= i < t.lines.len() ==> #[trigger] t2.lines[i] == t.lines[i]);
        assert(t2.lines[t.lines.len() as int] == row);
        lemma_grown(t, t2);
    }
    let place2 = |x: i64|
        if x == id {
            k as int
        } else {
            (w.place)(x)
        };
    let w2 = Trace {
        ids: w.ids.push(id),
        rows: w.rows.push((s.lines.len() + w.fresh) as int),
        from: w.from.push(-1),
        place: place2,
        fresh: w.fresh + 1,
    };
    assert forall|i: int| 0 <= i < k implies w.ids[i] != id by {
        assert(t.lines[w.rows[i]].id == w.ids[i]);
        assert(line_ids(t)[w.rows[i]] == w.ids[i]);
        lemma_ceiling(line_ids(t), w.rows[i]);
    }
    assert(rows_linked(c, t2, k + 1, w2)) by {
        assert forall|i: int| 0 <= i < k + 1 implies 0 <= #[trigger] w2.rows[i] && w2.rows[i]
            < t2.lines.len() && t2.lines[w2.rows[i]].id == w2.ids[i] && stands_in(
            c,
            t2.lines[w2.rows[i]].content,
            i,
        ) && t2.lines[w2.rows[i]].position == link(w2.ids, i) by {
            if i < k {
                assert(w2.rows[i] == w.rows[i]);
                assert(t2.lines[w.rows[i]] == t.lines[w.rows[i]]);
                assert(link(w2.ids, i) == link(w.ids, i));
            }
        }
        assert forall|i: int| 0 <= i < k + 1 implies (w2.place)(#[trigger] w2.ids[i]) == i by {
            if i < k {
                assert(w2.ids[i] == w.ids[i]);
                assert(w.ids[i] != id);
            }
        }
    }
    assert(sources_kept(c, st2.used, k + 1, w2)) by {
        assert forall|i: int| 0 <= i < k + 1 implies (if #[trigger] w2.from[i] >= 0 {
            w2.from[i] < olds.len() && w2.ids[i] == olds[w2.from[i]].entity && st2.used[w2.from[i]]
                && w2.rows[i] < s.lines.len()
        } else {
            w2.rows[i] >= s.lines.len()
        }) by {
            if i < k {
                assert(w2.from[i] == w.from[i]);
            }
        }
        assert forall|q: int| 0 <= q < st2.used.len() && #[trigger] st2.used[q] implies reused(
            w2,
            q,
        ) by {
            assert(reused(w, q));
            let i = choose|i: int| 0 <= i < w.from.len() && #[trigger] w.from[i] == q;
            assert(w2.from[i] == q);
        }
        assert forall|j: int| 0 <= j < w2.fresh implies #[trigger] emitted_row(
            w2,
            s.lines.len() + j,
        ) by {
            if j < w.fresh {
                assert(emitted_row(w, s.lines.len() + j));
                let i = choose|i: int|
                    0 <= i < w.rows.len() && #[trigger] w.rows[i] == s.lines.len() + j;
                assert(w2.rows[i] == s.lines.len() + j);
            } else {
                assert(w2.rows[k as int] == s.lines.len() + j);
            }
        }
    }
    assert(lines_grown(c, t2, w2.fresh)) by {
        assert forall|i: int| 0 <= i < s.lines.len() implies (#[trigger] t2.lines[i]).id
            == s.lines[i].id && t2.lines[i].content == s.lines[i].content by {
            assert(t2.lines[i] == t.lines[i]);
        }
        assert forall|j: int| 0 <= j < w2.fresh implies (#[trigger] t2.lines[s.lines.len() + j]).id
            == ceiling(line_ids(s)) + 1 + j by {
            if j < w.fresh {
                assert(t2.lines[s.lines.len() + j] == t.lines[s.lines.len() + j]);
            }
        }
    }
    assert(log_grown(c, t2, w2.fresh)) by {
        assert forall|i: int| 0 <= i < s.changes.len() implies #[trigger] t2.changes[i]
            == s.changes[i] by {
            assert(t2.changes[i] == t.changes[i]);
        }
        assert forall|j: int| 0 <= j < w2.fresh implies #[trigger] t2.changes[s.changes.len() + j]
            == c.new_add(j) by {
            if j < w.fresh {
                assert(t2.changes[s.changes.len() + j] == t.changes[s.changes.len() + j]);
            }
        }
    }
    if ordered_well(c, k, w) {
        lemma_first_unused(c.digests(), st.used, text_digest(text), olds.len());
        assert forall|i: int| 0 <= i < k implies #[trigger] w.rows[i] < s.lines.len() + w.fresh
            || w.from[i] >= 0 by {}
        lemma_ordered_step(c, st.used, k, w, w2, -1, (s.lines.len() + w.fresh) as int);
    }
    w2
}

/// What holds of the differ holds after every line of the text.
pub proof fn lemma_placed(c: Saving, k: nat) -> (w: Trace)
    requires
        c.ready(),
        k <= c.new_lines.len(),
    ensures
        placed_well(c, c.after(k), k, w),
        ordered_well(c, k, w),
    decreases k,
{
    lemma_olds_known(c);
    if k == 0 {
        let w = Trace {
            ids: Seq::<i64>::empty(),
            rows: Seq::<int>::empty(),
            from: Seq::<int>::empty(),
            place: |x: i64| 0int,
            fresh: 0,
        };
        let st = c.after(0);
        assert(st == diff_start(c.s, c.olds()));
        w
    } else {
        let w = lemma_placed(c, (k - 1) as nat);
        let st = c.after((k - 1) as nat);
        match first_unused(
            c.digests(),
            st.used,
            text_digest(c.new_lines[k - 1]),
            c.olds().len(),
        ) {
            Some(p) => lemma_place_reuse(c, st, (k - 1) as nat, w, p),
            None => lemma_place_fresh(c, st, (k - 1) as nat, w),
        }
    }
}

/// The delete record of the `j`-th old line that a save retires, which is
/// the old line `q`.
pub open spec fn new_del(c: Saving, fresh: nat, j: int, q: int) -> ChangeRow {
    change_row(
        (ceiling(change_ids(c.s)) + fresh + 1 + j) as i64,
        Action::Del,
        Level::Line,
        c.node,
        Some(c.olds()[q].change_id),
        None,
    )
}

/// Whether the old line `q` is among those retired.
pub open spec fn retired_old(gone: Seq<int>, q: int) -> bool {
    exists|j: int| 0 <= j < gone.len() && #[trigger] gone[j] == q
}

/// The log after the first `k` old lines are retired: the log of the placed
/// lines, and then a delete record for each old line in `gone`, which are the
/// old lines up to `k` that were not taken.
pub open spec fn log_retired(
    c: Saving,
    used: Seq<bool>,
    u: StoreModel,
    fresh: nat,
    k: nat,
    gone: Seq<int>,
) -> bool {
    &&& u.changes.len() == c.s.changes.len() + fresh + gone.len()
    &&& forall|i: int| 0 <= i < c.s.changes.len() ==> #[trigger] u.changes[i] == c.s.changes[i]
    &&& forall|j: int| 0 <= j < fresh ==> #[trigger] u.changes[c.s.changes.len() + j] == c.new_add(j)
    &&& forall|j: int|
        0 <= j < gone.len() ==> 0 <= #[trigger] gone[j] && gone[j] < k && !used[gone[j]]
            && u.changes[c.s.changes.len() + fresh + j] == new_del(c, fresh, j, gone[j])
    &&& forall|q: int| 0 <= q < k && !#[trigger] used[q] ==> retired_old(gone, q)
    &&& gone.len() <= k
}

/// What holds of the store after the first `k` old lines are retired.
pub open spec fn retired_well(
    c: Saving,
    used: Seq<bool>,
    u: StoreModel,
    w: Trace,
    k: nat,
    gone: Seq<int>,
) -> bool {
    &&& u.wf()
    &&& tables_kept(c.s, u)
    &&& log_retired(c, used, u, w.fresh, k, gone)
    &&& lines_grown(c, u, w.fresh)
    &&& rows_linked(c, u, c.new_lines.len(), w)
    &&& sources_kept(c, used, c.new_lines.len(), w)
}

/// The ceiling of the log while old lines are retired.
pub proof fn lemma_retired_ceiling(
    c: Saving,
    used: Seq<bool>,
    u: StoreModel,
    fresh: nat,
    k: nat,
    gone: Seq<int>,
)
    requires
        c.s.wf(),
        log_retired(c, used, u, fresh, k, gone),
        ceiling(change_ids(c.s)) + fresh + gone.len() <= i64::MAX,
    ensures
        ceiling(change_ids(u)) == ceiling(change_ids(c.s)) + fresh + gone.len(),
        0 <= ceiling(change_ids(c.s)),
{
    let s = c.s;
    if s.changes.len() > 0 {
        lemma_ceiling(change_ids(s), s.changes.len() - 1);
    }
    let b = gone.len();
    if b > 0 {
        assert(u.changes[s.changes.len() + fresh + (b - 1)] == new_del(c, fresh, b - 1, gone[b - 1]));
        assert(change_ids(u).last() == u.changes[u.changes.len() - 1].id);
    } else if fresh > 0 {
        assert(u.changes[s.changes.len() + (fresh - 1)] == c.new_add(fresh - 1));
        assert(change_ids(u).last() == u.changes[u.changes.len() - 1].id);
    } else {
        assert(change_ids(u) =~= change_ids(s));
    }
}

/// Retiring an old line that was not taken keeps what holds of the store.
pub proof fn lemma_retire(
    c: Saving,
    st: DiffState,
    u: StoreModel,
    w: Trace,
    k: nat,
    gone: Seq<int>,
) -> (gone2:
    Seq<int>)
    requires
        c.ready(),
        olds_known(c),
        placed_well(c, st, c.new_lines.len(), w),
        retired_well(c, st.used, u, w, k, gone),
        k < c.olds().len(),
        !st.used[k as int],
    ensures
        retired_well(c, st.used, retire(u, c.node, c.olds()[k as int]), w, k + 1, gone2),
{
    let s = c.s;
    let n = c.new_lines.len();
    let olds = c.olds();
    let old = olds[k as int];
    let e = old.entity;
    let r = first_index(line_ids(s), e)->0;
    assert(s.lines[r].id == e);
    assert(u.lines[r].id == e);
    assert(line_ids(u)[r] == e);
    lemma_index_of(line_ids(u), r);
    let pred = line_row(u, e).position;
    assert(pred == u.lines[r].position);
    assert(within(pred, line_ids(u)));
    let u1 = u.relinked(e, pred);
    assert forall|i: int| 0 <= i < u.lines.len() implies (#[trigger] u1.lines[i]).id == u.lines[i].id
        && (u1.lines[i].position == u.lines[i].position || u1.lines[i].position == pred) by {}
    lemma_lines_touched(u, u1, pred);
    lemma_retired_ceiling(c, st.used, u, w.fresh, k, gone);
    assert(change_ids(u1) =~= change_ids(u));
    let del = new_del(c, w.fresh, gone.len() as int, k as int);
    assert(del.id == u1.next_change_id());
    let u2 = u1.with_change(del);
    assert(u2 == retire(u, c.node, old));
    assert(change_ids(u2) =~= change_ids(u1).push(del.id));
    assert(u2.wf()) by {
        lemma_push_ascending(change_ids(u1), del.id);
        assert(project_ids(u2) =~= project_ids(u1));
        assert(node_ids(u2) =~= node_ids(u1));
        assert(folder_ids(u2) =~= folder_ids(u1));
        assert(card_ids(u2) =~= card_ids(u1));
        assert(block_ids(u2) =~= block_ids(u1));
        assert(line_ids(u2) =~= line_ids(u1));
        assert(stands_for(s, Level::Line, ScopeModel::Under(c.scope), olds[k as int]));
        let i = choose|i: int|
            0 <= i < s.changes.len() && (#[trigger] s.changes[i]).id == old.change_id
                && s.changes[i].node_id == old.node_id && detail(s.changes[i], Level::Line) == Some(
                old.entity,
            ) && is_live_add(s, s.changes[i], Level::Line, ScopeModel::Under(c.scope));
        assert(change_ids(s)[i] == old.change_id);
        lemma_ceiling(change_ids(s), i);
        assert(node_ids(u2).contains(c.node));
        assert(u2.change_refs_ok(del));
        assert(u2.changes[u1.changes.len() as int] == del);
        assert(forall|x: int| 0 <= x < u1.changes.len() ==> #[trigger] u2.changes[x] == u1.changes[x]);
        lemma_grown(u1, u2);
    }
    let gone2 = gone.push(k as int);
    assert(rows_linked(c, u2, n, w)) by {
        assert forall|i: int| 0 <= i < n implies 0 <= #[trigger] w.rows[i] && w.rows[i]
            < u2.lines.len() && u2.lines[w.rows[i]].id == w.ids[i] && stands_in(
            c,
            u2.lines[w.rows[i]].content,
            i,
        ) && u2.lines[w.rows[i]].position == link(w.ids, i) by {
            assert(u.lines[w.rows[i]].position == link(w.ids, i));
            if i > 0 {
                lemma_free_old_not_emitted(c, st, n, w, k as int, i - 1);
            }
            assert(u1.lines[w.rows[i]] == u.lines[w.rows[i]]);
        }
    }
    assert(lines_grown(c, u2, w.fresh)) by {
        assert forall|i: int| 0 <= i < s.lines.len() implies (#[trigger] u2.lines[i]).id
            == s.lines[i].id && u2.lines[i].content == s.lines[i].content by {
            assert(u.lines[i].id == s.lines[i].id);
        }
        assert forall|j: int| 0 <= j < w.fresh implies (#[trigger] u2.lines[s.lines.len() + j]).id
            == ceiling(line_ids(s)) + 1 + j by {
            assert(u.lines[s.lines.len() + j].id == ceiling(line_ids(s)) + 1 + j);
        }
    }
    assert(log_retired(c, st.used, u2, w.fresh, k + 1, gone2)) by {
        assert forall|i: int| 0 <= i < s.changes.len() implies #[trigger] u2.changes[i]
            == s.changes[i] by {
            assert(u2.changes[i] == u.changes[i]);
        }
        assert forall|j: int| 0 <= j < w.fresh implies #[trigger] u2.changes[s.changes.len() + j]
            == c.new_add(j) by {
            assert(u2.changes[s.changes.len() + j] == u.changes[s.changes.len() + j]);
        }
        assert forall|j: int| 0 <= j < gone2.len() implies 0 <= #[trigger] gone2[j] && gone2[j] < k
            + 1 && !st.used[gone2[j]] && u2.changes[s.changes.len() + w.fresh + j] == new_del(
            c,
            w.fresh,
            j,
            gone2[j],
        ) by {
            if j < gone.len() {
                assert(gone2[j] == gone[j]);
                assert(u2.changes[s.changes.len() + w.fresh + j] == u.changes[s.changes.len()
                    + w.fresh + j]);
            }
        }
        assert forall|q: int| 0 <= q < k + 1 && !#[trigger] st.used[q] implies retired_old(
            gone2,
            q,
        ) by {
            if q < k {
                assert(retired_old(gone, q));
                let j = choose|j: int| 0 <= j < gone.len() && #[trigger] gone[j] == q;
                assert(gone2[j] == q);
            } else {
                assert(gone2[gone.len() as int] == q);
            }
        }
    }
    gone2
}

/// What holds of the store holds while the old lines are retired.
pub proof fn lemma_retired(c: Saving, w: Trace, k: nat) -> (gone: Seq<int>)
    requires
        c.ready(),
        placed_well(c, c.after(c.new_lines.len()), c.new_lines.len(), w),
        k <= c.olds().len(),
    ensures
        retired_well(c, c.after(c.new_lines.len()).used, c.retired(k), w, k, gone),
    decreases k,
{
    lemma_olds_known(c);
    let st = c.after(c.new_lines.len());
    if k == 0 {
        let gone = Seq::<int>::empty();
        assert(c.retired(0) == st.store);
        gone
    } else {
        let gone = lemma_retired(c, w, (k - 1) as nat);
        if st.used[k - 1] {
            assert(c.retired(k) == c.retired((k - 1) as nat));
            let u = c.retired(k);
            assert forall|q: int| 0 <= q < k && !#[trigger] st.used[q] implies retired_old(
                gone,
                q,
            ) by {}
            gone
        } else {
            lemma_retire(c, st, c.retired((k - 1) as nat), w, (k - 1) as nat, gone)
        }
    }
}

/// A search in a table finds what it finds in the table's beginning, where
/// the rest does not hold the id.
pub proof fn lemma_first_index_prefix(small: Seq<i64>, big: Seq<i64>, x: i64)
    requires
        small.len() <= big.len(),
        forall|i: int| 0 <= i < small.len() ==> #[trigger] big[i] == small[i],
        forall|i: int| small.len() <= i < big.len() ==> #[trigger] big[i] != x,
    ensures
        first_index(big, x) == first_index(small, x),
{
    if small.contains(x) {
        lemma_held(small, x);
        let i = first_index(small, x)->0;
        assert(is_first_index(big, x, i)) by {
            assert(big[i] == small[i]);
            assert forall|j: int| 0 <= j < i implies big[j] != x by {
                assert(big[j] == small[j]);
            }
        }
        crate::store::lemma_first_index(big, x, i);
    } else {
        lemma_absent(small, x);
        assert(!big.contains(x)) by {
            if big.contains(x) {
                let v = choose|v: int| 0 <= v < big.len() && big[v] == x;
                if v < small.len() {
                    assert(small[v] == x);
                }
            }
        }
        lemma_absent(big, x);
    }
}

/// The store after a save reads the records that were there as before.
pub proof fn lemma_saved_alike(c: Saving, used: Seq<bool>, u: StoreModel, w: Trace, k: nat, gone: Seq<int>)
    requires
        c.ready(),
        retired_well(c, used, u, w, k, gone),
        k <= c.olds().len(),
    ensures
        reads_alike(c.s, u, Level::Line, ScopeModel::Under(c.scope)),
{
    let s = c.s;
    let scope = ScopeModel::Under(c.scope);
    lemma_retired_ceiling(c, used, u, w.fresh, k, gone);
    if s.lines.len() > 0 {
        lemma_ceiling(line_ids(s), s.lines.len() - 1);
    }
    assert forall|i: int| 0 <= i < s.changes.len() implies is_live_add(
        u,
        #[trigger] s.changes[i],
        Level::Line,
        scope,
    ) == is_live_add(s, s.changes[i], Level::Line, scope) by {
        let ch = s.changes[i];
        assert(s.change_refs_ok(ch));
        if ch.detail_line is Some {
            let e = ch.detail_line->0;
            lemma_line_held_alike(c, u, w.fresh, e);
        }
    }
    assert forall|i: int, e: i64| 0 <= i < s.changes.len() implies #[trigger] del_hits(
        u,
        s.changes[i],
        Level::Line,
        e,
    ) == del_hits(s, s.changes[i], Level::Line, e) by {
        let ch = s.changes[i];
        assert(s.change_refs_ok(ch));
        if ch.target is Some {
            let x = ch.target->0;
            lemma_change_found_alike(c, used, u, w.fresh, k, gone, x);
            if first_index(change_ids(s), x) is Some {
                lemma_held_index(change_ids(s), x);
            }
        }
    }
}

/// A line that was given out before a save exists after it if it did before.
pub proof fn lemma_line_held_alike(c: Saving, u: StoreModel, fresh: nat, e: i64)
    requires
        c.s.wf(),
        lines_grown(c, u, fresh),
        e <= ceiling(line_ids(c.s)),
    ensures
        line_ids(u).contains(e) == line_ids(c.s).contains(e),
        first_index(line_ids(u), e) == first_index(line_ids(c.s), e),
{
    let s = c.s;
    assert forall|i: int| 0 <= i < line_ids(s).len() implies #[trigger] line_ids(u)[i] == line_ids(
        s,
    )[i] by {
        assert(u.lines[i].id == s.lines[i].id);
    }
    assert forall|i: int| line_ids(s).len() <= i < line_ids(u).len() implies #[trigger] line_ids(
        u,
    )[i] != e by {
        let j = i - s.lines.len();
        assert(u.lines[s.lines.len() + j].id == ceiling(line_ids(s)) + 1 + j);
    }
    lemma_first_index_prefix(line_ids(s), line_ids(u), e);
    if line_ids(s).contains(e) {
        lemma_held(line_ids(s), e);
        lemma_held_index(line_ids(u), e);
    } else {
        lemma_absent(line_ids(s), e);
        if line_ids(u).contains(e) {
            lemma_held(line_ids(u), e);
        }
    }
}

/// A record that was given out before a save is found after it where it was
/// found before.
pub proof fn lemma_change_found_alike(
    c: Saving,
    used: Seq<bool>,
    u: StoreModel,
    fresh: nat,
    k: nat,
    gone: Seq<int>,
    x: i64,
)
    requires
        c.s.wf(),
        log_retired(c, used, u, fresh, k, gone),
        ceiling(change_ids(c.s)) + fresh + gone.len() <= i64::MAX,
        x <= ceiling(change_ids(c.s)),
    ensures
        first_index(change_ids(u), x) == first_index(change_ids(c.s), x),
{
    let s = c.s;
    if s.changes.len() > 0 {
        lemma_ceiling(change_ids(s), s.changes.len() - 1);
    }
    assert forall|i: int| 0 <= i < change_ids(s).len() implies #[trigger] change_ids(u)[i]
        == change_ids(s)[i] by {
        assert(u.changes[i] == s.changes[i]);
    }
    assert forall|i: int| change_ids(s).len() <= i < change_ids(u).len() implies #[trigger] change_ids(
        u,
    )[i] != x by {
        let j = i - s.changes.len();
        if j < fresh {
            assert(u.changes[s.changes.len() + j] == c.new_add(j));
        } else {
            let d = j - fresh;
            assert(u.changes[s.changes.len() + fresh + d] == new_del(c, fresh, d, gone[d]));
        }
    }
    lemma_first_index_prefix(change_ids(s), change_ids(u), x);
}

/// The collected record of the `j`-th line that a save makes.
pub open spec fn new_found(c: Saving, j: int) -> Found {
    Found {
        change_id: (ceiling(change_ids(c.s)) + 1 + j) as i64,
        entity: (ceiling(line_ids(c.s)) + 1 + j) as i64,
        node_id: c.node,
        node_index: (c.path.len() - 1) as usize,
    }
}

/// The collected records of the first `j` lines that a save makes.
pub open spec fn new_founds(c: Saving, j: nat) -> Seq<Found> {
    Seq::new(j, |x: int| new_found(c, x))
}

/// Before the node of the save, replay collects after the save what it
/// collected before.
pub proof fn lemma_saved_gather_before(
    c: Saving,
    used: Seq<bool>,
    u: StoreModel,
    w: Trace,
    k: nat,
    gone: Seq<int>,
    m: nat,
)
    requires
        c.ready(),
        retired_well(c, used, u, w, k, gone),
        k <= c.olds().len(),
        m < c.path.len(),
    ensures
        gather(u, c.path, Level::Line, ScopeModel::Under(c.scope), m) == gather(
            c.s,
            c.path,
            Level::Line,
            ScopeModel::Under(c.scope),
            m,
        ),
    decreases m,
{
    if m > 0 {
        let s = c.s;
        let scope = ScopeModel::Under(c.scope);
        lemma_saved_gather_before(c, used, u, w, k, gone, (m - 1) as nat);
        lemma_saved_alike(c, used, u, w, k, gone);
        let acc = gather(s, c.path, Level::Line, scope, (m - 1) as nat);
        let node = c.path[m - 1];
        assert(node != c.node);
        assert forall|i: int| s.changes.len() <= i < u.changes.len() implies !((
        #[trigger] u.changes[i]).node_id == node && is_live_add(u, u.changes[i], Level::Line, scope)) by {
            let j = i - s.changes.len();
            if j < w.fresh {
                assert(u.changes[s.changes.len() + j] == c.new_add(j));
            } else {
                let d = j - w.fresh;
                assert(u.changes[s.changes.len() + w.fresh + d] == new_del(c, w.fresh, d, gone[d]));
            }
        }
        lemma_gather_node_skips(
            u,
            acc,
            node,
            (m - 1) as usize,
            Level::Line,
            scope,
            s.changes.len(),
            u.changes.len(),
        );
        lemma_gather_node_alike(s, u, acc, node, (m - 1) as usize, Level::Line, scope, s.changes.len());
    }
}

/// At the node of the save, replay collects after the save what it collected
/// before and then the lines that the save made, in their order.
pub proof fn lemma_saved_gather_adds(
    c: Saving,
    used: Seq<bool>,
    u: StoreModel,
    w: Trace,
    k: nat,
    gone: Seq<int>,
    j: nat,
)
    requires
        c.ready(),
        retired_well(c, used, u, w, k, gone),
        k <= c.olds().len(),
        j <= w.fresh,
    ensures
        gather_node(
            u,
            gather(c.s, c.path, Level::Line, ScopeModel::Under(c.scope), (c.path.len() - 1) as nat),
            c.node,
            (c.path.len() - 1) as usize,
            Level::Line,
            ScopeModel::Under(c.scope),
            c.s.changes.len() + j,
        ) == gather(c.s, c.path, Level::Line, ScopeModel::Under(c.scope), c.path.len())
            + new_founds(c, j),
    decreases j,
{
    let s = c.s;
    let scope = ScopeModel::Under(c.scope);
    let last = (c.path.len() - 1) as nat;
    let acc = gather(s, c.path, Level::Line, scope, last);
    let all = gather(s, c.path, Level::Line, scope, c.path.len());
    lemma_saved_alike(c, used, u, w, k, gone);
    if j == 0 {
        lemma_gather_node_alike(s, u, acc, c.node, last as usize, Level::Line, scope, s.changes.len());
        assert(all + new_founds(c, 0) =~= all);
    } else {
        lemma_saved_gather_adds(c, used, u, w, k, gone, (j - 1) as nat);
        let before = all + new_founds(c, (j - 1) as nat);
        let add = u.changes[s.changes.len() + (j - 1)];
        assert(add == c.new_add(j - 1));
        lemma_grown_ceilings_saved(c, u, w.fresh);
        let e = (ceiling(line_ids(s)) + 1 + (j - 1)) as i64;
        assert(u.lines[s.lines.len() + (j - 1)].id == e);
        assert(line_ids(u)[s.lines.len() + (j - 1)] == e);
        assert(is_live_add(u, add, Level::Line, scope));
        assert(!holds_entity(before, e)) by {
            if holds_entity(before, e) {
                let x = choose|x: int| 0 <= x < before.len() && (#[trigger] before[x]).entity == e;
                if x < all.len() {
                    lemma_gather_well(s, c.path, Level::Line, scope, c.path.len());
                    assert(stands_for(s, Level::Line, scope, all[x]));
                    let i = choose|i: int|
                        0 <= i < s.changes.len() && (#[trigger] s.changes[i]).id == all[x].change_id
                            && s.changes[i].node_id == all[x].node_id && detail(
                            s.changes[i],
                            Level::Line,
                        ) == Some(all[x].entity) && is_live_add(s, s.changes[i], Level::Line, scope);
                    assert(s.change_refs_ok(s.changes[i]));
                } else {
                    assert(before[x] == new_found(c, x - all.len()));
                }
            }
        }
        assert(before.push(new_found(c, j - 1)) =~= all + new_founds(c, j));
    }
}

/// The ceilings of the lines with a bound that follows from the room.
pub proof fn lemma_grown_ceilings_saved(c: Saving, u: StoreModel, fresh: nat)
    requires
        c.ready(),
        lines_grown(c, u, fresh),
        fresh <= c.new_lines.len(),
    ensures
        0 <= ceiling(line_ids(c.s)),
        0 <= ceiling(change_ids(c.s)),
        ceiling(line_ids(c.s)) + fresh <= i64::MAX,
        ceiling(change_ids(c.s)) + fresh <= i64::MAX,
{
    let s = c.s;
    if s.lines.len() > 0 {
        lemma_ceiling(line_ids(s), s.lines.len() - 1);
    }
    if s.changes.len() > 0 {
        lemma_ceiling(change_ids(s), s.changes.len() - 1);
    }
}

/// After a save, replay collects what it collected before and then the lines
/// that the save made.
pub proof fn lemma_saved_gather(c: Saving, used: Seq<bool>, u: StoreModel, w: Trace, gone: Seq<int>)
    requires
        c.ready(),
        retired_well(c, used, u, w, c.olds().len(), gone),
    ensures
        gather(u, c.path, Level::Line, ScopeModel::Under(c.scope), c.path.len()) == gather(
            c.s,
            c.path,
            Level::Line,
            ScopeModel::Under(c.scope),
            c.path.len(),
        ) + new_founds(c, w.fresh),
{
    let s = c.s;
    let scope = ScopeModel::Under(c.scope);
    let k = c.olds().len();
    let last = (c.path.len() - 1) as nat;
    lemma_saved_gather_before(c, used, u, w, k, gone, last);
    lemma_saved_gather_adds(c, used, u, w, k, gone, w.fresh);
    let acc = gather(s, c.path, Level::Line, scope, last);
    assert forall|i: int| s.changes.len() + w.fresh <= i < u.changes.len() implies !((
    #[trigger] u.changes[i]).node_id == c.node && is_live_add(u, u.changes[i], Level::Line, scope)) by {
        let d = i - s.changes.len() - w.fresh;
        assert(u.changes[s.changes.len() + w.fresh + d] == new_del(c, w.fresh, d, gone[d]));
    }
    lemma_gather_node_skips(
        u,
        acc,
        c.node,
        last as usize,
        Level::Line,
        scope,
        s.changes.len() + w.fresh,
        u.changes.len(),
    );
}

/// Whether `e` is an old line that the save retired.
pub open spec fn retired_entity(c: Saving, gone: Seq<int>, e: i64) -> bool {
    exists|j: int| 0 <= j < gone.len() && c.olds()[#[trigger] gone[j]].entity == e
}

/// After a save the add record of an old line is found where it was, and it
/// adds the old line.
pub proof fn lemma_old_record(c: Saving, used: Seq<bool>, u: StoreModel, w: Trace, gone: Seq<int>, q: int)
    requires
        c.ready(),
        olds_known(c),
        retired_well(c, used, u, w, c.olds().len(), gone),
        0 <= q < c.olds().len(),
    ensures
        first_index(change_ids(u), c.olds()[q].change_id) is Some,
        0 <= first_index(change_ids(u), c.olds()[q].change_id)->0 < c.s.changes.len(),
        detail(u.changes[first_index(change_ids(u), c.olds()[q].change_id)->0], Level::Line) == Some(
            c.olds()[q].entity,
        ),
{
    let s = c.s;
    let old = c.olds()[q];
    let scope = ScopeModel::Under(c.scope);
    assert(stands_for(s, Level::Line, scope, c.olds()[q]));
    let i = choose|i: int|
        0 <= i < s.changes.len() && (#[trigger] s.changes[i]).id == old.change_id
            && s.changes[i].node_id == old.node_id && detail(s.changes[i], Level::Line) == Some(
            old.entity,
        ) && is_live_add(s, s.changes[i], Level::Line, scope);
    assert(change_ids(s)[i] == old.change_id);
    lemma_index_of(change_ids(s), i);
    lemma_ceiling(change_ids(s), i);
    lemma_retired_ceiling(c, used, u, w.fresh, c.olds().len(), gone);
    lemma_change_found_alike(c, used, u, w.fresh, c.olds().len(), gone, old.change_id);
    assert(u.changes[i] == s.changes[i]);
}

/// What a node deletes after a save: what it deleted before, and at the node
/// of the save the old lines that the save retired.
pub proof fn lemma_saved_deleted_at(
    c: Saving,
    used: Seq<bool>,
    u: StoreModel,
    w: Trace,
    gone: Seq<int>,
    node: i64,
    e: i64,
)
    requires
        c.ready(),
        olds_known(c),
        retired_well(c, used, u, w, c.olds().len(), gone),
    ensures
        deleted_at(u, node, Level::Line, e) == (deleted_at(c.s, node, Level::Line, e) || (node
            == c.node && retired_entity(c, gone, e))),
{
    let s = c.s;
    let scope = ScopeModel::Under(c.scope);
    let n_s = s.changes.len();
    lemma_saved_alike(c, used, u, w, c.olds().len(), gone);
    if deleted_at(s, node, Level::Line, e) {
        let i = lemma_deleted_at_witness(s, node, Level::Line, e, n_s);
        assert(u.changes[i] == s.changes[i]);
        assert(del_hits(u, s.changes[i], Level::Line, e) == del_hits(s, s.changes[i], Level::Line, e));
        lemma_deleted_at_hit(u, node, Level::Line, e, i, u.changes.len());
    }
    if node == c.node && retired_entity(c, gone, e) {
        let j = choose|j: int| 0 <= j < gone.len() && c.olds()[#[trigger] gone[j]].entity == e;
        let at = n_s + w.fresh + j;
        assert(u.changes[at] == new_del(c, w.fresh, j, gone[j]));
        lemma_old_record(c, used, u, w, gone, gone[j]);
        assert(del_hits(u, u.changes[at], Level::Line, e));
        lemma_deleted_at_hit(u, node, Level::Line, e, at, u.changes.len());
    }
    if deleted_at(u, node, Level::Line, e) {
        let i = lemma_deleted_at_witness(u, node, Level::Line, e, u.changes.len());
        if i < n_s {
            assert(u.changes[i] == s.changes[i]);
            assert(del_hits(u, s.changes[i], Level::Line, e) == del_hits(
                s,
                s.changes[i],
                Level::Line,
                e,
            ));
            lemma_deleted_at_hit(s, node, Level::Line, e, i, n_s);
        } else if i < n_s + w.fresh {
            let j = i - n_s;
            assert(u.changes[n_s + j] == c.new_add(j));
        } else {
            let j = i - n_s - w.fresh;
            assert(u.changes[n_s + w.fresh + j] == new_del(c, w.fresh, j, gone[j]));
            lemma_old_record(c, used, u, w, gone, gone[j]);
            assert(c.olds()[gone[j]].entity == e);
        }
    }
}

/// What the path deletes after a save: what it deleted before, and the old
/// lines that the save retired.
pub proof fn lemma_saved_deleted_on(
    c: Saving,
    used: Seq<bool>,
    u: StoreModel,
    w: Trace,
    gone: Seq<int>,
    e: i64,
)
    requires
        c.ready(),
        olds_known(c),
        retired_well(c, used, u, w, c.olds().len(), gone),
    ensures
        deleted_on(u, c.path, Level::Line, e) == (deleted_on(c.s, c.path, Level::Line, e)
            || retired_entity(c, gone, e)),
{
    let s = c.s;
    let m = c.path.len();
    if deleted_on(s, c.path, Level::Line, e) {
        let p = lemma_deleted_on_witness(s, c.path, Level::Line, e, m);
        lemma_saved_deleted_at(c, used, u, w, gone, c.path[p], e);
        lemma_deleted_on_hit(u, c.path, Level::Line, e, p, m);
    }
    if retired_entity(c, gone, e) {
        lemma_saved_deleted_at(c, used, u, w, gone, c.node, e);
        lemma_deleted_on_hit(u, c.path, Level::Line, e, m - 1, m);
    }
    if deleted_on(u, c.path, Level::Line, e) {
        let p = lemma_deleted_on_witness(u, c.path, Level::Line, e, m);
        lemma_saved_deleted_at(c, used, u, w, gone, c.path[p], e);
        if deleted_at(s, c.path[p], Level::Line, e) {
            lemma_deleted_on_hit(s, c.path, Level::Line, e, p, m);
        }
    }
}

/// What a path deletes is a line that a record of the log refers to.
pub proof fn lemma_deleted_is_old(s: StoreModel, path: Seq<i64>, e: i64)
    requires
        s.wf(),
        deleted_on(s, path, Level::Line, e),
    ensures
        e <= ceiling(line_ids(s)),
{
    let p = lemma_deleted_on_witness(s, path, Level::Line, e, path.len());
    let i = lemma_deleted_at_witness(s, path[p], Level::Line, e, s.changes.len());
    let d = s.changes[i];
    let x = d.target->0;
    lemma_held_index(change_ids(s), x);
    let k = first_index(change_ids(s), x)->0;
    assert(s.change_refs_ok(s.changes[k]));
}

/// The live entities of a replay are all different.
pub proof fn lemma_live_distinct(s: StoreModel, path: Seq<i64>, level: Level, scope: ScopeModel)
    ensures
        forall|a: int, b: int|
            0 <= a < live(s, path, level, scope).len() && 0 <= b < live(s, path, level, scope).len() && (
            #[trigger] live(s, path, level, scope)[a]).entity == (#[trigger] live(
                s,
                path,
                level,
                scope,
            )[b]).entity ==> a == b,
{
    let found = gather(s, path, level, scope, path.len());
    lemma_gather_well(s, path, level, scope, path.len());
    let idx = lemma_survivors_indices(s, path, level, found, found.len());
    let out = live(s, path, level, scope);
    assert forall|a: int, b: int|
        0 <= a < out.len() && 0 <= b < out.len() && (#[trigger] out[a]).entity == (
        #[trigger] out[b]).entity implies a == b by {
        assert(found[idx[a]] == out[a]);
        assert(found[idx[b]] == out[b]);
        if a < b {
            assert(idx[a] < idx[b]);
            assert(found[idx[a]].entity != found[idx[b]].entity);
        }
        if b < a {
            assert(idx[b] < idx[a]);
            assert(found[idx[b]].entity != found[idx[a]].entity);
        }
    }
}

/// Whether the live entity at index `j` is the line `e`.
pub open spec fn live_at(found: Seq<Found>, e: i64, j: int) -> bool {
    0 <= j < found.len() && found[j].entity == e
}

/// After a save every emitted line is live.
pub proof fn lemma_emitted_is_live(
    c: Saving,
    used: Seq<bool>,
    u: StoreModel,
    w: Trace,
    gone: Seq<int>,
    i: int,
) -> (j: int)
    requires
        c.ready(),
        olds_known(c),
        retired_well(c, used, u, w, c.olds().len(), gone),
        0 <= i < c.new_lines.len(),
    ensures
        live_at(live(u, c.path, Level::Line, ScopeModel::Under(c.scope)), w.ids[i], j),
{
    let s = c.s;
    let scope = ScopeModel::Under(c.scope);
    let all = gather(s, c.path, Level::Line, scope, c.path.len());
    let all2 = gather(u, c.path, Level::Line, scope, c.path.len());
    lemma_saved_gather(c, used, u, w, gone);
    let e = w.ids[i];
    lemma_saved_deleted_on(c, used, u, w, gone, e);
    lemma_grown_ceilings_saved(c, u, w.fresh);
    let out = live(u, c.path, Level::Line, scope);
    lemma_survivors(u, c.path, Level::Line, all2, all2.len());
    let f: Found;
    let x: int;
    if w.from[i] >= 0 {
        let p = w.from[i];
        let idx = lemma_survivors_indices(s, c.path, Level::Line, all, all.len());
        x = idx[p];
        f = c.olds()[p];
        assert(all[x] == f);
        assert(all2[x] == f);
        lemma_survivors(s, c.path, Level::Line, all, all.len());
        assert(!deleted_on(s, c.path, Level::Line, c.olds()[p].entity));
        assert(!retired_entity(c, gone, e)) by {
            if retired_entity(c, gone, e) {
                let j = choose|j: int| 0 <= j < gone.len() && c.olds()[#[trigger] gone[j]].entity == e;
                assert(c.olds()[gone[j]].entity == c.olds()[p].entity);
            }
        }
    } else {
        let y = w.rows[i] - s.lines.len();
        assert(u.lines[s.lines.len() + y].id == ceiling(line_ids(s)) + 1 + y);
        assert(0 <= y < w.fresh);
        x = all.len() + y;
        f = new_found(c, y);
        assert(all2[x] == f);
        assert(f.entity == e);
        assert(!deleted_on(s, c.path, Level::Line, e)) by {
            if deleted_on(s, c.path, Level::Line, e) {
                lemma_deleted_is_old(s, c.path, e);
            }
        }
        assert(!retired_entity(c, gone, e)) by {
            if retired_entity(c, gone, e) {
                let j = choose|j: int| 0 <= j < gone.len() && c.olds()[#[trigger] gone[j]].entity == e;
                let q = gone[j];
                let r = first_index(line_ids(s), c.olds()[q].entity)->0;
                assert(line_ids(s)[r] == e);
                lemma_ceiling(line_ids(s), r);
            }
        }
    }
    assert(!deleted_on(u, c.path, Level::Line, all2[x].entity));
    assert(out.contains(all2[x]));
    let j = choose|j: int| 0 <= j < out.len() && out[j] == f;
    j
}

/// After a save every live line is an emitted line.
pub proof fn lemma_live_is_emitted(
    c: Saving,
    used: Seq<bool>,
    u: StoreModel,
    w: Trace,
    gone: Seq<int>,
    j: int,
) -> (i: int)
    requires
        c.ready(),
        olds_known(c),
        retired_well(c, used, u, w, c.olds().len(), gone),
        0 <= j < live(u, c.path, Level::Line, ScopeModel::Under(c.scope)).len(),
    ensures
        0 <= i < c.new_lines.len(),
        w.ids[i] == live(u, c.path, Level::Line, ScopeModel::Under(c.scope))[j].entity,
{
    let s = c.s;
    let scope = ScopeModel::Under(c.scope);
    let all = gather(s, c.path, Level::Line, scope, c.path.len());
    let all2 = gather(u, c.path, Level::Line, scope, c.path.len());
    lemma_saved_gather(c, used, u, w, gone);
    let out = live(u, c.path, Level::Line, scope);
    lemma_survivors(u, c.path, Level::Line, all2, all2.len());
    let f = out[j];
    assert(all2.take(all2.len() as int) =~= all2);
    assert(all2.contains(f));
    let x = choose|x: int| 0 <= x < all2.len() && all2[x] == f;
    lemma_saved_deleted_on(c, used, u, w, gone, f.entity);
    assert(!deleted_on(u, c.path, Level::Line, f.entity));
    lemma_grown_ceilings_saved(c, u, w.fresh);
    if x < all.len() {
        assert(all[x] == f);
        lemma_survivors(s, c.path, Level::Line, all, all.len());
        assert(c.olds().contains(all[x]));
        let p = choose|p: int| 0 <= p < c.olds().len() && c.olds()[p] == f;
        if !used[p] {
            assert(retired_old(gone, p));
            let g = choose|g: int| 0 <= g < gone.len() && #[trigger] gone[g] == p;
            assert(c.olds()[gone[g]].entity == f.entity);
            assert(retired_entity(c, gone, f.entity));
        }
        assert(used[p]);
        assert(reused(w, p));
        let i = choose|i: int| 0 <= i < w.from.len() && #[trigger] w.from[i] == p;
        i
    } else {
        let y = x - all.len();
        assert(f == new_found(c, y));
        assert(emitted_row(w, s.lines.len() + y));
        let i = choose|i: int| 0 <= i < w.rows.len() && #[trigger] w.rows[i] == s.lines.len() + y;
        assert(u.lines[s.lines.len() + y].id == ceiling(line_ids(s)) + 1 + y);
        i
    }
}

/// The live lines after a save and the emitted lines, matched: `at[i]` is
/// the index among the live lines of the `i`-th emitted line, and `rank[j]`
/// the place among the emitted lines of the live line at index `j`.
pub struct Matching {
    pub at: Seq<int>,
    pub rank: Seq<int>,
    pub slot: spec_fn(i64) -> int,
}

/// After a save the live lines of the block are the emitted lines, and they
/// form one chain in the order of the text.
pub proof fn lemma_saved_chain(c: Saving, w: Trace, gone: Seq<int>) -> (m: Matching)
    requires
        c.ready(),
        retired_well(
            c,
            c.after(c.new_lines.len()).used,
            c.retired(c.olds().len()),
            w,
            c.olds().len(),
            gone,
        ),
    ensures
        m.at.len() == c.new_lines.len(),
        is_chain(
            line_states(
                c.retired(c.olds().len()),
                live(c.retired(c.olds().len()), c.path, Level::Line, ScopeModel::Under(c.scope)),
            ),
            m.at,
            m.rank,
            m.slot,
        ),
        forall|i: int|
            0 <= i < c.new_lines.len() ==> live_at(
                live(c.retired(c.olds().len()), c.path, Level::Line, ScopeModel::Under(c.scope)),
                w.ids[i],
                #[trigger] m.at[i],
            ) && line_row(c.retired(c.olds().len()), w.ids[i]) == c.retired(
                c.olds().len(),
            ).lines[w.rows[i]],
{
    lemma_olds_known(c);
    let used = c.after(c.new_lines.len()).used;
    let u = c.retired(c.olds().len());
    let n = c.new_lines.len();
    let scope = ScopeModel::Under(c.scope);
    let found = live(u, c.path, Level::Line, scope);
    let lines = line_states(u, found);
    lemma_live_distinct(u, c.path, Level::Line, scope);
    let slot = |id: i64| choose|j: int| live_at(found, id, j);
    let rank = Seq::new(found.len(), |j: int| (w.place)(found[j].entity));
    let at = Seq::new(n, |i: int| choose|j: int| live_at(found, w.ids[i], j));
    assert forall|i: int| 0 <= i < n implies live_at(found, w.ids[i], #[trigger] at[i]) by {
        let j = lemma_emitted_is_live(c, used, u, w, gone, i);
    }
    assert forall|j: int| 0 <= j < lines.len() implies slot((#[trigger] lines[j]).id) == j by {
        assert(live_at(found, found[j].entity, j));
        let j2 = slot(lines[j].id);
        assert(live_at(found, found[j].entity, j2));
    }
    assert forall|i: int| 0 <= i < at.len() implies 0 <= #[trigger] at[i] && at[i] < lines.len()
        && rank[at[i]] == i by {
        assert(live_at(found, w.ids[i], at[i]));
        assert((w.place)(w.ids[i]) == i);
    }
    assert forall|j: int| 0 <= j < lines.len() implies 0 <= #[trigger] rank[j] && rank[j] < at.len()
        && at[rank[j]] == j by {
        let i = lemma_live_is_emitted(c, used, u, w, gone, j);
        assert((w.place)(w.ids[i]) == i);
        assert(rank[j] == i);
        assert(live_at(found, w.ids[i], at[i]));
    }
    assert forall|i: int| 0 <= i < n implies line_row(u, w.ids[i]) == u.lines[w.rows[i]] by {
        assert(u.lines[w.rows[i]].id == w.ids[i]);
        assert(line_ids(u)[w.rows[i]] == w.ids[i]);
        lemma_index_of(line_ids(u), w.rows[i]);
    }
    assert forall|i: int| 0 <= i < at.len() implies (#[trigger] lines[at[i]]).position == (if i
        == 0 {
        None
    } else {
        Some(lines[at[i - 1]].id)
    }) by {
        assert(live_at(found, w.ids[i], at[i]));
        assert(lines[at[i]] == line_state(u, found[at[i]]));
        assert(line_row(u, w.ids[i]) == u.lines[w.rows[i]]);
        assert(u.lines[w.rows[i]].position == link(w.ids, i));
        if i > 0 {
            assert(live_at(found, w.ids[i - 1], at[i - 1]));
            assert(lines[at[i - 1]] == line_state(u, found[at[i - 1]]));
        }
    }
    Matching { at: at, rank: rank, slot: slot }
}

/// After a save, replay of the block yields the emitted lines in the order of
/// the text. Where digests tell contents apart, each has the content of its
/// line of the text.
pub proof fn lemma_saved_replay(c: Saving, w: Trace, gone: Seq<int>)
    requires
        c.ready(),
        retired_well(
            c,
            c.after(c.new_lines.len()).used,
            c.retired(c.olds().len()),
            w,
            c.olds().len(),
            gone,
        ),
    ensures
        replay_lines(c.retired(c.olds().len()), c.path, c.scope).len() == c.new_lines.len(),
        forall|i: int|
            0 <= i < c.new_lines.len() ==> (#[trigger] replay_lines(
                c.retired(c.olds().len()),
                c.path,
                c.scope,
            )[i]).id == w.ids[i] && (c.collision_free() ==> replay_lines(
                c.retired(c.olds().len()),
                c.path,
                c.scope,
            )[i].content == Some(c.new_lines[i])),
{
    let u = c.retired(c.olds().len());
    let n = c.new_lines.len();
    let scope = ScopeModel::Under(c.scope);
    let found = live(u, c.path, Level::Line, scope);
    let lines = line_states(u, found);
    let m = lemma_saved_chain(c, w, gone);
    lemma_chain_order(lines, m.at, m.rank, m.slot);
    let order = line_order(lines);
    assert(order == chained(lines, m.at));
    let out = replay_lines(u, c.path, c.scope);
    assert(out == line_views(u, c.path.last(), order));
    assert forall|i: int| 0 <= i < n implies (#[trigger] out[i]).id == w.ids[i] && (
    c.collision_free() ==> out[i].content == Some(c.new_lines[i])) by {
        assert(order[i] == lines[m.at[i]]);
        assert(live_at(found, w.ids[i], m.at[i]));
        assert(lines[m.at[i]] == line_state(u, found[m.at[i]]));
        assert(out[i] == line_view(u, c.path.last(), order[i]));
        assert(line_row(u, w.ids[i]) == u.lines[w.rows[i]]);
        assert(stands_in(c, u.lines[w.rows[i]].content, i));
    }
}

} // verus!
