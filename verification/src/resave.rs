//! Saving a text over itself changes nothing: every line of the text takes
//! the line that it took before, in the place where that line stands already,
//! so no line is made, none is moved and none is retired.

use crate::chain::{injective_below, is_chain, lemma_pigeonhole};
use crate::diff::{diff_start, first_unused, place, retire_all, DiffState};
use crate::digest::text_digest;
use crate::frame::lemma_gather_well;
use crate::lines::{line_row, line_states};
use crate::replay::{gather, live, Found, ScopeModel};
use crate::roundtrip::{
    lemma_first_unused, lemma_one_row, lemma_placed, lemma_retired, lemma_saved_chain,
    lemma_saved_gather, lemma_survivors_indices, link, live_at, new_found, olds_known,
    lemma_olds_known, ordered_well, retired_well, rows_linked, stands_in, taken_before, Matching,
    Saving, Trace,
};
use crate::store::{ceiling, line_ids, StoreModel};
use crate::types::Level;
use vstd::prelude::*;

verus! {

/// The index at which the entity `e` was collected.
pub open spec fn index_in(found: Seq<Found>, e: i64) -> int {
    choose|x: int| 0 <= x < found.len() && (#[trigger] found[x]).entity == e
}

/// Where no entity was collected twice, the index of an entity is the index
/// at which it stands.
pub proof fn lemma_index_in(found: Seq<Found>, x: int)
    requires
        0 <= x < found.len(),
        forall|a: int, b: int|
            0 <= a < b < found.len() ==> (#[trigger] found[a]).entity != (#[trigger] found[b]).entity,
    ensures
        index_in(found, found[x].entity) == x,
{
    let y = index_in(found, found[x].entity);
    assert(0 <= y < found.len() && found[y].entity == found[x].entity);
    if y < x {
        assert(found[y].entity != found[x].entity);
    }
    if x < y {
        assert(found[x].entity != found[y].entity);
    }
}

/// The live entities stand in the order in which they were collected.
pub proof fn lemma_live_order(s: StoreModel, path: Seq<i64>, level: Level, scope: ScopeModel, a: int, b: int)
    requires
        0 <= a < b < live(s, path, level, scope).len(),
    ensures
        index_in(gather(s, path, level, scope, path.len()), live(s, path, level, scope)[a].entity)
            < index_in(
            gather(s, path, level, scope, path.len()),
            live(s, path, level, scope)[b].entity,
        ),
{
    let found = gather(s, path, level, scope, path.len());
    lemma_gather_well(s, path, level, scope, path.len());
    let idx = lemma_survivors_indices(s, path, level, found, found.len());
    assert(idx[a] < idx[b]);
    lemma_index_in(found, idx[a]);
    lemma_index_in(found, idx[b]);
}

/// What a save leaves, as the second save of the same text finds it: the
/// live lines of the block are the emitted lines, matched by `m`, as many as
/// the text has lines, and each has the digest of its line of the text.
pub open spec fn matched(c: Saving, w: Trace, m: Matching) -> bool {
    let u = c.retired(c.olds().len());
    let found = live(u, c.path, Level::Line, ScopeModel::Under(c.scope));
    &&& m.at.len() == c.new_lines.len()
    &&& found.len() == c.new_lines.len()
    &&& is_chain(line_states(u, found), m.at, m.rank, m.slot)
    &&& forall|i: int|
        0 <= i < c.new_lines.len() ==> live_at(found, w.ids[i], #[trigger] m.at[i]) && line_row(
            u,
            w.ids[i],
        ) == u.lines[w.rows[i]]
}

/// Where in what the second save collects the `x`-th emitted line stands: a
/// reused line where it stood, a line that the save made behind all of those,
/// in the order of making.
pub proof fn lemma_emitted_index(c: Saving, w: Trace, gone: Seq<int>, m: Matching, x: int)
    requires
        c.ready(),
        olds_known(c),
        retired_well(
            c,
            c.after(c.new_lines.len()).used,
            c.retired(c.olds().len()),
            w,
            c.olds().len(),
            gone,
        ),
        0 <= x < c.new_lines.len(),
    ensures
        ({
            let scope = ScopeModel::Under(c.scope);
            let u = c.retired(c.olds().len());
            let before = gather(c.s, c.path, Level::Line, scope, c.path.len());
            let after = gather(u, c.path, Level::Line, scope, c.path.len());
            index_in(after, w.ids[x]) == (if w.from[x] >= 0 {
                index_in(before, c.olds()[w.from[x]].entity)
            } else {
                before.len() + (w.rows[x] - c.s.lines.len())
            }) && (w.from[x] >= 0 ==> 0 <= index_in(before, c.olds()[w.from[x]].entity)
                < before.len())
        }),
{
    let scope = ScopeModel::Under(c.scope);
    let s = c.s;
    let u = c.retired(c.olds().len());
    let used = c.after(c.new_lines.len()).used;
    let before = gather(s, c.path, Level::Line, scope, c.path.len());
    let after = gather(u, c.path, Level::Line, scope, c.path.len());
    lemma_saved_gather(c, used, u, w, gone);
    lemma_gather_well(u, c.path, Level::Line, scope, c.path.len());
    lemma_gather_well(s, c.path, Level::Line, scope, c.path.len());
    if w.from[x] >= 0 {
        let p = w.from[x];
        let idx = lemma_survivors_indices(s, c.path, Level::Line, before, before.len());
        assert(before[idx[p]] == c.olds()[p]);
        lemma_index_in(before, idx[p]);
        assert(after[idx[p]] == before[idx[p]]);
        lemma_index_in(after, idx[p]);
    } else {
        let y = w.rows[x] - s.lines.len();
        assert(u.lines[s.lines.len() + y].id == ceiling(line_ids(s)) + 1 + y);
        assert(0 <= y < w.fresh);
        assert(after[before.len() + y] == new_found(c, y));
        crate::roundtrip::lemma_grown_ceilings_saved(c, u, w.fresh);
        lemma_index_in(after, before.len() + y);
    }
}

/// Lines of one digest are live in the order in which the text holds them.
pub proof fn lemma_at_ascends(c: Saving, w: Trace, gone: Seq<int>, m: Matching, k: int, i: int)
    requires
        c.ready(),
        retired_well(
            c,
            c.after(c.new_lines.len()).used,
            c.retired(c.olds().len()),
            w,
            c.olds().len(),
            gone,
        ),
        ordered_well(c, c.new_lines.len(), w),
        matched(c, w, m),
        0 <= k < i < c.new_lines.len(),
        text_digest(c.new_lines[k]) == text_digest(c.new_lines[i]),
    ensures
        m.at[k] < m.at[i],
{
    lemma_olds_known(c);
    let scope = ScopeModel::Under(c.scope);
    let s = c.s;
    let u = c.retired(c.olds().len());
    let found = live(u, c.path, Level::Line, scope);
    let before = gather(s, c.path, Level::Line, scope, c.path.len());
    assert(live_at(found, w.ids[k], m.at[k]));
    assert(live_at(found, w.ids[i], m.at[i]));
    assert(m.rank[m.at[k]] == k);
    assert(m.rank[m.at[i]] == i);
    if m.at[i] < m.at[k] {
        lemma_live_order(u, c.path, Level::Line, scope, m.at[i], m.at[k]);
        lemma_emitted_index(c, w, gone, m, k);
        lemma_emitted_index(c, w, gone, m, i);
        if w.from[i] >= 0 {
            let pi = w.from[i];
            // the old line of `i` was free when `k` was placed
            assert(!taken_before(w, pi, k)) by {
                if taken_before(w, pi, k) {
                    let x = choose|x: int| 0 <= x < k && x < w.from.len() && #[trigger] w.from[x] == pi;
                    assert(w.ids[x] == c.olds()[pi].entity);
                    assert(w.ids[i] == c.olds()[pi].entity);
                    assert((w.place)(w.ids[x]) == x);
                    assert((w.place)(w.ids[i]) == i);
                }
            }
            if w.from[k] >= 0 {
                let pk = w.from[k];
                if pi < pk {
                    assert(taken_before(w, pi, k));
                } else if pk < pi {
                    lemma_live_order(s, c.path, Level::Line, scope, pk, pi);
                } else {
                    assert(w.ids[k] == c.olds()[pk].entity);
                    assert((w.place)(w.ids[k]) == k);
                    assert((w.place)(w.ids[i]) == i);
                }
            } else {
                assert(taken_before(w, pi, k));
            }
        } else if w.from[k] < 0 {
            assert(w.rows[k] < w.rows[i]);
        }
    }
}

/// The marks of the second save after `k` lines: the live lines that stand
/// for the first `k` lines of the text are taken.
pub open spec fn taken_first(m: Matching, n: nat, k: nat) -> Seq<bool> {
    Seq::new(n, |j: int| m.rank[j] < k)
}

/// What holds while a text is saved over itself: the store is untouched,
/// and the lines of the first `k` lines of the text are taken again.
pub open spec fn resaved_well(again: Saving, w: Trace, m: Matching, st: DiffState, k: nat) -> bool {
    &&& st.store == again.s
    &&& st.used == taken_first(m, again.new_lines.len(), k)
    &&& st.last == link(w.ids, k as int)
}

/// A line that has its position already is not moved by being given it.
pub proof fn lemma_repositioned_same(u: StoreModel, row: int, position: Option<i64>)
    requires
        u.wf(),
        0 <= row < u.lines.len(),
        u.lines[row].position == position,
    ensures
        u.repositioned(u.lines[row].id, position) == u,
{
    let t = u.repositioned(u.lines[row].id, position);
    assert forall|i: int| 0 <= i < u.lines.len() implies #[trigger] t.lines[i] == u.lines[i] by {
        if u.lines[i].id == u.lines[row].id {
            lemma_one_row(u, row, i);
        }
    }
    assert(t.lines =~= u.lines);
}

/// Placing a line of the text a second time takes the line that it took
/// and changes nothing.
pub proof fn lemma_place_again(c: Saving, w: Trace, gone: Seq<int>, m: Matching, k: nat)
    requires
        c.ready(),
        retired_well(
            c,
            c.after(c.new_lines.len()).used,
            c.retired(c.olds().len()),
            w,
            c.olds().len(),
            gone,
        ),
        ordered_well(c, c.new_lines.len(), w),
        matched(c, w, m),
        k < c.new_lines.len(),
        resaved_well(
            Saving { s: c.retired(c.olds().len()), ..c },
            w,
            m,
            (Saving { s: c.retired(c.olds().len()), ..c }).after(k),
            k,
        ),
    ensures
        resaved_well(
            Saving { s: c.retired(c.olds().len()), ..c },
            w,
            m,
            (Saving { s: c.retired(c.olds().len()), ..c }).after(k + 1),
            k + 1,
        ),
{
    let u = c.retired(c.olds().len());
    let again = Saving { s: u, ..c };
    let n = c.new_lines.len();
    let scope = ScopeModel::Under(c.scope);
    let found = live(u, c.path, Level::Line, scope);
    assert(again.olds() == found);
    let st = again.after(k);
    let h = text_digest(c.new_lines[k as int]);
    let digests = again.digests();
    assert forall|i: int| 0 <= i < n implies digests[#[trigger] m.at[i]] == text_digest(
        c.new_lines[i],
    ) by {
        assert(live_at(found, w.ids[i], m.at[i]));
        assert(line_row(u, w.ids[i]) == u.lines[w.rows[i]]);
        assert(stands_in(c, u.lines[w.rows[i]].content, i));
    }
    let p = m.at[k as int];
    assert(live_at(found, w.ids[k as int], p));
    assert(m.rank[p] == k);
    assert(!st.used[p]);
    assert forall|q: int| 0 <= q < p implies st.used[q] || #[trigger] digests[q] != h by {
        let i = m.rank[q];
        assert(m.at[i] == q);
        if i > k && digests[q] == h {
            lemma_at_ascends(c, w, gone, m, k as int, i);
        }
    }
    lemma_first_unused(digests, st.used, h, n);
    let got = first_unused(digests, st.used, h, n);
    assert(got == Some(p)) by {
        if got is None {
            assert(st.used[p] || digests[p] != h);
        } else {
            let g = got->0;
            if g < p {
                assert(st.used[g] || digests[g] != h);
            }
            if p < g {
                assert(st.used[p] || digests[p] != h);
            }
        }
    }
    let st2 = place(st, again.olds(), digests, c.node, c.project, c.scope, c.new_lines[k as int]);
    assert(st2 == again.after(k + 1));
    assert(found[p].entity == w.ids[k as int]);
    let row = w.rows[k as int];
    assert(rows_linked(c, u, n, w));
    assert(u.lines[row].id == w.ids[k as int]);
    assert(u.lines[row].position == link(w.ids, k as int));
    lemma_repositioned_same(u, row, link(w.ids, k as int));
    assert(st2.store == u);
    assert(st2.used =~= taken_first(m, n, k + 1)) by {
        assert forall|j: int| 0 <= j < n implies st2.used[j] == (m.rank[j] < k + 1) by {
            assert(m.at[m.rank[j]] == j);
        }
    }
}

/// The whole text is placed a second time without a change.
pub proof fn lemma_placed_again(c: Saving, w: Trace, gone: Seq<int>, m: Matching, k: nat)
    requires
        c.ready(),
        retired_well(
            c,
            c.after(c.new_lines.len()).used,
            c.retired(c.olds().len()),
            w,
            c.olds().len(),
            gone,
        ),
        ordered_well(c, c.new_lines.len(), w),
        matched(c, w, m),
        k <= c.new_lines.len(),
    ensures
        resaved_well(
            Saving { s: c.retired(c.olds().len()), ..c },
            w,
            m,
            (Saving { s: c.retired(c.olds().len()), ..c }).after(k),
            k,
        ),
    decreases k,
{
    let u = c.retired(c.olds().len());
    let again = Saving { s: u, ..c };
    if k == 0 {
        let st = again.after(0);
        assert(st == diff_start(u, again.olds()));
        assert(st.used =~= taken_first(m, again.new_lines.len(), 0)) by {
            assert forall|j: int| 0 <= j < again.new_lines.len() implies !(m.rank[j] < 0) by {
                assert(0 <= m.rank[j]);
            }
        }
    } else {
        lemma_placed_again(c, w, gone, m, (k - 1) as nat);
        lemma_place_again(c, w, gone, m, (k - 1) as nat);
    }
}

/// Where every old line is taken, none is retired.
pub proof fn lemma_none_retired(s: StoreModel, node: i64, olds: Seq<Found>, used: Seq<bool>, k: nat)
    requires
        k <= used.len(),
        forall|i: int| 0 <= i < used.len() ==> used[i],
    ensures
        retire_all(s, node, olds, used, k) == s,
    decreases k,
{
    if k > 0 {
        lemma_none_retired(s, node, olds, used, (k - 1) as nat);
    }
}

/// After a save the live lines of the block are matched with the lines of
/// the text.
pub proof fn lemma_saved_matched(c: Saving, w: Trace, gone: Seq<int>) -> (m: Matching)
    requires
        c.ready(),
        retired_well(
            c,
            c.after(c.new_lines.len()).used,
            c.retired(c.olds().len()),
            w,
            c.olds().len(),
            gone,
        ),
    ensures
        matched(c, w, m),
{
    let u = c.retired(c.olds().len());
    let n = c.new_lines.len();
    let found = live(u, c.path, Level::Line, ScopeModel::Under(c.scope));
    let m = lemma_saved_chain(c, w, gone);
    assert(injective_below(m.at, found.len() as int)) by {
        assert forall|a: int, b: int| 0 <= a < b < m.at.len() implies #[trigger] m.at[a]
            != #[trigger] m.at[b] by {
            assert(m.rank[m.at[a]] == a);
            assert(m.rank[m.at[b]] == b);
        }
    }
    lemma_pigeonhole(m.at, found.len() as int);
    assert(injective_below(m.rank, n as int)) by {
        assert forall|a: int, b: int| 0 <= a < b < m.rank.len() implies #[trigger] m.rank[a]
            != #[trigger] m.rank[b] by {
            assert(m.at[m.rank[a]] == a);
            assert(m.at[m.rank[b]] == b);
        }
    }
    lemma_pigeonhole(m.rank, n as int);
    m
}

/// After a save, a save of the same text leaves the store as it is.
pub proof fn lemma_resave_changes_nothing(c: Saving)
    requires
        c.ready(),
    ensures
        ({
            let again = Saving { s: c.retired(c.olds().len()), ..c };
            again.retired(again.olds().len()) == again.s
        }),
{
    let w = lemma_placed(c, c.new_lines.len());
    let gone = lemma_retired(c, w, c.olds().len());
    let m = lemma_saved_matched(c, w, gone);
    let again = Saving { s: c.retired(c.olds().len()), ..c };
    let n = again.new_lines.len();
    lemma_placed_again(c, w, gone, m, n);
    let st = again.after(n);
    assert forall|j: int| 0 <= j < st.used.len() implies st.used[j] by {
        assert(m.rank[j] < n);
    }
    lemma_none_retired(st.store, again.node, again.olds(), st.used, again.olds().len());
}

} // verus!
