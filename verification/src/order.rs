//! The display order shows every line once: it is a rearrangement of the
//! lines that it is given.

use crate::chain::{injective_below, lemma_pigeonhole};
use crate::lines::{
    all_from, emitted, followers, leftovers, lemma_insert_keeps, line_order, walk, LineState,
};
use vstd::prelude::*;

verus! {

/// No two lines share an id: `slot` gives for the id of each line its index.
pub open spec fn told_apart(lines: Seq<LineState>, slot: spec_fn(i64) -> int) -> bool {
    forall|j: int| 0 <= j < lines.len() ==> slot((#[trigger] lines[j]).id) == j
}

/// No line was emitted twice: none has the id of a line before it.
pub open spec fn no_repeat(out: Seq<LineState>) -> bool {
    forall|i: int| 0 <= i < out.len() ==> !emitted(out.take(i), (#[trigger] out[i]).id)
}

/// The followers of a line are lines.
pub proof fn lemma_followers_from(lines: Seq<LineState>, pos: Option<i64>, k: nat)
    requires
        k <= lines.len(),
    ensures
        all_from(followers(lines, pos, k), lines),
    decreases k,
{
    if k > 0 {
        lemma_followers_from(lines, pos, (k - 1) as nat);
        if lines[k - 1].position == pos {
            lemma_insert_keeps(followers(lines, pos, (k - 1) as nat), lines[k - 1], lines);
        }
    }
}

/// The walk emits lines, and none twice.
pub proof fn lemma_walk_sound(lines: Seq<LineState>, queue: Seq<LineState>, qi: nat, out: Seq<LineState>)
    requires
        all_from(queue, lines),
        all_from(out, lines),
        no_repeat(out),
    ensures
        all_from(walk(lines, queue, qi, out), lines),
        no_repeat(walk(lines, queue, qi, out)),
    decreases lines.len() - qi,
{
    if !(qi >= queue.len() || qi >= lines.len()) {
        let cur = queue[qi as int];
        if emitted(out, cur.id) {
            lemma_walk_sound(lines, queue, qi + 1, out);
        } else {
            let next = followers(lines, Some(cur.id), lines.len());
            lemma_followers_from(lines, Some(cur.id), lines.len());
            let queue2 = queue + next;
            let out2 = out.push(cur);
            assert forall|j: int| 0 <= j < queue2.len() implies lines.contains(
                #[trigger] queue2[j],
            ) by {
                if j < queue.len() {
                    assert(queue2[j] == queue[j]);
                } else {
                    assert(queue2[j] == next[j - queue.len()]);
                }
            }
            assert forall|j: int| 0 <= j < out2.len() implies lines.contains(#[trigger] out2[j]) by {
                if j < out.len() {
                    assert(out2[j] == out[j]);
                } else {
                    assert(lines.contains(queue[qi as int]));
                }
            }
            assert forall|i: int| 0 <= i < out2.len() implies !emitted(
                out2.take(i),
                (#[trigger] out2[i]).id,
            ) by {
                if i < out.len() {
                    assert(out2.take(i) =~= out.take(i));
                    assert(out2[i] == out[i]);
                } else {
                    assert(out2.take(i) =~= out);
                }
            }
            lemma_walk_sound(lines, queue2, qi + 1, out2);
        }
    }
}

/// The lines left over are the lines that the walk did not reach, in their
/// order: `idx[x]` is the index of the `x`-th of them.
pub proof fn lemma_leftovers(lines: Seq<LineState>, visited: Seq<LineState>, k: nat) -> (idx: Seq<int>)
    requires
        k <= lines.len(),
    ensures
        idx.len() == leftovers(lines, visited, k).len(),
        forall|x: int|
            0 <= x < idx.len() ==> 0 <= #[trigger] idx[x] && idx[x] < k && lines[idx[x]] == leftovers(
                lines,
                visited,
                k,
            )[x] && !emitted(visited, lines[idx[x]].id),
        forall|a: int, b: int| 0 <= a < b < idx.len() ==> #[trigger] idx[a] < #[trigger] idx[b],
        forall|j: int|
            0 <= j < k && !emitted(visited, (#[trigger] lines[j]).id) ==> leftovers(
                lines,
                visited,
                k,
            ).contains(lines[j]),
    decreases k,
{
    if k == 0 {
        Seq::<int>::empty()
    } else {
        let before = lemma_leftovers(lines, visited, (k - 1) as nat);
        let left = leftovers(lines, visited, (k - 1) as nat);
        let now = leftovers(lines, visited, k);
        if emitted(visited, lines[k - 1].id) {
            before
        } else {
            let idx = before.push(k - 1);
            assert forall|a: int, b: int| 0 <= a < b < idx.len() implies #[trigger] idx[a]
                < #[trigger] idx[b] by {
                if b < before.len() {
                    assert(before[a] < before[b]);
                } else {
                    assert(idx[a] == before[a]);
                    assert(0 <= before[a] && before[a] < k - 1);
                }
            }
            assert forall|j: int|
                0 <= j < k && !emitted(visited, (#[trigger] lines[j]).id) implies now.contains(
                lines[j],
            ) by {
                if j < k - 1 {
                    assert(left.contains(lines[j]));
                    let x = choose|x: int| 0 <= x < left.len() && left[x] == lines[j];
                    assert(now[x] == lines[j]);
                } else {
                    assert(now[now.len() - 1] == lines[j]);
                }
            }
            idx
        }
    }
}

/// The display order as a rearrangement: `from[a]` is the index among the
/// lines of the line that is shown at place `a`.
pub proof fn lemma_order_indices(lines: Seq<LineState>, slot: spec_fn(i64) -> int) -> (from: Seq<int>)
    requires
        told_apart(lines, slot),
    ensures
        from.len() == line_order(lines).len(),
        forall|a: int|
            0 <= a < from.len() ==> 0 <= #[trigger] from[a] && from[a] < lines.len() && lines[from[a]]
                == line_order(lines)[a],
        forall|a: int, b: int|
            0 <= a < b < from.len() ==> #[trigger] from[a] != #[trigger] from[b],
        forall|j: int| 0 <= j < lines.len() ==> line_order(lines).contains(#[trigger] lines[j]),
{
    let heads = followers(lines, None, lines.len());
    lemma_followers_from(lines, None, lines.len());
    let none = Seq::<LineState>::empty();
    lemma_walk_sound(lines, heads, 0, none);
    let visited = walk(lines, heads, 0, none);
    let idx = lemma_leftovers(lines, visited, lines.len());
    let left = leftovers(lines, visited, lines.len());
    let order = line_order(lines);
    assert(order == visited + left);
    let from = Seq::new(order.len(), |a: int| slot(order[a].id));
    assert forall|a: int| 0 <= a < from.len() implies 0 <= #[trigger] from[a] && from[a]
        < lines.len() && lines[from[a]] == order[a] by {
        if a < visited.len() {
            assert(order[a] == visited[a]);
            assert(lines.contains(visited[a]));
            let j = choose|j: int| 0 <= j < lines.len() && lines[j] == visited[a];
            assert(slot(lines[j].id) == j);
        } else {
            let x = a - visited.len();
            assert(order[a] == left[x]);
            assert(lines[idx[x]] == left[x]);
            assert(slot(lines[idx[x]].id) == idx[x]);
        }
    }
    assert forall|a: int, b: int| 0 <= a < b < from.len() implies #[trigger] from[a]
        != #[trigger] from[b] by {
        if from[a] == from[b] {
            assert(lines[from[a]] == order[a]);
            assert(lines[from[b]] == order[b]);
            assert(order[a] == order[b]);
            if b < visited.len() {
                assert(!emitted(visited.take(b), visited[b].id));
                assert(visited.take(b)[a].id == visited[b].id);
            } else if a < visited.len() {
                let x = b - visited.len();
                assert(!emitted(visited, lines[idx[x]].id));
                assert(visited[a].id == left[x].id);
            } else {
                let x = a - visited.len();
                let y = b - visited.len();
                assert(idx[x] < idx[y]);
                assert(slot(lines[idx[x]].id) == idx[x]);
                assert(slot(lines[idx[y]].id) == idx[y]);
            }
        }
    }
    assert forall|j: int| 0 <= j < lines.len() implies order.contains(#[trigger] lines[j]) by {
        if emitted(visited, lines[j].id) {
            let a = choose|a: int| 0 <= a < visited.len() && (#[trigger] visited[a]).id == lines[j].id;
            assert(lines.contains(visited[a]));
            let j2 = choose|j2: int| 0 <= j2 < lines.len() && lines[j2] == visited[a];
            assert(slot(lines[j2].id) == j2);
            assert(slot(lines[j].id) == j);
            assert(order[a] == lines[j]);
        } else {
            assert(left.contains(lines[j]));
            let x = choose|x: int| 0 <= x < left.len() && left[x] == lines[j];
            assert(order[visited.len() + x] == lines[j]);
        }
    }
    from
}

/// The display order has as many lines as it is given.
pub proof fn lemma_order_length(lines: Seq<LineState>, slot: spec_fn(i64) -> int)
    requires
        told_apart(lines, slot),
    ensures
        line_order(lines).len() == lines.len(),
{
    let order = line_order(lines);
    let from = lemma_order_indices(lines, slot);
    assert(injective_below(from, lines.len() as int));
    lemma_pigeonhole(from, lines.len() as int);
    let to = Seq::new(lines.len(), |j: int| choose|a: int| 0 <= a < order.len() && order[a] == lines[j]);
    assert forall|j: int| 0 <= j < to.len() implies 0 <= #[trigger] to[j] && to[j] < order.len()
        && order[to[j]] == lines[j] by {
        assert(order.contains(lines[j]));
    }
    assert forall|a: int, b: int| 0 <= a < b < to.len() implies #[trigger] to[a] != #[trigger] to[b] by {
        assert(order[to[a]] == lines[a]);
        assert(order[to[b]] == lines[b]);
        assert(slot(lines[a].id) == a);
        assert(slot(lines[b].id) == b);
    }
    assert(injective_below(to, order.len() as int));
    lemma_pigeonhole(to, order.len() as int);
}

} // verus!
