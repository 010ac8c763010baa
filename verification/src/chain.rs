//! Lines that form one chain come out in the order of the chain.

use crate::lines::{
    emitted, followers, insert_sorted, leftovers, line_order, walk, LineState,
};
use vstd::prelude::*;

verus! {

/// `values` are `n` different indices below `m`.
pub open spec fn injective_below(values: Seq<int>, m: int) -> bool {
    &&& forall|i: int| 0 <= i < values.len() ==> 0 <= #[trigger] values[i] && values[i] < m
    &&& forall|a: int, b: int|
        0 <= a < b < values.len() ==> #[trigger] values[a] != #[trigger] values[b]
}

/// There are at most `m` different indices below `m`.
pub proof fn lemma_pigeonhole(values: Seq<int>, m: int)
    requires
        injective_below(values, m),
        0 <= m,
    ensures
        values.len() <= m,
    decreases m,
{
    if values.len() > 0 {
        if m == 0 {
            assert(0 <= values[0] && values[0] < m);
        } else if exists|i: int| 0 <= i < values.len() && values[i] == m - 1 {
            let i = choose|i: int| 0 <= i < values.len() && values[i] == m - 1;
            let rest = values.remove(i);
            assert forall|j: int| 0 <= j < rest.len() implies 0 <= #[trigger] rest[j] && rest[j] < m
                - 1 by {
                if j < i {
                    assert(rest[j] == values[j]);
                    assert(values[j] != values[i]);
                } else {
                    assert(rest[j] == values[j + 1]);
                    assert(values[i] != values[j + 1]);
                }
            }
            assert forall|a: int, b: int| 0 <= a < b < rest.len() implies #[trigger] rest[a]
                != #[trigger] rest[b] by {
                let x = if a < i {
                    a
                } else {
                    a + 1
                };
                let y = if b < i {
                    b
                } else {
                    b + 1
                };
                assert(rest[a] == values[x]);
                assert(rest[b] == values[y]);
                assert(values[x] != values[y]);
            }
            lemma_pigeonhole(rest, m - 1);
        } else {
            assert forall|j: int| 0 <= j < values.len() implies 0 <= #[trigger] values[j]
                && values[j] < m - 1 by {
                assert(values[j] != m - 1);
            }
            lemma_pigeonhole(values, m - 1);
        }
    }
}

/// The lines form one chain. `at[i]` is the index of the `i`-th line of the
/// chain and `rank[j]` the place in the chain of the line at index `j`, so
/// that every line is in the chain once; `slot` gives the index of the line
/// of an id, so that no two lines share an id. The first line of the chain has
/// no position, and each other has the id of the one before it as its
/// position.
pub open spec fn is_chain(
    lines: Seq<LineState>,
    at: Seq<int>,
    rank: Seq<int>,
    slot: spec_fn(i64) -> int,
) -> bool {
    &&& rank.len() == lines.len()
    &&& forall|i: int|
        0 <= i < at.len() ==> 0 <= #[trigger] at[i] && at[i] < lines.len() && rank[at[i]] == i
    &&& forall|j: int|
        0 <= j < lines.len() ==> 0 <= #[trigger] rank[j] && rank[j] < at.len() && at[rank[j]] == j
    &&& forall|j: int| 0 <= j < lines.len() ==> slot((#[trigger] lines[j]).id) == j
    &&& forall|i: int|
        0 <= i < at.len() ==> (#[trigger] lines[at[i]]).position == (if i == 0 {
            None
        } else {
            Some(lines[at[i - 1]].id)
        })
}

/// The lines in the order of the chain.
pub open spec fn chained(lines: Seq<LineState>, at: Seq<int>) -> Seq<LineState> {
    Seq::new(at.len(), |i: int| lines[at[i]])
}

/// Where no line has the position, none follows.
pub proof fn lemma_no_followers(lines: Seq<LineState>, pos: Option<i64>, k: nat)
    requires
        k <= lines.len(),
        forall|j: int| 0 <= j < k ==> (#[trigger] lines[j]).position != pos,
    ensures
        followers(lines, pos, k) == Seq::<LineState>::empty(),
    decreases k,
{
    if k > 0 {
        lemma_no_followers(lines, pos, (k - 1) as nat);
        assert(lines[k - 1].position != pos);
    }
}

/// Where one line has the position, it alone follows.
pub proof fn lemma_one_follower(lines: Seq<LineState>, pos: Option<i64>, j: int, k: nat)
    requires
        0 <= j < k <= lines.len(),
        forall|i: int| 0 <= i < k ==> ((#[trigger] lines[i]).position == pos <==> i == j),
    ensures
        followers(lines, pos, k) == seq![lines[j]],
    decreases k,
{
    if k - 1 == j {
        lemma_no_followers(lines, pos, (k - 1) as nat);
        assert(lines[k - 1].position == pos);
        assert(insert_sorted(Seq::<LineState>::empty(), lines[j]) == seq![lines[j]]);
    } else {
        lemma_one_follower(lines, pos, j, (k - 1) as nat);
        assert(lines[k - 1].position != pos);
    }
}

/// Whether the line at index `j` follows the `q`-th line of the chain, or is
/// a head where `q` is -1.
pub proof fn lemma_chain_position(
    lines: Seq<LineState>,
    at: Seq<int>,
    rank: Seq<int>,
    slot: spec_fn(i64) -> int,
    q: int,
    j: int,
)
    requires
        is_chain(lines, at, rank, slot),
        -1 <= q < at.len(),
        0 <= j < lines.len(),
    ensures
        lines[j].position == (if q < 0 {
            None
        } else {
            Some(lines[at[q]].id)
        }) <==> rank[j] == q + 1,
{
    let i = rank[j];
    assert(at[i] == j);
    assert(lines[at[i]].position == (if i == 0 {
        None
    } else {
        Some(lines[at[i - 1]].id)
    }));
    if i > 0 && q >= 0 {
        let a = at[i - 1];
        let b = at[q];
        assert(slot(lines[a].id) == a);
        assert(slot(lines[b].id) == b);
        assert(rank[a] == i - 1);
        assert(rank[b] == q);
    }
}

/// The heads of a chain: its first line.
pub proof fn lemma_chain_heads(
    lines: Seq<LineState>,
    at: Seq<int>,
    rank: Seq<int>,
    slot: spec_fn(i64) -> int,
)
    requires
        is_chain(lines, at, rank, slot),
    ensures
        followers(lines, None, lines.len()) == (if at.len() == 0 {
            Seq::<LineState>::empty()
        } else {
            seq![lines[at[0]]]
        }),
{
    if at.len() == 0 {
        assert forall|j: int| 0 <= j < lines.len() implies (#[trigger] lines[j]).position != None::<
            i64,
        > by {
            assert(0 <= rank[j] && rank[j] < at.len());
        }
        lemma_no_followers(lines, None, lines.len());
    } else {
        assert forall|j: int| 0 <= j < lines.len() implies ((#[trigger] lines[j]).position
            == None::<i64> <==> j == at[0]) by {
            lemma_chain_position(lines, at, rank, slot, -1, j);
            assert(at[rank[j]] == j);
            assert(rank[at[0]] == 0);
        }
        assert(0 <= at[0] && at[0] < lines.len());
        lemma_one_follower(lines, None, at[0], lines.len());
    }
}

/// The followers of the `q`-th line of a chain: the next line, if there is one.
pub proof fn lemma_chain_next(
    lines: Seq<LineState>,
    at: Seq<int>,
    rank: Seq<int>,
    slot: spec_fn(i64) -> int,
    q: int,
)
    requires
        is_chain(lines, at, rank, slot),
        0 <= q < at.len(),
    ensures
        followers(lines, Some(lines[at[q]].id), lines.len()) == (if q + 1 < at.len() {
            seq![lines[at[q + 1]]]
        } else {
            Seq::<LineState>::empty()
        }),
{
    let pos = Some(lines[at[q]].id);
    if q + 1 < at.len() {
        let next = at[q + 1];
        assert(0 <= next && next < lines.len() && rank[next] == q + 1);
        assert forall|j: int| 0 <= j < lines.len() implies ((#[trigger] lines[j]).position == pos
            <==> j == next) by {
            lemma_chain_position(lines, at, rank, slot, q, j);
            assert(at[rank[j]] == j);
        }
        lemma_one_follower(lines, pos, next, lines.len());
    } else {
        assert forall|j: int| 0 <= j < lines.len() implies (#[trigger] lines[j]).position != pos by {
            lemma_chain_position(lines, at, rank, slot, q, j);
            assert(0 <= rank[j] && rank[j] < at.len());
        }
        lemma_no_followers(lines, pos, lines.len());
    }
}

/// The queue of the walk when it takes the `q`-th line of a chain.
pub open spec fn chain_queue(lines: Seq<LineState>, at: Seq<int>, q: int) -> Seq<LineState> {
    if q + 1 < at.len() {
        chained(lines, at).take(q + 1)
    } else {
        chained(lines, at)
    }
}

/// The walk along a chain emits the chain.
pub proof fn lemma_chain_walk(
    lines: Seq<LineState>,
    at: Seq<int>,
    rank: Seq<int>,
    slot: spec_fn(i64) -> int,
    q: nat,
)
    requires
        is_chain(lines, at, rank, slot),
        q <= at.len(),
        at.len() <= lines.len(),
    ensures
        walk(lines, chain_queue(lines, at, q as int), q, chained(lines, at).take(q as int))
            == chained(lines, at),
    decreases at.len() - q,
{
    let c = chained(lines, at);
    let queue = chain_queue(lines, at, q as int);
    let out = c.take(q as int);
    if q >= at.len() {
        assert(out =~= c);
    } else {
        let cur = queue[q as int];
        assert(cur == lines[at[q as int]]);
        assert(!emitted(out, cur.id)) by {
            if emitted(out, cur.id) {
                let i = choose|i: int| 0 <= i < out.len() && (#[trigger] out[i]).id == cur.id;
                assert(out[i] == lines[at[i]]);
                let a = at[i];
                let b = at[q as int];
                assert(slot(lines[a].id) == a);
                assert(slot(lines[b].id) == b);
                assert(rank[a] == i);
                assert(rank[b] == q);
            }
        }
        lemma_chain_next(lines, at, rank, slot, q as int);
        let next = followers(lines, Some(cur.id), lines.len());
        assert(queue + next =~= chain_queue(lines, at, (q + 1) as int));
        assert(out.push(cur) =~= c.take((q + 1) as int));
        lemma_chain_walk(lines, at, rank, slot, q + 1);
    }
}

/// The walk along a chain leaves no line over.
pub proof fn lemma_chain_leftovers(
    lines: Seq<LineState>,
    at: Seq<int>,
    rank: Seq<int>,
    slot: spec_fn(i64) -> int,
    k: nat,
)
    requires
        is_chain(lines, at, rank, slot),
        k <= lines.len(),
    ensures
        leftovers(lines, chained(lines, at), k) == Seq::<LineState>::empty(),
    decreases k,
{
    if k > 0 {
        lemma_chain_leftovers(lines, at, rank, slot, (k - 1) as nat);
        let i = rank[k - 1];
        assert(at[i] == k - 1);
        assert(chained(lines, at)[i].id == lines[k - 1].id);
    }
}

/// Lines that form one chain are displayed in the order of the chain.
pub proof fn lemma_chain_order(
    lines: Seq<LineState>,
    at: Seq<int>,
    rank: Seq<int>,
    slot: spec_fn(i64) -> int,
)
    requires
        is_chain(lines, at, rank, slot),
    ensures
        line_order(lines) == chained(lines, at),
{
    assert(injective_below(at, lines.len() as int)) by {
        assert forall|a: int, b: int| 0 <= a < b < at.len() implies #[trigger] at[a]
            != #[trigger] at[b] by {
            assert(rank[at[a]] == a);
            assert(rank[at[b]] == b);
        }
    }
    lemma_pigeonhole(at, lines.len() as int);
    lemma_chain_heads(lines, at, rank, slot);
    let c = chained(lines, at);
    if at.len() == 0 {
        assert(c =~= Seq::<LineState>::empty());
    } else {
        assert(chain_queue(lines, at, 0) =~= seq![lines[at[0]]]);
        assert(c.take(0) =~= Seq::<LineState>::empty());
        lemma_chain_walk(lines, at, rank, slot, 0);
    }
    lemma_chain_leftovers(lines, at, rank, slot, lines.len());
    assert(c + Seq::<LineState>::empty() =~= c);
}

} // verus!
