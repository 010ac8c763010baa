//! Line replay: the live lines of a block in display order, each with its
//! sync dot.
//!
//! Lines are linked by `position`: a line without one heads a chain, any other
//! follows the line that its position names. Heads, and the lines that follow
//! one line, are ordered by the depth of the node that added them and then by
//! id. The lines are emitted breadth-first from the heads; lines that no chain
//! reaches come last, in the order in which replay collected them.

use crate::node::{child_nodes, children};
use crate::replay::{
    deleted_at, deleted_entities, deleted_on, deleted_on_upto, live, live_entries, Found, Scope,
    ScopeModel,
};
use crate::store::{holds_id, first_index, line_ids, Store, StoreModel};
use crate::types::{Level, LineRow, LineView, ReplayedLine};
use vstd::prelude::*;
use vstd::string::StringExecFns;

verus! {

/// A live line as the ordering reads it.
#[derive(Debug, Clone, Copy, PartialEq, Eq)]
pub struct LineState {
    pub id: i64,
    pub change_id: i64,
    pub position: Option<i64>,
    pub node_id: i64,
    pub node_index: usize,
}

/// The order among heads and among the followers of one line: by the index of
/// the owning node in the path, then by id.
pub open spec fn comes_before(a: LineState, b: LineState) -> bool {
    a.node_index < b.node_index || (a.node_index == b.node_index && a.id < b.id)
}

/// `sorted` with `x` put behind every line that does not come after it.
pub open spec fn insert_sorted(sorted: Seq<LineState>, x: LineState) -> Seq<LineState>
    decreases sorted.len(),
{
    if sorted.len() == 0 {
        seq![x]
    } else if comes_before(x, sorted.last()) {
        insert_sorted(sorted.drop_last(), x).push(sorted.last())
    } else {
        sorted.push(x)
    }
}

/// Those of the first `k` lines whose position is `pos`, in order.
pub open spec fn followers(lines: Seq<LineState>, pos: Option<i64>, k: nat) -> Seq<LineState>
    decreases k,
{
    if k == 0 {
        Seq::<LineState>::empty()
    } else {
        let before = followers(lines, pos, (k - 1) as nat);
        if lines[k - 1].position == pos {
            insert_sorted(before, lines[k - 1])
        } else {
            before
        }
    }
}

/// Whether a line with this id is among `out`.
pub open spec fn emitted(out: Seq<LineState>, id: i64) -> bool {
    exists|i: int| 0 <= i < out.len() && (#[trigger] out[i]).id == id
}

/// The breadth-first walk: takes the queue's entries from index `qi` on, emits
/// each line that was not emitted before and queues its followers.
pub open spec fn walk(lines: Seq<LineState>, queue: Seq<LineState>, qi: nat, out: Seq<LineState>) -> Seq<
    LineState,
>
    decreases lines.len() - qi,
{
    if qi >= queue.len() || qi >= lines.len() {
        out
    } else {
        let cur = queue[qi as int];
        if emitted(out, cur.id) {
            walk(lines, queue, qi + 1, out)
        } else {
            walk(lines, queue + followers(lines, Some(cur.id), lines.len()), qi + 1, out.push(cur))
        }
    }
}

/// Those of the first `k` lines that the walk did not reach.
pub open spec fn leftovers(lines: Seq<LineState>, visited: Seq<LineState>, k: nat) -> Seq<LineState>
    decreases k,
{
    if k == 0 {
        Seq::<LineState>::empty()
    } else {
        let before = leftovers(lines, visited, (k - 1) as nat);
        if emitted(visited, lines[k - 1].id) {
            before
        } else {
            before.push(lines[k - 1])
        }
    }
}

/// The display order of the live lines of a block.
pub open spec fn line_order(lines: Seq<LineState>) -> Seq<LineState> {
    let visited = walk(lines, followers(lines, None, lines.len()), 0, Seq::<LineState>::empty());
    visited + leftovers(lines, visited, lines.len())
}

/// Every line of `out` is a line of `src`.
pub open spec fn all_from(out: Seq<LineState>, src: Seq<LineState>) -> bool {
    forall|j: int| 0 <= j < out.len() ==> src.contains(#[trigger] out[j])
}

/// `insert_sorted` puts `x` at the index behind which every line comes after it.
pub proof fn lemma_insert_sorted(v: Seq<LineState>, x: LineState, i: int)
    requires
        0 <= i <= v.len(),
        forall|j: int| i <= j < v.len() ==> comes_before(x, #[trigger] v[j]),
        i > 0 ==> !comes_before(x, v[i - 1]),
    ensures
        insert_sorted(v, x) == v.insert(i, x),
    decreases v.len(),
{
    if v.len() == 0 {
        assert(seq![x] =~= v.insert(i, x));
    } else if i == v.len() {
        assert(v.push(x) =~= v.insert(i, x));
    } else {
        assert(comes_before(x, v[v.len() - 1]));
        lemma_insert_sorted(v.drop_last(), x, i);
        assert(v.drop_last().insert(i, x).push(v.last()) =~= v.insert(i, x));
    }
}

fn line_lt(a: &LineState, b: &LineState) -> (r: bool)
    ensures
        r == comes_before(*a, *b),
{
    a.node_index < b.node_index || (a.node_index == b.node_index && a.id < b.id)
}

fn same_position(a: Option<i64>, b: Option<i64>) -> (r: bool)
    ensures
        r == (a == b),
{
    match a {
        Some(x) => match b {
            Some(y) => x == y,
            None => false,
        },
        None => match b {
            Some(_) => false,
            None => true,
        },
    }
}

fn insert_line(v: &mut Vec<LineState>, x: LineState)
    ensures
        final(v)@ == insert_sorted(old(v)@, x),
{
    let mut i: usize = v.len();
    while i > 0 && line_lt(&x, &v[i - 1])
        invariant
            i <= v.len(),
            v@ == old(v)@,
            forall|j: int| i <= j < v.len() ==> comes_before(x, #[trigger] v@[j]),
        decreases i,
    {
        i -= 1;
    }
    proof {
        lemma_insert_sorted(v@, x, i as int);
    }
    v.insert(i, x);
}

/// The lines whose position is `pos`, in order.
fn followers_of(lines: &Vec<LineState>, pos: Option<i64>) -> (out: Vec<LineState>)
    ensures
        out@ == followers(lines@, pos, lines@.len()),
        all_from(out@, lines@),
{
    let mut out: Vec<LineState> = Vec::new();
    let mut k: usize = 0;
    while k < lines.len()
        invariant
            k <= lines.len(),
            out@ == followers(lines@, pos, k as nat),
            all_from(out@, lines@),
        decreases lines.len() - k,
    {
        if same_position(lines[k].position, pos) {
            let ghost before = out@;
            insert_line(&mut out, lines[k]);
            proof {
                lemma_insert_keeps(before, lines@[k as int], lines@);
            }
        }
        k += 1;
    }
    out
}

/// Inserting a line of `src` into lines of `src` gives lines of `src`.
pub proof fn lemma_insert_keeps(v: Seq<LineState>, x: LineState, src: Seq<LineState>)
    requires
        all_from(v, src),
        src.contains(x),
    ensures
        all_from(insert_sorted(v, x), src),
    decreases v.len(),
{
    if v.len() > 0 && comes_before(x, v.last()) {
        assert(all_from(v.drop_last(), src)) by {
            assert forall|j: int| 0 <= j < v.drop_last().len() implies src.contains(
                #[trigger] v.drop_last()[j],
            ) by {
                assert(v.drop_last()[j] == v[j]);
            }
        }
        lemma_insert_keeps(v.drop_last(), x, src);
        assert(src.contains(v[v.len() - 1]));
    }
}

fn was_emitted(out: &Vec<LineState>, id: i64) -> (r: bool)
    ensures
        r == emitted(out@, id),
{
    let mut i: usize = 0;
    while i < out.len()
        invariant
            i <= out.len(),
            forall|j: int| 0 <= j < i ==> (#[trigger] out@[j]).id != id,
        decreases out.len() - i,
    {
        if out[i].id == id {
            return true;
        }
        i += 1;
    }
    false
}

/// Puts the live lines of a block into display order.
pub fn sort_lines_by_position(lines: &Vec<LineState>) -> (out: Vec<LineState>)
    ensures
        out@ == line_order(lines@),
        all_from(out@, lines@),
{
    let mut queue = followers_of(lines, None);
    let mut out: Vec<LineState> = Vec::new();
    let mut qi: usize = 0;
    let ghost goal = walk(lines@, queue@, 0, Seq::<LineState>::empty());
    while qi < queue.len() && qi < lines.len()
        invariant
            walk(lines@, queue@, qi as nat, out@) == goal,
            all_from(queue@, lines@),
            all_from(out@, lines@),
        decreases lines.len() - qi,
    {
        let cur = queue[qi];
        if !was_emitted(&out, cur.id) {
            let next = followers_of(lines, Some(cur.id));
            let ghost start = queue@;
            let mut j: usize = 0;
            while j < next.len()
                invariant
                    j <= next.len(),
                    queue@ == start + next@.take(j as int),
                    all_from(queue@, lines@),
                    all_from(next@, lines@),
                decreases next.len() - j,
            {
                queue.push(next[j]);
                assert(queue@ =~= start + next@.take(j + 1));
                j += 1;
            }
            assert(next@.take(next.len() as int) =~= next@);
            assert((start + next@)[qi as int] == start[qi as int]);
            out.push(cur);
        }
        qi += 1;
    }
    let ghost visited = out@;
    let reached = out.len();
    let mut k: usize = 0;
    while k < lines.len()
        invariant
            k <= lines.len(),
            reached == visited.len(),
            out@ == visited + leftovers(lines@, visited, k as nat),
            all_from(out@, lines@),
        decreases lines.len() - k,
    {
        assert(out@.take(reached as int) =~= visited);
        if !was_emitted_prefix(&out, reached, lines[k].id) {
            out.push(lines[k]);
            assert(out@ =~= visited + leftovers(lines@, visited, (k + 1) as nat));
        }
        k += 1;
    }
    out
}

fn was_emitted_prefix(out: &Vec<LineState>, n: usize, id: i64) -> (r: bool)
    requires
        n <= out.len(),
    ensures
        r == emitted(out@.take(n as int), id),
{
    let mut i: usize = 0;
    while i < n
        invariant
            i <= n <= out.len(),
            forall|j: int| 0 <= j < i ==> (#[trigger] out@.take(n as int)[j]).id != id,
        decreases n - i,
    {
        if out[i].id == id {
            assert(out@.take(n as int)[i as int].id == id);
            return true;
        }
        i += 1;
    }
    false
}

/// How a line fares in the children of the current node.
#[derive(Debug, Clone, Copy, PartialEq, Eq, Structural)]
pub enum Color {
    /// Every child deletes it.
    Red,
    /// Some children delete it, others keep it.
    Yellow,
    /// No child deletes it.
    Green,
}

/// Where a line comes from.
#[derive(Debug, Clone, Copy, PartialEq, Eq, Structural)]
pub enum Shape {
    /// The current node added it.
    Square,
    /// An ancestor added it.
    Dot,
}

pub open spec fn color_name(c: Color) -> Seq<char> {
    match c {
        Color::Red => "red"@,
        Color::Yellow => "yellow"@,
        Color::Green => "green"@,
    }
}

pub open spec fn shape_name(s: Shape) -> Seq<char> {
    match s {
        Shape::Square => "square"@,
        Shape::Dot => "dot"@,
    }
}

/// The text of a sync dot: colour, hyphen, shape.
pub open spec fn dot_text(c: Color, s: Shape) -> Seq<char> {
    color_name(c) + "-"@ + shape_name(s)
}

/// The colour of the line `e` at `node`: red if `node` has children and each
/// of them recorded a delete of the line, yellow if some but not all did,
/// green otherwise.
pub open spec fn color_of(s: StoreModel, node: i64, e: i64) -> Color {
    let c = children(s, node);
    if c.len() > 0 && (forall|j: int|
        0 <= j < c.len() ==> deleted_at(s, #[trigger] c[j], Level::Line, e)) {
        Color::Red
    } else if exists|j: int| 0 <= j < c.len() && deleted_at(s, #[trigger] c[j], Level::Line, e) {
        Color::Yellow
    } else {
        Color::Green
    }
}

/// The shape of a line that `owner` added, seen from `current`.
pub open spec fn shape_of(owner: i64, current: i64) -> Shape {
    if owner == current {
        Shape::Square
    } else {
        Shape::Dot
    }
}

/// The row of the line with this id.
pub open spec fn line_row(s: StoreModel, id: i64) -> LineRow {
    s.lines[first_index(line_ids(s), id)->0]
}

/// A collected line with its position.
pub open spec fn line_state(s: StoreModel, f: Found) -> LineState {
    LineState {
        id: f.entity,
        change_id: f.change_id,
        position: line_row(s, f.entity).position,
        node_id: f.node_id,
        node_index: f.node_index,
    }
}

/// The collected lines with their positions.
pub open spec fn line_states(s: StoreModel, found: Seq<Found>) -> Seq<LineState> {
    Seq::new(found.len(), |i: int| line_state(s, found[i]))
}

/// A live line as replay at `current` returns it.
pub open spec fn line_view(s: StoreModel, current: i64, st: LineState) -> LineView {
    let row = line_row(s, st.id);
    LineView {
        id: st.id,
        sn: row.sn,
        content: Some(row.content),
        sync_dot: dot_text(color_of(s, current, st.id), shape_of(st.node_id, current)),
        change_id: st.change_id,
    }
}

/// The views of lines in order.
pub open spec fn line_views(s: StoreModel, current: i64, order: Seq<LineState>) -> Seq<LineView> {
    Seq::new(order.len(), |i: int| line_view(s, current, order[i]))
}

/// The live lines of the block whose add record is `block_change_id`, at the
/// end of `path`, in display order. An empty path has no lines.
pub open spec fn replay_lines(s: StoreModel, path: Seq<i64>, block_change_id: i64) -> Seq<LineView> {
    if path.len() == 0 {
        Seq::<LineView>::empty()
    } else {
        let found = live(s, path, Level::Line, ScopeModel::Under(block_change_id));
        line_views(s, path.last(), line_order(line_states(s, found)))
    }
}

/// The views of replayed lines.
pub open spec fn views_of_lines(v: Seq<ReplayedLine>) -> Seq<LineView> {
    v.map_values(|l: ReplayedLine| l@)
}

/// `list` holds the lines that `child` deletes.
pub open spec fn dels_match(s: StoreModel, child: i64, list: Seq<i64>) -> bool {
    forall|e: i64| list.contains(e) <==> deleted_at(s, child, Level::Line, e)
}

fn dot_string(c: Color, s: Shape) -> (r: String)
    ensures
        r@ == dot_text(c, s),
{
    let mut r = String::from_str(
        match c {
            Color::Red => "red",
            Color::Yellow => "yellow",
            Color::Green => "green",
        },
    );
    r.append("-");
    r.append(
        match s {
            Shape::Square => "square",
            Shape::Dot => "dot",
        },
    );
    r
}

/// The lines that each child of `node` deletes.
fn child_deletes(store: &Store, kids: &Vec<i64>) -> (out: Vec<Vec<i64>>)
    ensures
        out.len() == kids.len(),
        forall|j: int| 0 <= j < kids.len() ==> dels_match(store@, kids@[j], #[trigger] out@[j]@),
{
    let mut out: Vec<Vec<i64>> = Vec::new();
    let mut k: usize = 0;
    while k < kids.len()
        invariant
            k <= kids.len(),
            out.len() == k,
            forall|j: int| 0 <= j < k ==> dels_match(store@, kids@[j], #[trigger] out@[j]@),
        decreases kids.len() - k,
    {
        let mut one: Vec<i64> = Vec::new();
        one.push(kids[k]);
        let gone = deleted_entities(store, &one, Level::Line);
        proof {
            assert forall|e: i64| gone@.contains(e) <==> deleted_at(
                store@,
                kids@[k as int],
                Level::Line,
                e,
            ) by {
                assert(one@.len() == 1);
                assert(one@[0] == kids@[k as int]);
                assert(deleted_on(store@, one@, Level::Line, e) == deleted_on_upto(
                    store@,
                    one@,
                    Level::Line,
                    e,
                    1,
                ));
                assert(!deleted_on_upto(store@, one@, Level::Line, e, 0));
            }
        }
        out.push(gone);
        k += 1;
    }
    out
}

fn color_for(
    kids: &Vec<i64>,
    dels: &Vec<Vec<i64>>,
    e: i64,
    Ghost(s): Ghost<StoreModel>,
    Ghost(node): Ghost<i64>,
) -> (r: Color)
    requires
        kids@ == children(s, node),
        dels.len() == kids.len(),
        forall|j: int| 0 <= j < kids.len() ==> dels_match(s, kids@[j], #[trigger] dels@[j]@),
    ensures
        r == color_of(s, node, e),
{
    let mut every = true;
    let mut some = false;
    let mut j: usize = 0;
    while j < kids.len()
        invariant
            j <= kids.len(),
            dels.len() == kids.len(),
            forall|i: int| 0 <= i < kids.len() ==> dels_match(s, kids@[i], #[trigger] dels@[i]@),
            every == (forall|i: int|
                0 <= i < j ==> deleted_at(s, #[trigger] kids@[i], Level::Line, e)),
            some == (exists|i: int| 0 <= i < j && deleted_at(s, #[trigger] kids@[i], Level::Line, e)),
        decreases kids.len() - j,
    {
        let hit = holds_id(&dels[j], e);
        assert(dels_match(s, kids@[j as int], dels@[j as int]@));
        assert(hit == deleted_at(s, kids@[j as int], Level::Line, e));
        if hit {
            some = true;
        } else {
            every = false;
        }
        j += 1;
    }
    if kids.len() > 0 && every {
        Color::Red
    } else if some {
        Color::Yellow
    } else {
        Color::Green
    }
}

/// Replays the lines of one block: the live lines under the block's add record
/// at the end of `path`, in display order, each with its sync dot.
pub fn replay_lines_in_block(store: &Store, path: &Vec<i64>, block_change_id: i64) -> (out: Vec<
    ReplayedLine,
>)
    ensures
        views_of_lines(out@) == replay_lines(store@, path@, block_change_id),
{
    let mut out: Vec<ReplayedLine> = Vec::new();
    if path.len() == 0 {
        assert(views_of_lines(out@) =~= Seq::<LineView>::empty());
        return out;
    }
    let current = path[path.len() - 1];
    let found = live_entries(store, path, Level::Line, &Scope::Under(block_change_id));
    let mut states: Vec<LineState> = Vec::new();
    let mut i: usize = 0;
    while i < found.len()
        invariant
            i <= found.len(),
            crate::replay::entries_exist(store@, Level::Line, found@),
            states@ == line_states(store@, found@.take(i as int)),
        decreases found.len() - i,
    {
        let f = found[i];
        assert(line_ids(store@).contains(found@[i as int].entity));
        match store.find_line(f.entity) {
            Some(k) => {
                states.push(
                    LineState {
                        id: f.entity,
                        change_id: f.change_id,
                        position: store.lines[k].position,
                        node_id: f.node_id,
                        node_index: f.node_index,
                    },
                );
            },
            None => {},
        }
        assert(states@ =~= line_states(store@, found@.take(i + 1)));
        i += 1;
    }
    assert(found@.take(found.len() as int) =~= found@);
    let order = sort_lines_by_position(&states);
    let kids = child_nodes(store, current);
    let dels = child_deletes(store, &kids);
    let mut n: usize = 0;
    while n < order.len()
        invariant
            n <= order.len(),
            crate::replay::entries_exist(store@, Level::Line, found@),
            states@ == line_states(store@, found@),
            all_from(order@, states@),
            kids@ == children(store@, current),
            dels.len() == kids.len(),
            forall|j: int|
                0 <= j < kids.len() ==> dels_match(store@, kids@[j], #[trigger] dels@[j]@),
            views_of_lines(out@) == line_views(store@, current, order@.take(n as int)),
        decreases order.len() - n,
    {
        let st = order[n];
        proof {
            assert(states@.contains(order@[n as int]));
            let j = choose|j: int| 0 <= j < states@.len() && states@[j] == st;
            assert(st.id == found@[j].entity);
            assert(line_ids(store@).contains(st.id));
        }
        match store.find_line(st.id) {
            Some(k) => {
                let row = &store.lines[k];
                let content = Some(row.content.clone());
                let shape = if st.node_id == current {
                    Shape::Square
                } else {
                    Shape::Dot
                };
                let color = color_for(&kids, &dels, st.id, Ghost(store@), Ghost(current));
                let line = ReplayedLine {
                    id: st.id,
                    sn: row.sn.clone(),
                    content: content,
                    sync_dot: dot_string(color, shape),
                    change_id: st.change_id,
                };
                assert(line@ == line_view(store@, current, st));
                let ghost before = out@;
                out.push(line);
                assert(views_of_lines(out@) =~= views_of_lines(before).push(line@));
            },
            None => {},
        }
        assert(views_of_lines(out@) =~= line_views(store@, current, order@.take(n + 1)));
        n += 1;
    }
    assert(order@.take(order.len() as int) =~= order@);
    out
}

} // verus!
