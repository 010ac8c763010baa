//! The line differ: turns the edited text of a block into add and delete
//! records against the lines that replay finds, matching lines by the digest
//! of their content so that an unchanged line keeps its identity.

use crate::digest::{content_digest, same_digest, text_digest};
use crate::lines::line_row;
use crate::replay::{entries_exist, live, live_entries, Found, Scope, ScopeModel};
use crate::serial::{fresh_serial, generate_serial};
use crate::store::{
    ceiling, change_ids, change_row, lemma_ceiling, line_ids, node_ids, within, Store, StoreModel,
};
use crate::text::{lines_of, split_lines, texts};
use crate::types::{Action, EngineError, Level, LineRow};
use vstd::prelude::*;

verus! {

/// The differ between two lines of the new text: the store so far, which of
/// the old lines are taken, and the line emitted last.
pub struct DiffState {
    pub store: StoreModel,
    pub used: Seq<bool>,
    pub last: Option<i64>,
}

/// The digests of the old lines.
pub open spec fn old_digests(s: StoreModel, olds: Seq<Found>) -> Seq<Seq<u8>> {
    Seq::new(olds.len(), |i: int| text_digest(line_row(s, olds[i].entity).content))
}

/// The first of the first `k` old lines that is not taken and has digest `h`.
pub open spec fn first_unused(digests: Seq<Seq<u8>>, used: Seq<bool>, h: Seq<u8>, k: nat) -> Option<int>
    decreases k,
{
    if k == 0 {
        None
    } else {
        match first_unused(digests, used, h, (k - 1) as nat) {
            Some(i) => Some(i),
            None => if !used[k - 1] && digests[k - 1] == h {
                Some(k - 1)
            } else {
                None
            },
        }
    }
}

/// Places one line of the new text. An old line with the same digest that is
/// not taken yet is reused and moved behind the line emitted last. Where there
/// is none, a new line is made behind it, with the next serial of the project,
/// and an add record at `node` under `scope`.
pub open spec fn place(
    st: DiffState,
    olds: Seq<Found>,
    digests: Seq<Seq<u8>>,
    node: i64,
    project: i64,
    scope: i64,
    t: Seq<char>,
) -> DiffState {
    match first_unused(digests, st.used, text_digest(t), olds.len()) {
        Some(i) => DiffState {
            store: st.store.repositioned(olds[i].entity, st.last),
            used: st.used.update(i, true),
            last: Some(olds[i].entity),
        },
        None => {
            let id = st.store.next_line_id() as i64;
            let with_line = st.store.with_line(
                LineRow {
                    id: id,
                    sn: fresh_serial(st.store.lines, project),
                    project_id: project,
                    content: t,
                    position: st.last,
                    node_id: node,
                },
            );
            DiffState {
                store: with_line.with_change(
                    change_row(
                        with_line.next_change_id() as i64,
                        Action::Add,
                        Level::Line,
                        node,
                        Some(scope),
                        Some(id),
                    ),
                ),
                used: st.used,
                last: Some(id),
            }
        },
    }
}

/// Places the first `k` lines of the new text, in order.
pub open spec fn place_all(
    st: DiffState,
    olds: Seq<Found>,
    digests: Seq<Seq<u8>>,
    node: i64,
    project: i64,
    scope: i64,
    new_lines: Seq<Seq<char>>,
    k: nat,
) -> DiffState
    decreases k,
{
    if k == 0 {
        st
    } else {
        place(
            place_all(st, olds, digests, node, project, scope, new_lines, (k - 1) as nat),
            olds,
            digests,
            node,
            project,
            scope,
            new_lines[k - 1],
        )
    }
}

/// Removes an old line that the new text did not reuse: the lines that
/// followed it follow its predecessor, and `node` records a delete of its add
/// record.
pub open spec fn retire(s: StoreModel, node: i64, old: Found) -> StoreModel {
    let relinked = s.relinked(old.entity, line_row(s, old.entity).position);
    relinked.with_change(
        change_row(
            relinked.next_change_id() as i64,
            Action::Del,
            Level::Line,
            node,
            Some(old.change_id),
            None,
        ),
    )
}

/// Removes those of the first `k` old lines that are not taken.
pub open spec fn retire_all(s: StoreModel, node: i64, olds: Seq<Found>, used: Seq<bool>, k: nat) -> StoreModel
    decreases k,
{
    if k == 0 {
        s
    } else {
        let before = retire_all(s, node, olds, used, (k - 1) as nat);
        if used[k - 1] {
            before
        } else {
            retire(before, node, olds[k - 1])
        }
    }
}

/// The differ's start: no old line taken, no line emitted.
pub open spec fn diff_start(s: StoreModel, olds: Seq<Found>) -> DiffState {
    DiffState { store: s, used: Seq::new(olds.len(), |i: int| false), last: None }
}

/// The old lines of a block: its live lines at the end of the path.
pub open spec fn old_lines(s: StoreModel, path: Seq<i64>, scope: i64) -> Seq<Found> {
    live(s, path, Level::Line, ScopeModel::Under(scope))
}

/// The differ after the whole new text is placed.
pub open spec fn placed(
    s: StoreModel,
    path: Seq<i64>,
    node: i64,
    project: i64,
    scope: i64,
    text: Seq<char>,
) -> DiffState {
    let olds = old_lines(s, path, scope);
    place_all(
        diff_start(s, olds),
        olds,
        old_digests(s, olds),
        node,
        project,
        scope,
        lines_of(text),
        lines_of(text).len(),
    )
}

/// The store after the text of a block is saved.
pub open spec fn save_block(
    s: StoreModel,
    path: Seq<i64>,
    node: i64,
    project: i64,
    scope: i64,
    text: Seq<char>,
) -> StoreModel {
    let olds = old_lines(s, path, scope);
    let st = placed(s, path, node, project, scope, text);
    retire_all(st.store, node, olds, st.used, olds.len())
}

/// Whether the tables have ids left for the rows that a save can need at most:
/// a line and a record for each line of the text, a record for each old line.
pub open spec fn has_room(s: StoreModel, path: Seq<i64>, scope: i64, text: Seq<char>) -> bool {
    &&& ceiling(line_ids(s)) + lines_of(text).len() <= i64::MAX
    &&& ceiling(change_ids(s)) + lines_of(text).len() + old_lines(s, path, scope).len() <= i64::MAX
}

/// Why a save is refused, if it is: the node or the block's add record does
/// not exist, or the tables have no room.
pub open spec fn save_error(
    s: StoreModel,
    path: Seq<i64>,
    node: i64,
    scope: i64,
    text: Seq<char>,
) -> Option<EngineError> {
    if !node_ids(s).contains(node) || !change_ids(s).contains(scope) {
        Some(EngineError::NotFound)
    } else if !has_room(s, path, scope, text) {
        Some(EngineError::StorageFailure)
    } else {
        None
    }
}

fn has_space(last: i64, a: usize, b: usize) -> (r: bool)
    requires
        last >= 0,
    ensures
        r == (last + a + b <= i64::MAX),
{
    let room: u64 = (i64::MAX - last) as u64;
    let x: u64 = a as u64;
    let y: u64 = b as u64;
    x <= room && y <= room - x
}

/// The digests of the old lines, as computed from their rows.
fn digests_of(store: &Store, olds: &Vec<Found>) -> (out: Vec<[u8; 16]>)
    requires
        entries_exist(store@, Level::Line, olds@),
    ensures
        out.len() == olds.len(),
        forall|i: int| 0 <= i < olds.len() ==> (#[trigger] out@[i])@ == old_digests(store@, olds@)[i],
{
    let mut out: Vec<[u8; 16]> = Vec::new();
    let mut i: usize = 0;
    while i < olds.len()
        invariant
            i <= olds.len(),
            out.len() == i,
            entries_exist(store@, Level::Line, olds@),
            forall|j: int| 0 <= j < i ==> (#[trigger] out@[j])@ == old_digests(store@, olds@)[j],
        decreases olds.len() - i,
    {
        assert(line_ids(store@).contains(olds@[i as int].entity));
        let d = match store.find_line(olds[i].entity) {
            Some(k) => content_digest(store.lines[k].content.as_str()),
            None => [0u8; 16],
        };
        out.push(d);
        i += 1;
    }
    out
}

/// The first old line that is not taken and has the digest `h`.
fn find_unused(digests: &Vec<[u8; 16]>, used: &Vec<bool>, h: &[u8; 16], Ghost(spec_digests): Ghost<
    Seq<Seq<u8>>,
>) -> (r: Option<usize>)
    requires
        used.len() == digests.len(),
        spec_digests.len() == digests.len(),
        forall|i: int| 0 <= i < digests.len() ==> (#[trigger] digests@[i])@ == spec_digests[i],
    ensures
        match r {
            Some(i) => i < digests.len() && first_unused(spec_digests, used@, h@, digests.len() as nat)
                == Some(i as int),
            None => first_unused(spec_digests, used@, h@, digests.len() as nat) is None,
        },
{
    let mut i: usize = 0;
    while i < digests.len()
        invariant
            i <= digests.len(),
            used.len() == digests.len(),
            spec_digests.len() == digests.len(),
            forall|j: int| 0 <= j < digests.len() ==> (#[trigger] digests@[j])@ == spec_digests[j],
            first_unused(spec_digests, used@, h@, i as nat) is None,
        decreases digests.len() - i,
    {
        if !used[i] && same_digest(&digests[i], h) {
            proof {
                lemma_first_unused_stays(spec_digests, used@, h@, (i + 1) as nat, digests.len() as nat);
            }
            return Some(i);
        }
        i += 1;
    }
    None
}

/// Once found, the first unused match stays the answer for longer prefixes.
pub proof fn lemma_first_unused_stays(digests: Seq<Seq<u8>>, used: Seq<bool>, h: Seq<u8>, k: nat, n: nat)
    requires
        k <= n,
        first_unused(digests, used, h, k) is Some,
    ensures
        first_unused(digests, used, h, n) == first_unused(digests, used, h, k),
    decreases n - k,
{
    if k < n {
        lemma_first_unused_stays(digests, used, h, k, (n - 1) as nat);
    }
}

/// Saves the text of a block at a node. Each line of the text reuses the first
/// old line of the same content that is still free, or becomes a new line; the
/// old lines that are left over are deleted at the node. On an error the store
/// is unchanged.
pub fn diff_and_save_block_content(
    store: &mut Store,
    path: &Vec<i64>,
    node_id: i64,
    project_id: i64,
    block_change_id: i64,
    new_content: &str,
) -> (r: Result<(), EngineError>)
    requires
        old(store)@.wf(),
    ensures
        final(store)@.wf(),
        match save_error(old(store)@, path@, node_id, block_change_id, new_content@) {
            Some(e) => r == Err::<(), EngineError>(e) && final(store)@ == old(store)@,
            None => r is Ok && final(store)@ == save_block(
                old(store)@,
                path@,
                node_id,
                project_id,
                block_change_id,
                new_content@,
            ),
        },
{
    let ghost s0 = store@;
    let node_at = store.find_node(node_id);
    let scope_at = store.find_change(block_change_id);
    if node_at.is_none() || scope_at.is_none() {
        return Err(EngineError::NotFound);
    }
    proof {
        lemma_ceiling(change_ids(s0), scope_at.unwrap() as int);
    }
    let olds = live_entries(store, path, Level::Line, &Scope::Under(block_change_id));
    let new_lines = split_lines(new_content);
    let n = new_lines.len();
    let n_old = olds.len();
    if !has_space(store.last_line_id(), n, 0) || !has_space(store.last_change_id(), n, n_old) {
        return Err(EngineError::StorageFailure);
    }
    let digests = digests_of(store, &olds);
    let ghost spec_digests = old_digests(s0, olds@);
    let mut used: Vec<bool> = Vec::new();
    while used.len() < n_old
        invariant
            used.len() <= n_old,
            forall|j: int| 0 <= j < used.len() ==> !used@[j],
        decreases n_old - used.len(),
    {
        used.push(false);
    }
    assert(used@ =~= diff_start(s0, olds@).used);
    proof {
        assert forall|j: int| 0 <= j < olds.len() implies (#[trigger] olds@[j]).change_id <= ceiling(
            change_ids(s0),
        ) by {
            let c = olds@[j].change_id;
            assert(change_ids(s0).contains(c));
            let w = choose|w: int| 0 <= w < change_ids(s0).len() && change_ids(s0)[w] == c;
            lemma_ceiling(change_ids(s0), w);
        }
    }
    let mut last: Option<i64> = None;
    let mut k: usize = 0;
    while k < n
        invariant
            k <= n,
            n == new_lines.len(),
            n_old == olds.len(),
            used.len() == n_old,
            digests.len() == n_old,
            spec_digests == old_digests(s0, olds@),
            forall|i: int| 0 <= i < n_old ==> (#[trigger] digests@[i])@ == spec_digests[i],
            texts(new_lines@) == lines_of(new_content@),
            store@.wf(),
            node_ids(store@).contains(node_id),
            block_change_id <= ceiling(change_ids(store@)),
            within(last, line_ids(store@)),
            forall|j: int|
                0 <= j < olds.len() ==> line_ids(store@).contains((#[trigger] olds@[j]).entity),
            forall|j: int|
                0 <= j < olds.len() ==> (#[trigger] olds@[j]).change_id <= ceiling(
                    change_ids(store@),
                ),
            ceiling(line_ids(store@)) + (n - k) <= i64::MAX,
            ceiling(change_ids(store@)) + (n - k) + n_old <= i64::MAX,
            (DiffState { store: store@, used: used@, last: last }) == place_all(
                diff_start(s0, olds@),
                olds@,
                spec_digests,
                node_id,
                project_id,
                block_change_id,
                lines_of(new_content@),
                k as nat,
            ),
        decreases n - k,
    {
        let ghost before = DiffState { store: store@, used: used@, last: last };
        let ghost t = lines_of(new_content@)[k as int];
        assert(new_lines@[k as int]@ == t) by {
            assert(texts(new_lines@)[k as int] == new_lines@[k as int]@);
        }
        let h = content_digest(new_lines[k].as_str());
        match find_unused(&digests, &used, &h, Ghost(spec_digests)) {
            Some(i) => {
                let id = olds[i].entity;
                store.set_position(id, last);
                used.set(i, true);
                last = Some(id);
                proof {
                    assert(line_ids(store@) =~= line_ids(before.store));
                    assert(line_ids(store@).contains(olds@[i as int].entity));
                    let w = choose|w: int|
                        0 <= w < line_ids(store@).len() && line_ids(store@)[w] == id;
                    lemma_ceiling(line_ids(store@), w);
                }
            },
            None => {
                let sn = generate_serial(&store.lines, project_id);
                let content = new_lines[k].clone();
                let id = store.push_line(sn, project_id, content, last, node_id);
                proof {
                    assert(line_ids(store@) =~= line_ids(before.store).push(id));
                    assert forall|j: int| 0 <= j < olds.len() implies line_ids(store@).contains(
                        (#[trigger] olds@[j]).entity,
                    ) by {
                        let e = olds@[j].entity;
                        assert(line_ids(before.store).contains(e));
                        let w = choose|w: int|
                            0 <= w < line_ids(before.store).len() && line_ids(before.store)[w] == e;
                        assert(line_ids(store@)[w] == e);
                    }
                }
                let ghost mid = store@;
                store.push_change(
                    Action::Add,
                    Level::Line,
                    node_id,
                    Some(block_change_id),
                    Some(id),
                );
                last = Some(id);
                assert(line_ids(store@) =~= line_ids(mid));
            },
        }
        assert((DiffState { store: store@, used: used@, last: last }) == place(
            before,
            olds@,
            spec_digests,
            node_id,
            project_id,
            block_change_id,
            t,
        ));
        k += 1;
    }
    let ghost after = store@;
    let mut i: usize = 0;
    while i < n_old
        invariant
            i <= n_old,
            n_old == olds.len(),
            used.len() == n_old,
            store@.wf(),
            node_ids(store@).contains(node_id),
            forall|j: int|
                0 <= j < olds.len() ==> line_ids(store@).contains((#[trigger] olds@[j]).entity),
            forall|j: int|
                0 <= j < olds.len() ==> (#[trigger] olds@[j]).change_id <= ceiling(
                    change_ids(store@),
                ),
            ceiling(change_ids(store@)) + (n_old - i) <= i64::MAX,
            store@ == retire_all(after, node_id, olds@, used@, i as nat),
        decreases n_old - i,
    {
        if !used[i] {
            let old = olds[i];
            let pred = match store.find_line(old.entity) {
                Some(r) => store.lines[r].position,
                None => None,
            };
            let ghost cur = store@;
            assert(line_ids(cur).contains(olds@[i as int].entity));
            assert(pred == line_row(cur, old.entity).position);
            assert(within(pred, line_ids(cur)));
            store.relink(old.entity, pred);
            let ghost mid = store@;
            assert(line_ids(mid) =~= line_ids(cur));
            store.push_change(Action::Del, Level::Line, node_id, Some(old.change_id), None);
            assert(line_ids(store@) =~= line_ids(mid));
        }
        i += 1;
    }
    Ok(())
}

} // verus!
