//! Serial numbers: ascending base-62 display tags for lines.
//!
//! A serial is a string over the alphabet `a`-`z`, `A`-`Z`, `0`-`9`, read as a
//! number whose digits ascend in that order. Serials are compared by length
//! first and by value second.

use crate::text::{from_chars, to_chars};
use crate::store::line_rows;
use crate::types::{LineRow, WTLine};
use vstd::prelude::*;

verus! {

/// Whether `c` belongs to the serial alphabet.
pub open spec fn is_digit(c: char) -> bool {
    ('a' <= c && c <= 'z') || ('A' <= c && c <= 'Z') || ('0' <= c && c <= '9')
}

/// Whether `c` is a digit with a successor: any digit but the last one, `9`.
pub open spec fn can_step(c: char) -> bool {
    is_digit(c) && c != '9'
}

/// The digit after `c`: the alphabet runs `a`..`z`, then `A`..`Z`, then `0`..`9`.
pub open spec fn step(c: char) -> char {
    if c == 'z' {
        'A'
    } else if c == 'Z' {
        '0'
    } else {
        ((c as int) + 1) as char
    }
}

/// What a position right of the incremented one becomes: a digit rolls over to
/// the first digit, any other character stays.
pub open spec fn rolled(c: char) -> char {
    if is_digit(c) {
        'a'
    } else {
        c
    }
}

/// The index of the rightmost character of `s` that can be incremented, or -1.
pub open spec fn pivot(s: Seq<char>) -> int
    decreases s.len(),
{
    if s.len() == 0 {
        -1
    } else if can_step(s.last()) {
        s.len() - 1
    } else {
        pivot(s.drop_last())
    }
}

/// `n` times the first digit.
pub open spec fn first_digits(n: nat) -> Seq<char> {
    Seq::new(n, |i: int| 'a')
}

/// The serial after `s`. The rightmost character that can be incremented is,
/// and every digit to its right rolls over. Where none can be incremented the
/// serial grows by one position and starts over, at least four wide.
pub open spec fn next_serial_text(s: Seq<char>) -> Seq<char> {
    let p = pivot(s);
    if p >= 0 {
        Seq::new(
            s.len(),
            |i: int|
                if i < p {
                    s[i]
                } else if i == p {
                    step(s[i])
                } else {
                    rolled(s[i])
                },
        )
    } else if s.len() + 1 < 4 {
        first_digits(4)
    } else {
        first_digits(s.len() + 1)
    }
}

/// `pivot` finds the last position that can be incremented.
pub proof fn lemma_pivot(s: Seq<char>, p: int)
    requires
        -1 <= p < s.len(),
        p >= 0 ==> can_step(s[p]),
        forall|j: int| p < j < s.len() ==> !can_step(#[trigger] s[j]),
    ensures
        pivot(s) == p,
    decreases s.len(),
{
    if s.len() > 0 && p < s.len() - 1 {
        assert(!can_step(s[s.len() - 1]));
        lemma_pivot(s.drop_last(), p);
    }
}

fn char_can_step(c: char) -> (r: bool)
    ensures
        r == can_step(c),
{
    (c >= 'a' && c <= 'z') || (c >= 'A' && c <= 'Z') || (c >= '0' && c < '9')
}

fn char_is_digit(c: char) -> (r: bool)
    ensures
        r == is_digit(c),
{
    (c >= 'a' && c <= 'z') || (c >= 'A' && c <= 'Z') || (c >= '0' && c <= '9')
}

fn char_step(c: char) -> (r: char)
    requires
        can_step(c),
    ensures
        r == step(c),
{
    if c == 'z' {
        'A'
    } else if c == 'Z' {
        '0'
    } else {
        let b: u8 = c as u8;
        (b + 1) as char
    }
}

/// The serial that follows `sn`.
pub fn next_serial_str(sn: &str) -> (out: String)
    ensures
        out@ == next_serial_text(sn@),
{
    let x = to_chars(sn);
    let n = x.len();
    let mut i: usize = n;
    while i > 0 && !char_can_step(x[i - 1])
        invariant
            i <= n,
            n == x.len(),
            forall|j: int| i <= j < n ==> !can_step(#[trigger] x@[j]),
        decreases i,
    {
        i -= 1;
    }
    let mut out: Vec<char> = Vec::new();
    if i == 0 {
        proof {
            lemma_pivot(x@, -1);
        }
        let mut k: usize = 0;
        while k < n
            invariant
                k <= n,
                out@ == first_digits(k as nat),
            decreases n - k,
        {
            out.push('a');
            assert(out@ =~= first_digits((k + 1) as nat));
            k += 1;
        }
        out.push('a');
        assert(out@ =~= first_digits((n + 1) as nat));
        while out.len() < 4
            invariant
                out@ == first_digits(out.len() as nat),
                n + 1 <= out.len(),
                out.len() <= 4 || out.len() == n + 1,
            decreases 4 - out.len(),
        {
            let ghost m = out.len();
            out.push('a');
            assert(out@ =~= first_digits((m + 1) as nat));
        }
    } else {
        let p = i - 1;
        proof {
            lemma_pivot(x@, p as int);
        }
        let mut k: usize = 0;
        while k < n
            invariant
                k <= n,
                n == x.len(),
                p < n,
                can_step(x@[p as int]),
                out@ == next_serial_text(x@).take(k as int),
                pivot(x@) == p,
            decreases n - k,
        {
            let c = x[k];
            let d = if k < p {
                c
            } else if k == p {
                char_step(c)
            } else if char_is_digit(c) {
                'a'
            } else {
                c
            };
            out.push(d);
            assert(out@ =~= next_serial_text(x@).take(k + 1));
            k += 1;
        }
        assert(out@ =~= next_serial_text(x@));
    }
    from_chars(&out, 0, out.len())
}

/// The serial that follows `sn`.
pub fn next_serial(sn: &str) -> (out: String)
    ensures
        out@ == next_serial_text(sn@),
{
    next_serial_str(sn)
}

/// The place of a character in the order of serials. A digit has its value,
/// from 0 for `a` to 61 for `9`; every other character comes after the
/// digits, in the order of the code points.
pub open spec fn char_rank(c: char) -> int {
    if 'a' <= c && c <= 'z' {
        c as int - 'a' as int
    } else if 'A' <= c && c <= 'Z' {
        26 + (c as int - 'A' as int)
    } else if '0' <= c && c <= '9' {
        52 + (c as int - '0' as int)
    } else {
        62 + c as int
    }
}

/// Whether `a` comes before `b` among texts of one length: at the first
/// position where they differ, `a` holds the character of the lower rank.
pub open spec fn lex_less(a: Seq<char>, b: Seq<char>) -> bool {
    exists|k: int|
        0 <= k < a.len() && k < b.len() && char_rank(a[k]) < char_rank(b[k]) && forall|j: int|
            0 <= j < k ==> a[j] == b[j]
}

/// The order of serials: shorter before longer, and by value within a length.
pub open spec fn serial_less(a: Seq<char>, b: Seq<char>) -> bool {
    a.len() < b.len() || (a.len() == b.len() && lex_less(a, b))
}

fn rank_of(c: char) -> (r: u32)
    ensures
        r == char_rank(c),
{
    let n: u32 = c as u32;
    if c >= 'a' && c <= 'z' {
        n - 97
    } else if c >= 'A' && c <= 'Z' {
        26 + (n - 65)
    } else if c >= '0' && c <= '9' {
        52 + (n - 48)
    } else {
        62 + n
    }
}

/// Whether serial `a` comes before serial `b`.
pub fn serial_lt(a: &Vec<char>, b: &Vec<char>) -> (r: bool)
    ensures
        r == serial_less(a@, b@),
{
    if a.len() != b.len() {
        return a.len() < b.len();
    }
    let mut i: usize = 0;
    while i < a.len()
        invariant
            i <= a.len(),
            a.len() == b.len(),
            forall|j: int| 0 <= j < i ==> a@[j] == b@[j],
        decreases a.len() - i,
    {
        if a[i] != b[i] {
            return rank_of(a[i]) < rank_of(b[i]);
        }
        i += 1;
    }
    false
}

/// The greatest serial among the first `k` lines that belong to `project`.
pub open spec fn max_serial(lines: Seq<LineRow>, project: i64, k: nat) -> Option<Seq<char>>
    decreases k,
{
    if k == 0 {
        None
    } else {
        let before = max_serial(lines, project, (k - 1) as nat);
        let row = lines[k - 1];
        if row.project_id == project && (before is None || serial_less(before->0, row.sn)) {
            Some(row.sn)
        } else {
            before
        }
    }
}

/// The serial for the next line of `project`: the one after the greatest
/// serial in use, or `aaaa` where the project has no line yet.
pub open spec fn fresh_serial(lines: Seq<LineRow>, project: i64) -> Seq<char> {
    match max_serial(lines, project, lines.len()) {
        Some(s) => next_serial_text(s),
        None => first_digits(4),
    }
}

/// Allocates the serial for the next line of `project`.
pub fn generate_serial(lines: &Vec<WTLine>, project: i64) -> (out: String)
    ensures
        out@ == fresh_serial(line_rows(lines@), project),
{
    let mut best: Option<Vec<char>> = None;
    let mut k: usize = 0;
    while k < lines.len()
        invariant
            k <= lines.len(),
            match best {
                Some(b) => max_serial(line_rows(lines@), project, k as nat) == Some(b@),
                None => max_serial(line_rows(lines@), project, k as nat) is None,
            },
        decreases lines.len() - k,
    {
        if lines[k].project_id == project {
            let sn = to_chars(lines[k].sn.as_str());
            let better = match &best {
                Some(b) => serial_lt(b, &sn),
                None => true,
            };
            if better {
                best = Some(sn);
            }
        }
        k += 1;
    }
    match best {
        Some(b) => {
            let s = from_chars(&b, 0, b.len());
            assert(s@ =~= b@);
            next_serial_str(s.as_str())
        },
        None => {
            let empty = String::new();
            let out = next_serial_str(empty.as_str());
            proof {
                assert(pivot(Seq::<char>::empty()) == -1);
            }
            out
        },
    }
}

/// The pivot, where there is one, is a position of the serial that can be
/// incremented.
pub proof fn lemma_pivot_steps(s: Seq<char>)
    ensures
        pivot(s) >= 0 ==> pivot(s) < s.len() && can_step(s[pivot(s)]),
        pivot(s) >= -1,
    decreases s.len(),
{
    if s.len() > 0 && !can_step(s.last()) {
        lemma_pivot_steps(s.drop_last());
    }
}

/// The first position at which two different texts of one length differ.
pub proof fn lemma_first_difference(a: Seq<char>, b: Seq<char>, from: int) -> (k: int)
    requires
        a.len() == b.len(),
        a != b,
        0 <= from <= a.len(),
        forall|j: int| 0 <= j < from ==> a[j] == b[j],
    ensures
        from <= k < a.len(),
        a[k] != b[k],
        forall|j: int| 0 <= j < k ==> a[j] == b[j],
    decreases a.len() - from,
{
    if from == a.len() {
        assert(a =~= b);
        0
    } else if a[from] != b[from] {
        from
    } else {
        lemma_first_difference(a, b, from + 1)
    }
}

/// Different characters have different ranks.
pub proof fn lemma_rank_tells_apart(a: char, b: char)
    requires
        a != b,
    ensures
        char_rank(a) != char_rank(b),
{
    assert(a as int != b as int) by {
        assert((a as int) as char == a);
        assert((b as int) as char == b);
    }
}

/// Of two different serials one comes before the other.
pub proof fn lemma_serial_order_total(a: Seq<char>, b: Seq<char>)
    requires
        a != b,
    ensures
        serial_less(a, b) || serial_less(b, a),
{
    if a.len() == b.len() {
        let k = lemma_first_difference(a, b, 0);
        lemma_rank_tells_apart(a[k], b[k]);
        if char_rank(a[k]) < char_rank(b[k]) {
            assert(lex_less(a, b));
        } else {
            assert(lex_less(b, a));
        }
    }
}

/// What is at most `m` comes before what `m` comes before.
pub proof fn lemma_serial_order_chains(x: Seq<char>, m: Seq<char>, y: Seq<char>)
    requires
        !serial_less(m, x),
        serial_less(m, y),
    ensures
        serial_less(x, y),
{
    if x != m {
        lemma_serial_order_total(x, m);
        if x.len() == m.len() && m.len() == y.len() {
            let j = choose|j: int|
                0 <= j < x.len() && j < m.len() && char_rank(x[j]) < char_rank(m[j]) && forall|i: int|
                    0 <= i < j ==> x[i] == m[i];
            let k = choose|k: int|
                0 <= k < m.len() && k < y.len() && char_rank(m[k]) < char_rank(y[k]) && forall|i: int|
                    0 <= i < k ==> m[i] == y[i];
            let w = if j < k {
                j
            } else {
                k
            };
            assert(char_rank(x[w]) < char_rank(y[w]));
            assert forall|i: int| 0 <= i < w implies x[i] == y[i] by {
                assert(x[i] == m[i]);
                assert(m[i] == y[i]);
            }
            assert(lex_less(x, y));
        }
    }
}

/// The greatest serial is at least every serial of the project.
pub proof fn lemma_max_serial(lines: Seq<LineRow>, project: i64, k: nat, i: int)
    requires
        0 <= i < k <= lines.len(),
        lines[i].project_id == project,
    ensures
        max_serial(lines, project, k) is Some,
        !serial_less(max_serial(lines, project, k)->0, lines[i].sn),
    decreases k,
{
    let before = max_serial(lines, project, (k - 1) as nat);
    let row = lines[k - 1];
    if i < k - 1 {
        lemma_max_serial(lines, project, (k - 1) as nat, i);
        if row.project_id == project && serial_less(before->0, row.sn) {
            if serial_less(row.sn, lines[i].sn) {
                lemma_serial_order_chains(before->0, row.sn, lines[i].sn);
                lemma_serial_order_irreflexive(before->0, lines[i].sn);
            }
        }
    } else {
        if !(before is None || serial_less(before->0, row.sn)) {
        } else {
            lemma_serial_order_irreflexive(row.sn, row.sn);
        }
    }
}

/// No serial comes before itself, and of two serials not each comes before
/// the other.
pub proof fn lemma_serial_order_irreflexive(a: Seq<char>, b: Seq<char>)
    ensures
        !(serial_less(a, b) && serial_less(b, a)),
        !serial_less(a, a),
{
    if serial_less(a, b) && serial_less(b, a) {
        let j = choose|j: int|
            0 <= j < a.len() && j < b.len() && char_rank(a[j]) < char_rank(b[j]) && forall|i: int|
                0 <= i < j ==> a[i] == b[i];
        let k = choose|k: int|
            0 <= k < b.len() && k < a.len() && char_rank(b[k]) < char_rank(a[k]) && forall|i: int|
                0 <= i < k ==> b[i] == a[i];
        if j < k {
            assert(b[j] == a[j]);
        } else if k < j {
            assert(a[k] == b[k]);
        }
    }
    if serial_less(a, a) {
        let j = choose|j: int|
            0 <= j < a.len() && j < a.len() && char_rank(a[j]) < char_rank(a[j]) && forall|i: int|
                0 <= i < j ==> a[i] == a[i];
    }
}

} // verus!
