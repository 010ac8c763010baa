//! Text helpers: strings as sequences of characters.

use vstd::prelude::*;
use vstd::string::*;

verus! {

/// The contract of `String::push` of the standard library, which is taken on
/// trust: after the call the string holds the characters that it held, and
/// then `c`.
pub assume_specification[ String::push ](s: &mut String, c: char)
    ensures
        final(s)@ == old(s)@.push(c),
;

/// The characters of `s`.
pub fn to_chars(s: &str) -> (v: Vec<char>)
    ensures
        v@ == s@,
{
    let mut v: Vec<char> = Vec::new();
    for c in it: s.chars()
        invariant
            it.seq() == s@,
            v@ == s@.take(it.index()),
    {
        v.push(c);
    }
    assert(v@ == s@);
    v
}

/// The string made of the characters `v[from..to]`.
pub fn from_chars(v: &Vec<char>, from: usize, to: usize) -> (s: String)
    requires
        from <= to <= v.len(),
    ensures
        s@ == v@.subrange(from as int, to as int),
{
    let mut s = String::new();
    let mut i: usize = from;
    while i < to
        invariant
            from <= i <= to <= v.len(),
            s@ == v@.subrange(from as int, i as int),
        decreases to - i,
    {
        s.push(v[i]);
        i += 1;
    }
    s
}

/// Whether two strings hold the same characters.
pub fn text_eq(a: &str, b: &str) -> (r: bool)
    ensures
        r == (a@ == b@),
{
    let x = to_chars(a);
    let y = to_chars(b);
    if x.len() != y.len() {
        return false;
    }
    let mut i: usize = 0;
    while i < x.len()
        invariant
            i <= x.len(),
            x.len() == y.len(),
            x@ == a@,
            y@ == b@,
            forall|j: int| 0 <= j < i ==> x@[j] == y@[j],
        decreases x.len() - i,
    {
        if x[i] != y[i] {
            return false;
        }
        i += 1;
    }
    assert(x@ =~= y@);
    true
}

/// Whether `s` begins with `prefix`.
pub open spec fn has_prefix(s: Seq<char>, prefix: Seq<char>) -> bool {
    prefix.len() <= s.len() && s.take(prefix.len() as int) == prefix
}

/// Whether `s` begins with `prefix`.
pub fn starts_with(s: &str, prefix: &str) -> (r: bool)
    ensures
        r == has_prefix(s@, prefix@),
{
    let x = to_chars(s);
    let p = to_chars(prefix);
    if p.len() > x.len() {
        return false;
    }
    let mut i: usize = 0;
    while i < p.len()
        invariant
            i <= p.len() <= x.len(),
            x@ == s@,
            p@ == prefix@,
            forall|j: int| 0 <= j < i ==> x@[j] == p@[j],
        decreases p.len() - i,
    {
        if x[i] != p[i] {
            assert(x@.take(p.len() as int)[i as int] != p@[i as int]);
            return false;
        }
        i += 1;
    }
    assert(x@.take(p.len() as int) =~= p@);
    true
}

/// The pieces of `s` between line feeds. A text of `n` line feeds has `n + 1`
/// pieces, some of which may be empty.
pub open spec fn pieces(s: Seq<char>) -> Seq<Seq<char>>
    decreases s.len(),
{
    if s.len() == 0 {
        seq![Seq::<char>::empty()]
    } else {
        let before = pieces(s.drop_last());
        if s.last() == '\n' {
            before.push(Seq::<char>::empty())
        } else {
            before.drop_last().push(before.last().push(s.last()))
        }
    }
}

/// The lines of a text: none for the empty text, else its pieces.
pub open spec fn lines_of(s: Seq<char>) -> Seq<Seq<char>> {
    if s.len() == 0 {
        Seq::<Seq<char>>::empty()
    } else {
        pieces(s)
    }
}

/// The views of a vector of strings.
pub open spec fn texts(v: Seq<String>) -> Seq<Seq<char>> {
    v.map_values(|s: String| s@)
}

/// Splits a text into its lines.
pub fn split_lines(text: &str) -> (out: Vec<String>)
    ensures
        texts(out@) == lines_of(text@),
{
    let x = to_chars(text);
    let mut out: Vec<String> = Vec::new();
    if x.len() == 0 {
        assert(texts(out@) =~= lines_of(text@));
        return out;
    }
    let mut start: usize = 0;
    let mut i: usize = 0;
    while i < x.len()
        invariant
            start <= i <= x.len(),
            pieces(x@.take(i as int)).len() == out.len() + 1,
            texts(out@) == pieces(x@.take(i as int)).drop_last(),
            pieces(x@.take(i as int)).last() == x@.subrange(start as int, i as int),
        decreases x.len() - i,
    {
        proof {
            assert(x@.take(i + 1).drop_last() =~= x@.take(i as int));
            assert(x@.take(i + 1).last() == x@[i as int]);
        }
        let ghost before = pieces(x@.take(i as int));
        if x[i] == '\n' {
            let piece = from_chars(&x, start, i);
            let ghost prev = out@;
            out.push(piece);
            start = i + 1;
            proof {
                assert(texts(out@) =~= texts(prev).push(piece@));
                assert(before.push(Seq::<char>::empty()).drop_last() =~= before);
                assert(before =~= before.drop_last().push(before.last()));
                assert(x@.subrange(start as int, i + 1) =~= Seq::<char>::empty());
            }
        } else {
            proof {
                let after = before.drop_last().push(before.last().push(x@[i as int]));
                assert(after.drop_last() =~= before.drop_last());
                assert(x@.subrange(start as int, i + 1) =~= x@.subrange(start as int, i as int).push(
                    x@[i as int],
                ));
            }
        }
        i += 1;
    }
    let piece = from_chars(&x, start, i);
    let ghost prev = out@;
    out.push(piece);
    proof {
        assert(x@.take(i as int) =~= x@);
        assert(texts(out@) =~= texts(prev).push(piece@));
        let all = pieces(x@);
        assert(all =~= all.drop_last().push(all.last()));
    }
    out
}

/// Whether `c` is one of the digits `0` to `9`.
pub open spec fn is_decimal(c: char) -> bool {
    '0' <= c && c <= '9'
}

/// Whether `d` holds nothing but digits.
pub open spec fn all_decimal(d: Seq<char>) -> bool {
    forall|i: int| 0 <= i < d.len() ==> is_decimal(#[trigger] d[i])
}

/// The number that a sequence of digits writes in base ten.
pub open spec fn digits_value(d: Seq<char>) -> int
    decreases d.len(),
{
    if d.len() == 0 {
        0
    } else {
        10 * digits_value(d.drop_last()) + (d.last() as int - '0' as int)
    }
}

/// The digits of a number text: the text without its sign.
pub open spec fn unsigned_part(s: Seq<char>) -> Seq<char> {
    if s.len() > 0 && (s[0] == '-' || s[0] == '+') {
        s.skip(1)
    } else {
        s
    }
}

/// The number that a text writes: an optional sign and then digits, at least
/// one, and nothing else. `None` for any other text, and for a number that an
/// `i64` cannot hold.
pub open spec fn parse_id(s: Seq<char>) -> Option<i64> {
    let d = unsigned_part(s);
    let v = if s.len() > 0 && s[0] == '-' {
        -digits_value(d)
    } else {
        digits_value(d)
    };
    if d.len() > 0 && all_decimal(d) && i64::MIN <= v && v <= i64::MAX {
        Some(v as i64)
    } else {
        None
    }
}

/// The value of a sequence of digits is at least that of each of its prefixes.
pub proof fn lemma_digits_grow(d: Seq<char>, k: int)
    requires
        all_decimal(d),
        0 <= k <= d.len(),
    ensures
        0 <= digits_value(d.take(k)) <= digits_value(d),
    decreases d.len() - k,
{
    lemma_digits_nonnegative(d.take(k));
    if k < d.len() {
        assert(d.take(k + 1).drop_last() =~= d.take(k));
        assert(is_decimal(d.take(k + 1).last()));
        lemma_digits_grow(d, k + 1);
    } else {
        assert(d.take(k) =~= d);
    }
}

/// Digits write a number that is not negative.
pub proof fn lemma_digits_nonnegative(d: Seq<char>)
    requires
        all_decimal(d),
    ensures
        0 <= digits_value(d),
    decreases d.len(),
{
    if d.len() > 0 {
        assert(is_decimal(d.last()));
        lemma_digits_nonnegative(d.drop_last());
    }
}

/// Reads a number from a text.
pub fn parse_number(text: &str) -> (r: Option<i64>)
    ensures
        r == parse_id(text@),
{
    let x = to_chars(text);
    if x.len() == 0 {
        return None;
    }
    let negative = x[0] == '-';
    let start: usize = if x[0] == '-' || x[0] == '+' {
        1
    } else {
        0
    };
    if start == x.len() {
        return None;
    }
    let ghost d = unsigned_part(x@);
    assert(d =~= x@.subrange(start as int, x.len() as int));
    let limit: u64 = if negative {
        9223372036854775808
    } else {
        9223372036854775807
    };
    let mut mag: u64 = 0;
    let mut k: usize = start;
    while k < x.len()
        invariant
            start <= k <= x.len(),
            x@ == text@,
            d == x@.subrange(start as int, x.len() as int),
            d == unsigned_part(x@),
            x.len() > 0,
            negative == (x@[0] == '-'),
            limit == (if negative {
                9223372036854775808u64
            } else {
                9223372036854775807u64
            }),
            all_decimal(d.take(k - start)),
            mag == digits_value(d.take(k - start)),
            mag <= limit,
        decreases x.len() - k,
    {
        let c = x[k];
        if !(c >= '0' && c <= '9') {
            assert(!is_decimal(d[k - start]));
            return None;
        }
        let v: u64 = (c as u32 - '0' as u32) as u64;
        proof {
            assert(d.take(k - start + 1).drop_last() =~= d.take(k - start));
            assert(d.take(k - start + 1).last() == c);
            assert forall|i: int| 0 <= i < d.take(k - start + 1).len() implies is_decimal(
                #[trigger] d.take(k - start + 1)[i],
            ) by {
                if i < k - start {
                    assert(d.take(k - start)[i] == d.take(k - start + 1)[i]);
                }
            }
        }
        if mag > (limit - v) / 10 {
            proof {
                let q = (limit - v) / 10;
                assert(q * 10 + 10 > limit - v);
                assert(mag >= q + 1);
                assert(digits_value(d.take(k - start + 1)) == 10 * mag + v);
                assert(digits_value(d.take(k - start + 1)) > limit);
                if all_decimal(d) {
                    lemma_digits_grow(d, k - start + 1);
                }
                assert(x@.len() > 0);
                assert(negative == (x@[0] == '-'));
            }
            return None;
        }
        mag = mag * 10 + v;
        k += 1;
    }
    assert(d.take(k - start) =~= d);
    if negative {
        if mag == 9223372036854775808 {
            Some(i64::MIN)
        } else {
            Some(-(mag as i64))
        }
    } else {
        Some(mag as i64)
    }
}

/// The texts of `words` in a row, with `sep` between each two.
pub open spec fn joined(words: Seq<Seq<char>>, sep: char) -> Seq<char>
    decreases words.len(),
{
    if words.len() == 0 {
        Seq::<char>::empty()
    } else if words.len() == 1 {
        words[0]
    } else {
        joined(words.drop_last(), sep).push(sep) + words.last()
    }
}

/// Joins words with a separator.
pub fn join_words(words: &Vec<String>, sep: char) -> (out: String)
    ensures
        out@ == joined(texts(words@), sep),
{
    let mut out = String::new();
    let mut i: usize = 0;
    while i < words.len()
        invariant
            i <= words.len(),
            out@ == joined(texts(words@).take(i as int), sep),
        decreases words.len() - i,
    {
        let ghost before = out@;
        if i > 0 {
            out.push(sep);
        }
        let w = to_chars(words[i].as_str());
        let mut j: usize = 0;
        let ghost base = out@;
        while j < w.len()
            invariant
                j <= w.len(),
                out@ == base + w@.take(j as int),
            decreases w.len() - j,
        {
            out.push(w[j]);
            assert(out@ =~= base + w@.take(j + 1));
            j += 1;
        }
        proof {
            assert(w@.take(w.len() as int) =~= w@);
            let t = texts(words@);
            assert(t.take(i + 1).drop_last() =~= t.take(i as int));
            assert(t.take(i + 1).last() == w@);
            if i == 0 {
                assert(base + w@ =~= w@);
                assert(t.take(1)[0] == w@);
            }
        }
        i += 1;
    }
    assert(texts(words@).take(words.len() as int) =~= texts(words@));
    out
}

} // verus!
