//! Character-level text primitives: searching for a delimiter, splitting,
//! prefixes and whitespace trimming, each with a mathematical model over
//! `Seq<char>`.

use vstd::prelude::*;
use vstd::string::*;

verus! {

/// The delimiter `d` stands in `s` at position `i`.
pub open spec fn occurs_at(s: Seq<char>, d: Seq<char>, i: int) -> bool {
    0 <= i && i + d.len() <= s.len() && s.subrange(i, i + d.len()) == d
}

/// Position of the leftmost occurrence of `d` in `s`, or `s.len()` when
/// there is none.
pub open spec fn first_occurrence(s: Seq<char>, d: Seq<char>) -> int
    decreases s.len(),
{
    if occurs_at(s, d, 0) || s.len() == 0 {
        0
    } else {
        1 + first_occurrence(s.drop_first(), d)
    }
}

/// The fields of `s` between occurrences of `d`, found from the left without
/// overlap. A text without the delimiter is its own single field.
pub open spec fn split(s: Seq<char>, d: Seq<char>) -> Seq<Seq<char>>
    decreases s.len(),
{
    let k = first_occurrence(s, d);
    if d.len() > 0 && 0 <= k && k + d.len() <= s.len() {
        seq![s.take(k)] + split(s.skip(k + d.len()), d)
    } else {
        seq![s]
    }
}

/// `first_occurrence` is in range, names an occurrence when it is inside the
/// text, and nothing occurs to its left.
pub proof fn lemma_first_occurrence(s: Seq<char>, d: Seq<char>)
    requires
        d.len() > 0,
    ensures
        0 <= first_occurrence(s, d) <= s.len(),
        first_occurrence(s, d) < s.len() ==> occurs_at(s, d, first_occurrence(s, d)),
        forall|j: int| 0 <= j < first_occurrence(s, d) ==> !occurs_at(s, d, j),
    decreases s.len(),
{
    if !occurs_at(s, d, 0) && s.len() > 0 {
        let t = s.drop_first();
        lemma_first_occurrence(t, d);
        let k = first_occurrence(t, d);
        assert forall|j: int| occurs_at(t, d, j) == occurs_at(s, d, j + 1) by {
            if 0 <= j && j + d.len() <= t.len() {
                assert(t.subrange(j, j + d.len()) =~= s.subrange(j + 1, j + 1 + d.len()));
            }
        }
        assert forall|j: int| 0 <= j < 1 + k implies !occurs_at(s, d, j) by {
            if j > 0 {
                assert(occurs_at(t, d, j - 1) == occurs_at(s, d, j));
            }
        }
    }
}

/// A position with an occurrence (or the end of the text) and nothing to its
/// left is the first occurrence.
pub proof fn lemma_first_occurrence_unique(s: Seq<char>, d: Seq<char>, k: int)
    requires
        d.len() > 0,
        0 <= k <= s.len(),
        k < s.len() ==> occurs_at(s, d, k),
        forall|j: int| 0 <= j < k ==> !occurs_at(s, d, j),
    ensures
        first_occurrence(s, d) == k,
{
    lemma_first_occurrence(s, d);
}

/// Whether `p` is an initial part of `s`.
pub fn starts_with(s: &Vec<char>, p: &Vec<char>) -> (r: bool)
    ensures
        r == p@.is_prefix_of(s@),
{
    if p.len() > s.len() {
        return false;
    }
    let mut i: usize = 0;
    while i < p.len()
        invariant
            i <= p@.len() <= s@.len(),
            forall|j: int| 0 <= j < i ==> p@[j] == s@[j],
        decreases p@.len() - i,
    {
        if p[i] != s[i] {
            return false;
        }
        i = i + 1;
    }
    true
}

/// Whether `d` stands at position `i` of `s` and ends at or before `to`.
pub fn matches_at(s: &Vec<char>, d: &Vec<char>, i: usize, to: usize) -> (r: bool)
    requires
        i <= to <= s@.len(),
    ensures
        r == (i + d@.len() <= to && s@.subrange(i as int, i + d@.len()) == d@),
{
    if d.len() > to - i {
        return false;
    }
    let mut j: usize = 0;
    while j < d.len()
        invariant
            j <= d@.len(),
            i + d.len() <= to <= s.len(),
            forall|t: int| 0 <= t < j ==> d@[t] == s@[i + t],
        decreases d@.len() - j,
    {
        if d[j] != s[i + j] {
            return false;
        }
        j = j + 1;
    }
    assert(s@.subrange(i as int, i + d@.len()) =~= d@);
    true
}

/// The leftmost occurrence of `d` inside the window `from..to` of `s`, or
/// `to` when the window holds none.
pub fn find_in(s: &Vec<char>, d: &Vec<char>, from: usize, to: usize) -> (k: usize)
    requires
        d@.len() > 0,
        from <= to <= s@.len(),
    ensures
        from <= k <= to,
        k - from == first_occurrence(s@.subrange(from as int, to as int), d@),
{
    let ghost w = s@.subrange(from as int, to as int);
    let mut i: usize = from;
    while i < to
        invariant
            from <= i <= to <= s@.len(),
            d@.len() > 0,
            w == s@.subrange(from as int, to as int),
            forall|j: int| 0 <= j < i - from ==> !occurs_at(w, d@, j),
        decreases to - i,
    {
        let hit = matches_at(s, d, i, to);
        proof {
            if i + d@.len() <= to {
                assert(w.subrange(i - from, i - from + d@.len()) =~= s@.subrange(
                    i as int,
                    i + d@.len(),
                ));
            }
        }
        if hit {
            proof {
                lemma_first_occurrence_unique(w, d@, i - from);
            }
            return i;
        }
        i = i + 1;
    }
    proof {
        lemma_first_occurrence_unique(w, d@, to - from);
    }
    to
}

/// The texts that a list of ranges cuts out of `s`.
pub open spec fn cut(s: Seq<char>, ranges: Seq<(usize, usize)>) -> Seq<Seq<char>> {
    Seq::new(ranges.len(), |i: int| s.subrange(ranges[i].0 as int, ranges[i].1 as int))
}

/// The ranges lie inside `from..to`, start at `from`, end at `to`, and each
/// one is parted from the next by exactly `gap` positions.
pub open spec fn chained(ranges: Seq<(usize, usize)>, from: int, to: int, gap: int) -> bool {
    &&& ranges.len() > 0
    &&& ranges[0].0 == from
    &&& ranges.last().1 == to
    &&& forall|i: int| 0 <= i < ranges.len() ==> from <= (#[trigger] ranges[i]).0 <= ranges[i].1 <= to
    &&& forall|i: int| 0 <= i < ranges.len() - 1 ==> ranges[i + 1].0 == (#[trigger] ranges[i]).1 + gap
}

/// Behind each range but the last stands the delimiter `d`.
pub open spec fn parted_by(s: Seq<char>, ranges: Seq<(usize, usize)>, d: Seq<char>) -> bool {
    forall|i: int|
        0 <= i < ranges.len() - 1 ==> s.subrange(
            (#[trigger] ranges[i]).1 as int,
            ranges[i].1 + d.len(),
        ) == d
}

/// Splits the window `from..to` of `s` on `d`; the result gives each field
/// by the positions where it starts and ends.
pub fn split_ranges(s: &Vec<char>, d: &Vec<char>, from: usize, to: usize) -> (r: Vec<
    (usize, usize),
>)
    requires
        d@.len() > 0,
        from <= to <= s@.len(),
    ensures
        cut(s@, r@) == split(s@.subrange(from as int, to as int), d@),
        chained(r@, from as int, to as int, d@.len() as int),
        parted_by(s@, r@, d@),
{
    let ghost w = s@.subrange(from as int, to as int);
    let mut out: Vec<(usize, usize)> = Vec::new();
    let mut pos: usize = from;
    let mut open: bool = true;
    while open
        invariant
            d@.len() > 0,
            from <= pos <= to <= s@.len(),
            w == s@.subrange(from as int, to as int),
            open ==> split(w, d@) == cut(s@, out@) + split(s@.subrange(pos as int, to as int), d@),
            open ==> (out@.len() == 0 ==> pos == from),
            open ==> (out@.len() > 0 ==> pos == out@.last().1 + d@.len()),
            !open ==> split(w, d@) == cut(s@, out@),
            !open ==> out@.len() > 0 && out@.last().1 == to,
            out@.len() > 0 ==> out@[0].0 == from,
            forall|i: int| 0 <= i < out@.len() ==> from <= (#[trigger] out@[i]).0 <= out@[i].1 <= to,
            forall|i: int| 0 <= i < out@.len() - 1 ==> out@[i + 1].0 == (#[trigger] out@[i]).1 + d@.len(),
            forall|i: int|
                0 <= i < out@.len() - (if open { 0int } else { 1int }) ==> s@.subrange(
                    (#[trigger] out@[i]).1 as int,
                    out@[i].1 + d@.len(),
                ) == d@,
        decreases to - pos + if open { 1int } else { 0int },
    {
        let ghost rest = s@.subrange(pos as int, to as int);
        let k = find_in(s, d, pos, to);
        if d.len() <= to - k {
            out.push((pos, k));
            proof {
                lemma_first_occurrence(rest, d@);
                assert(rest.take(k - pos) =~= s@.subrange(pos as int, k as int));
                assert(rest.skip(k - pos + d@.len()) =~= s@.subrange(k + d@.len(), to as int));
            }
            pos = k + d.len();
        } else {
            out.push((pos, to));
            open = false;
        }
    }
    out
}

/// The two colons that part the segments of a permission text.
pub open spec fn separator() -> Seq<char> {
    seq![':', ':']
}

/// A text that can stand as a segment in front of a separator: it holds no
/// separator and does not end in a colon, so that the separator written
/// after it is found exactly where the text ends.
pub open spec fn is_segment(x: Seq<char>) -> bool {
    &&& forall|j: int| !occurs_at(x, separator(), j)
    &&& x.len() > 0 ==> x.last() != ':'
}

/// The separator as executable characters.
pub fn separator_chars() -> (r: Vec<char>)
    ensures
        r@ == separator(),
{
    let mut d: Vec<char> = Vec::new();
    d.push(':');
    d.push(':');
    d
}

/// What stands before the first separator of a text is a segment.
pub proof fn lemma_head_is_segment(s: Seq<char>)
    requires
        first_occurrence(s, separator()) < s.len(),
    ensures
        is_segment(s.take(first_occurrence(s, separator()))),
{
    let d = separator();
    let k = first_occurrence(s, d);
    lemma_first_occurrence(s, d);
    let x = s.take(k);
    assert forall|j: int| !occurs_at(x, d, j) by {
        if occurs_at(x, d, j) {
            assert(x.subrange(j, j + 2) =~= s.subrange(j, j + 2));
            assert(occurs_at(s, d, j));
        }
    }
    if x.len() > 0 && x.last() == ':' {
        assert(s.subrange(k - 1, k + 1) =~= d);
        assert(occurs_at(s, d, k - 1));
    }
}

/// A text begins with the segment `x` and a separator exactly when its
/// first separator stands where `x` ends and `x` is what precedes it.
pub proof fn lemma_segment_prefix(x: Seq<char>, e: Seq<char>)
    requires
        is_segment(x),
    ensures
        (x + separator()).is_prefix_of(e) <==> (first_occurrence(e, separator()) + 2 <= e.len()
            && e.take(first_occurrence(e, separator())) == x),
{
    let d = separator();
    let k = first_occurrence(e, d);
    lemma_first_occurrence(e, d);
    let n = x.len() as int;
    if (x + d).is_prefix_of(e) {
        assert(e.subrange(n, n + 2) =~= d) by {
            assert forall|t: int| 0 <= t < 2 implies e.subrange(n, n + 2)[t] == d[t] by {
                assert((x + d)[n + t] == e.subrange(0, n + 2)[n + t]);
            }
        }
        assert forall|j: int| 0 <= j < n implies !occurs_at(e, d, j) by {
            if occurs_at(e, d, j) {
                assert((x + d)[j] == e.subrange(0, n + 2)[j]);
                if j + 2 <= n {
                    assert((x + d)[j + 1] == e.subrange(0, n + 2)[j + 1]);
                    assert(x.subrange(j, j + 2) =~= d);
                    assert(occurs_at(x, d, j));
                } else {
                    assert(x.last() == ':');
                }
            }
        }
        lemma_first_occurrence_unique(e, d, n);
        assert(e.take(n) =~= x) by {
            assert forall|t: int| 0 <= t < n implies e.take(n)[t] == x[t] by {
                assert((x + d)[t] == e.subrange(0, n + 2)[t]);
            }
        }
    }
    if k + 2 <= e.len() && e.take(k) == x {
        assert((x + d) =~= e.subrange(0, n + 2)) by {
            assert forall|t: int| 0 <= t < n + 2 implies (x + d)[t] == e.subrange(0, n + 2)[t] by {
                if t < n {
                    assert(e.take(k)[t] == x[t]);
                } else {
                    assert(e.subrange(k, k + 2)[t - n] == d[t - n]);
                }
            }
        }
    }
}

/// The characters that trimming removes: those with the Unicode property
/// White_Space.
pub open spec fn is_whitespace(c: char) -> bool {
    let u = c as u32;
    ||| 0x09 <= u <= 0x0D
    ||| u == 0x20
    ||| u == 0x85
    ||| u == 0xA0
    ||| u == 0x1680
    ||| 0x2000 <= u <= 0x200A
    ||| u == 0x2028
    ||| u == 0x2029
    ||| u == 0x202F
    ||| u == 0x205F
    ||| u == 0x3000
}

/// Whether trimming removes `c`.
pub fn is_whitespace_char(c: char) -> (r: bool)
    ensures
        r == is_whitespace(c),
{
    let u: u32 = c as u32;
    (0x09 <= u && u <= 0x0D) || u == 0x20 || u == 0x85 || u == 0xA0 || u == 0x1680 || (0x2000 <= u
        && u <= 0x200A) || u == 0x2028 || u == 0x2029 || u == 0x202F || u == 0x205F || u == 0x3000
}

/// A text without its leading and trailing whitespace.
pub open spec fn trim(s: Seq<char>) -> Seq<char>
    decreases s.len(),
{
    if s.len() > 0 && is_whitespace(s[0]) {
        trim(s.drop_first())
    } else if s.len() > 0 && is_whitespace(s.last()) {
        trim(s.drop_last())
    } else {
        s
    }
}

/// Trims the window `from..to` of `s`; the result is the window that is left.
pub fn trim_range(s: &Vec<char>, from: usize, to: usize) -> (r: (usize, usize))
    requires
        from <= to <= s@.len(),
    ensures
        from <= r.0 <= r.1 <= to,
        s@.subrange(r.0 as int, r.1 as int) == trim(s@.subrange(from as int, to as int)),
{
    let mut a: usize = from;
    let mut b: usize = to;
    while a < b && is_whitespace_char(s[a])
        invariant
            from <= a <= b <= to <= s@.len(),
            b == to,
            trim(s@.subrange(a as int, b as int)) == trim(s@.subrange(from as int, to as int)),
        decreases b - a,
    {
        assert(s@.subrange(a as int, b as int).drop_first() =~= s@.subrange(a + 1, b as int));
        a = a + 1;
    }
    while a < b && is_whitespace_char(s[b - 1])
        invariant
            from <= a <= b <= to <= s@.len(),
            a < b ==> !is_whitespace(s@[a as int]),
            trim(s@.subrange(a as int, b as int)) == trim(s@.subrange(from as int, to as int)),
        decreases b - a,
    {
        assert(s@.subrange(a as int, b as int).drop_last() =~= s@.subrange(a as int, b - 1));
        b = b - 1;
    }
    (a, b)
}

/// A copy of the window `from..to` of `s`.
pub fn slice_chars(s: &Vec<char>, from: usize, to: usize) -> (r: Vec<char>)
    requires
        from <= to <= s@.len(),
    ensures
        r@ == s@.subrange(from as int, to as int),
{
    let mut out: Vec<char> = Vec::new();
    let mut i: usize = from;
    while i < to
        invariant
            from <= i <= to <= s@.len(),
            out@ == s@.subrange(from as int, i as int),
        decreases to - i,
    {
        out.push(s[i]);
        i = i + 1;
    }
    out
}

/// The characters of a string slice.
pub fn to_chars(s: &str) -> (r: Vec<char>)
    ensures
        r@ == s@,
{
    let mut out: Vec<char> = Vec::new();
    for c in it: s.chars()
        invariant
            out@ == s@.take(it.index() as int),
            it.seq() == s@,
    {
        out.push(c);
    }
    out
}

/// The strict order of texts: letter by letter, by code point; a text
/// precedes every longer text that begins with it.
pub open spec fn precedes(a: Seq<char>, b: Seq<char>) -> bool
    decreases a.len(),
{
    if b.len() == 0 {
        false
    } else if a.len() == 0 {
        true
    } else if a[0] != b[0] {
        (a[0] as u32) < (b[0] as u32)
    } else {
        precedes(a.drop_first(), b.drop_first())
    }
}

/// Different characters have different code points.
pub proof fn lemma_code_points_differ(x: char, y: char)
    requires
        x != y,
    ensures
        (x as u32) != (y as u32),
{
    vstd::utf8::char_u32_cast(x, x as u32);
    vstd::utf8::char_u32_cast(y, y as u32);
}

/// No text precedes itself.
pub proof fn lemma_precedes_irreflexive(a: Seq<char>)
    ensures
        !precedes(a, a),
    decreases a.len(),
{
    if a.len() > 0 {
        lemma_precedes_irreflexive(a.drop_first());
    }
}

/// The order of texts is transitive.
pub proof fn lemma_precedes_transitive(a: Seq<char>, b: Seq<char>, c: Seq<char>)
    requires
        precedes(a, b),
        precedes(b, c),
    ensures
        precedes(a, c),
    decreases a.len(),
{
    if a.len() > 0 && b.len() > 0 && c.len() > 0 {
        if a[0] == b[0] && b[0] == c[0] {
            lemma_precedes_transitive(a.drop_first(), b.drop_first(), c.drop_first());
        }
    }
}

/// How two texts stand in the order of texts.
#[derive(Clone, Copy, PartialEq, Eq, Structural)]
pub enum Order {
    Before,
    Same,
    After,
}

/// How `a` stands to `b` in the order of texts.
pub fn compare_texts(a: &Vec<char>, b: &Vec<char>) -> (r: Order)
    ensures
        r == Order::Before <==> precedes(a@, b@),
        r == Order::Same <==> a@ == b@,
        r == Order::After <==> precedes(b@, a@),
{
    let mut i: usize = 0;
    proof {
        assert(a@.skip(0) =~= a@);
        assert(b@.skip(0) =~= b@);
    }
    while i < a.len() && i < b.len()
        invariant
            i <= a@.len(),
            i <= b@.len(),
            a@.take(i as int) == b@.take(i as int),
            precedes(a@, b@) == precedes(a@.skip(i as int), b@.skip(i as int)),
            precedes(b@, a@) == precedes(b@.skip(i as int), a@.skip(i as int)),
        decreases a@.len() - i,
    {
        let x: u32 = a[i] as u32;
        let y: u32 = b[i] as u32;
        proof {
            assert(a@.skip(i as int).drop_first() =~= a@.skip(i + 1));
            assert(b@.skip(i as int).drop_first() =~= b@.skip(i + 1));
        }
        if x < y {
            return Order::Before;
        }
        if x > y {
            return Order::After;
        }
        proof {
            if a@[i as int] != b@[i as int] {
                lemma_code_points_differ(a@[i as int], b@[i as int]);
            }
        }
        i = i + 1;
    }
    if a.len() < b.len() {
        Order::Before
    } else if a.len() > b.len() {
        Order::After
    } else {
        Order::Same
    }
}

} // verus!
