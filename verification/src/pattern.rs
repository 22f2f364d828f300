//! The grammar of permission patterns: `*`, `Domain::*`, `Domain::Object::*`,
//! `Domain::Object::{A,B}` and `Domain::Object::Action`. Any other text is an
//! exact entry that is compared letter by letter.

use vstd::prelude::*;
use vstd::string::*;
use crate::text::{
    chained, cut, first_occurrence, is_segment, lemma_first_occurrence, lemma_head_is_segment,
    separator, separator_chars, split, split_ranges, to_chars, trim, trim_range,
};

verus! {

/// The text `*`.
pub open spec fn star() -> Seq<char> {
    seq!['*']
}

/// The comma that parts the actions of an action set.
pub open spec fn comma() -> Seq<char> {
    seq![',']
}

/// The canonical text `Domain::Object::Action` of a permission.
pub open spec fn canonical(domain: Seq<char>, object: Seq<char>, action: Seq<char>) -> Seq<char> {
    domain + separator() + object + separator() + action
}

/// What a pattern text denotes.
pub enum Pattern {
    /// `*`: every permission.
    Global,
    /// `Domain::*`: every permission of a domain.
    Domain { domain: Seq<char> },
    /// `Domain::Object::*`: every action of an object.
    Object { domain: Seq<char>, object: Seq<char> },
    /// `Domain::Object::{A,B}`: the listed actions of an object.
    Actions { domain: Seq<char>, object: Seq<char>, actions: Seq<Seq<char>> },
    /// Anything else: the text itself.
    Exact,
}

/// A segment written in braces.
pub open spec fn is_braced(x: Seq<char>) -> bool {
    x.len() > 0 && x.first() == '{' && x.last() == '}'
}

/// The actions that a braced segment lists: what stands between the braces,
/// split on commas, each field trimmed.
pub open spec fn action_list(x: Seq<char>) -> Seq<Seq<char>> {
    split(x.subrange(1, x.len() - 1), comma()).map_values(|t: Seq<char>| trim(t))
}

/// Reads a pattern text.
pub open spec fn parse_pattern(p: Seq<char>) -> Pattern {
    let parts = split(p, separator());
    if p == star() {
        Pattern::Global
    } else if parts.len() == 2 && parts[1] == star() {
        Pattern::Domain { domain: parts[0] }
    } else if parts.len() == 3 && parts[2] == star() {
        Pattern::Object { domain: parts[0], object: parts[1] }
    } else if parts.len() == 3 && is_braced(parts[2]) {
        Pattern::Actions { domain: parts[0], object: parts[1], actions: action_list(parts[2]) }
    } else {
        Pattern::Exact
    }
}

/// The exact entries that a pattern asks for: one for each listed action of
/// an action set, the text itself for an exact pattern, none for a wildcard.
pub open spec fn entries(p: Seq<char>) -> Set<Seq<char>> {
    match parse_pattern(p) {
        Pattern::Actions { domain, object, actions } => Set::new(
            |e: Seq<char>|
                exists|i: int|
                    0 <= i < actions.len() && e == canonical(domain, object, #[trigger] actions[i]),
        ),
        Pattern::Exact => set![p],
        _ => Set::empty(),
    }
}

/// Whether the pattern `p`, taken alone, grants the permission: `*` grants
/// all, the wildcard of a domain or of an object grants what is in it, and
/// any other pattern grants the permissions whose canonical text is one of
/// its entries.
pub open spec fn pattern_grants(
    p: Seq<char>,
    perm: Seq<char>,
    domain: Seq<char>,
    object: Seq<char>,
) -> bool {
    match parse_pattern(p) {
        Pattern::Global => true,
        Pattern::Domain { domain: d } => d == domain,
        Pattern::Object { domain: d, object: o } => d == domain && o == object,
        _ => entries(p).contains(perm),
    }
}

/// The shape of a pattern, without its texts.
#[derive(Clone, Copy, PartialEq, Eq, Structural)]
pub enum Shape {
    Global,
    Domain,
    Object,
    Actions,
    Exact,
}

/// The shape of what a pattern denotes.
pub open spec fn shape_of(p: Pattern) -> Shape {
    match p {
        Pattern::Global => Shape::Global,
        Pattern::Domain { .. } => Shape::Domain,
        Pattern::Object { .. } => Shape::Object,
        Pattern::Actions { .. } => Shape::Actions,
        Pattern::Exact => Shape::Exact,
    }
}

/// How `split` on the separator begins: with no separator the text is the
/// only part; with one, the first part is what precedes it, and the other
/// parts are those of what follows it.
pub proof fn lemma_split_unfold(e: Seq<char>)
    ensures
        first_occurrence(e, separator()) + 2 <= e.len() ==> split(e, separator()) == seq![
            e.take(first_occurrence(e, separator())),
        ] + split(e.skip(first_occurrence(e, separator()) + 2), separator()),
        first_occurrence(e, separator()) + 2 > e.len() ==> split(e, separator()) == seq![e],
        split(e, separator()).len() >= 1,
{
    lemma_first_occurrence(e, separator());
}

/// The leading parts of a split text are segments: every part but the last.
pub proof fn lemma_parts_are_segments(e: Seq<char>, i: int)
    requires
        0 <= i < split(e, separator()).len() - 1,
    ensures
        is_segment(split(e, separator())[i]),
    decreases e.len(),
{
    let k = first_occurrence(e, separator());
    if k + 2 <= e.len() {
        if i == 0 {
            lemma_head_is_segment(e);
        } else {
            let rest = e.skip(k + 2);
            lemma_parts_are_segments(rest, i - 1);
        }
    }
}

/// Whether the window of `chars` is the text `*`.
pub fn is_star(chars: &Vec<char>, window: (usize, usize)) -> (r: bool)
    requires
        window.0 <= window.1 <= chars@.len(),
    ensures
        r == (chars@.subrange(window.0 as int, window.1 as int) == star()),
{
    let hit = window.1 - window.0 == 1 && chars[window.0] == '*';
    proof {
        let w = chars@.subrange(window.0 as int, window.1 as int);
        if hit {
            assert(w =~= star());
        } else if w == star() {
            assert(w.len() == 1);
            assert(w[0] == '*');
        }
    }
    hit
}

/// Whether the window of `chars` is written in braces.
pub fn is_braced_window(chars: &Vec<char>, window: (usize, usize)) -> (r: bool)
    requires
        window.0 <= window.1 <= chars@.len(),
    ensures
        r == is_braced(chars@.subrange(window.0 as int, window.1 as int)),
        r ==> window.0 + 2 <= window.1,
{
    window.1 > window.0 && chars[window.0] == '{' && chars[window.1 - 1] == '}'
}

/// The shape of the pattern `chars`, whose parts are given by `parts`.
pub fn classify(chars: &Vec<char>, parts: &Vec<(usize, usize)>) -> (r: Shape)
    requires
        cut(chars@, parts@) == split(chars@, separator()),
        chained(parts@, 0, chars@.len() as int, 2),
    ensures
        r == shape_of(parse_pattern(chars@)),
{
    proof {
        assert(chars@.subrange(0, chars@.len() as int) =~= chars@);
    }
    if is_star(chars, (0, chars.len())) {
        Shape::Global
    } else if parts.len() == 2 && is_star(chars, parts[1]) {
        Shape::Domain
    } else if parts.len() == 3 && is_star(chars, parts[2]) {
        Shape::Object
    } else if parts.len() == 3 && is_braced_window(chars, parts[2]) {
        Shape::Actions
    } else {
        Shape::Exact
    }
}

/// Whether two windows hold the same text.
pub fn same_window(a: &Vec<char>, wa: (usize, usize), b: &Vec<char>, wb: (usize, usize)) -> (r:
    bool)
    requires
        wa.0 <= wa.1 <= a@.len(),
        wb.0 <= wb.1 <= b@.len(),
    ensures
        r == (a@.subrange(wa.0 as int, wa.1 as int) == b@.subrange(wb.0 as int, wb.1 as int)),
{
    let ghost x = a@.subrange(wa.0 as int, wa.1 as int);
    let ghost y = b@.subrange(wb.0 as int, wb.1 as int);
    if wa.1 - wa.0 != wb.1 - wb.0 {
        assert(x.len() != y.len());
        return false;
    }
    let n = wa.1 - wa.0;
    let mut i: usize = 0;
    while i < n
        invariant
            i <= n,
            n == wa.1 - wa.0,
            n == wb.1 - wb.0,
            wa.1 <= a@.len(),
            wb.1 <= b@.len(),
            x == a@.subrange(wa.0 as int, wa.1 as int),
            y == b@.subrange(wb.0 as int, wb.1 as int),
            forall|j: int| 0 <= j < i ==> x[j] == y[j],
        decreases n - i,
    {
        if a[wa.0 + i] != b[wb.0 + i] {
            assert(x[i as int] != y[i as int]);
            return false;
        }
        i = i + 1;
    }
    assert(x =~= y);
    true
}

/// Whether the pattern `pattern`, taken alone, grants the permission with
/// canonical text `perm`, domain `domain` and object type `object_type`.
pub fn matches_pattern(perm: &str, pattern: &str, domain: &str, object_type: &str) -> (r: bool)
    ensures
        r == pattern_grants(pattern@, perm@, domain@, object_type@),
{
    let chars = to_chars(pattern);
    let sep = separator_chars();
    let parts = split_ranges(&chars, &sep, 0, chars.len());
    proof {
        assert(chars@.subrange(0, chars@.len() as int) =~= chars@);
    }
    match classify(&chars, &parts) {
        Shape::Global => true,
        Shape::Domain => {
            let d = to_chars(domain);
            proof {
                assert(d@.subrange(0, d@.len() as int) =~= d@);
            }
            same_window(&chars, parts[0], &d, (0, d.len()))
        },
        Shape::Object => {
            let d = to_chars(domain);
            let o = to_chars(object_type);
            proof {
                assert(d@.subrange(0, d@.len() as int) =~= d@);
                assert(o@.subrange(0, o@.len() as int) =~= o@);
            }
            same_window(&chars, parts[0], &d, (0, d.len())) && same_window(
                &chars,
                parts[1],
                &o,
                (0, o.len()),
            )
        },
        Shape::Actions => {
            let wanted = to_chars(perm);
            let head = parts[2].0;
            let ghost d = split(pattern@, separator())[0];
            let ghost o = split(pattern@, separator())[1];
            let ghost braced = split(pattern@, separator())[2];
            let ghost actions = action_list(braced);
            let ghost prefix = chars@.subrange(0, head as int);
            proof {
                assert(parts@[1].0 == parts@[0].1 + 2);
                assert(parts@[2].0 == parts@[1].1 + 2);
                assert(chars@.subrange(parts@[0].1 as int, parts@[0].1 + 2) == separator());
                assert(chars@.subrange(parts@[1].1 as int, parts@[1].1 + 2) == separator());
                assert(prefix =~= d + separator() + o + separator());
                assert(forall|a: Seq<char>| #[trigger] canonical(d, o, a) =~= prefix + a);
            }
            if wanted.len() < head || !same_window(&chars, (0, head), &wanted, (0, head)) {
                proof {
                    assert forall|t: int| 0 <= t < actions.len() implies perm@ != canonical(
                        d,
                        o,
                        #[trigger] actions[t],
                    ) by {
                        if perm@ == canonical(d, o, actions[t]) {
                            assert(wanted@.subrange(0, head as int) =~= prefix);
                        }
                    }
                }
                return false;
            }
            let comma = comma_chars();
            let fields = split_ranges(&chars, &comma, parts[2].0 + 1, parts[2].1 - 1);
            proof {
                assert(braced.subrange(1, braced.len() - 1) =~= chars@.subrange(
                    parts@[2].0 + 1,
                    parts@[2].1 - 1,
                ));
                assert(wanted@ =~= prefix + wanted@.subrange(head as int, wanted@.len() as int));
            }
            let mut j: usize = 0;
            while j < fields.len()
                invariant
                    j <= fields@.len() == actions.len(),
                    wanted@ == perm@,
                    head <= wanted@.len(),
                    wanted@ == prefix + wanted@.subrange(head as int, wanted@.len() as int),
                    forall|a: Seq<char>| #[trigger] canonical(d, o, a) == prefix + a,
                    forall|t: int|
                        0 <= t < fields@.len() ==> (#[trigger] fields@[t]).0 <= fields@[t].1
                            <= chars@.len() && actions[t] == trim(
                            chars@.subrange(fields@[t].0 as int, fields@[t].1 as int),
                        ),
                    forall|t: int|
                        0 <= t < j ==> perm@ != canonical(d, o, #[trigger] actions[t]),
                    chars@ == pattern@,
                    parse_pattern(pattern@) == (Pattern::Actions { domain: d, object: o, actions }),
                decreases fields@.len() - j,
            {
                let window = trim_range(&chars, fields[j].0, fields[j].1);
                if same_window(&chars, window, &wanted, (head, wanted.len())) {
                    proof {
                        assert(perm@ == canonical(d, o, actions[j as int]));
                        assert(entries(pattern@).contains(perm@));
                    }
                    return true;
                }
                proof {
                    if perm@ == canonical(d, o, actions[j as int]) {
                        assert((prefix + actions[j as int]).subrange(
                            head as int,
                            wanted@.len() as int,
                        ) =~= actions[j as int]);
                    }
                }
                j = j + 1;
            }
            false
        },
        Shape::Exact => {
            let wanted = to_chars(perm);
            proof {
                assert(wanted@.subrange(0, wanted@.len() as int) =~= wanted@);
            }
            same_window(&chars, (0, chars.len()), &wanted, (0, wanted.len()))
        },
    }
}

/// The comma as executable characters.
pub fn comma_chars() -> (r: Vec<char>)
    ensures
        r@ == comma(),
{
    let mut d: Vec<char> = Vec::new();
    d.push(',');
    d
}

} // verus!
