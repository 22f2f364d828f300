//! The normal form of a role's patterns, as mathematics: a global flag, the
//! wildcarded domains, the wildcarded objects, and the exact entries that no
//! wildcard already covers. It depends on which patterns a role holds, not
//! on their order.

use vstd::prelude::*;
use crate::pattern::{canonical, entries, parse_pattern, star, Pattern};
use crate::text::{
    first_occurrence, is_segment, lemma_first_occurrence, lemma_segment_prefix, separator, split,
};
use crate::pattern::{lemma_parts_are_segments, lemma_split_unfold};

verus! {

/// The mathematical value of compiled permissions.
pub struct CompiledView {
    /// Everything is granted.
    pub global: bool,
    /// The domains granted as a whole.
    pub domains: Set<Seq<char>>,
    /// The (domain, object) pairs granted as a whole.
    pub objects: Set<(Seq<char>, Seq<char>)>,
    /// The canonical texts granted one by one.
    pub exact: Set<Seq<char>>,
}

/// The text that every permission of domain `d` begins with.
pub open spec fn domain_prefix(d: Seq<char>) -> Seq<char> {
    d + separator()
}

/// The text that every permission of object `o` in domain `d` begins with.
pub open spec fn object_prefix(d: Seq<char>, o: Seq<char>) -> Seq<char> {
    d + separator() + o + separator()
}

/// A wildcard of `domains` or `objects` already covers the entry `e`: the
/// entry begins with the prefix of one of them.
pub open spec fn covered(
    domains: Set<Seq<char>>,
    objects: Set<(Seq<char>, Seq<char>)>,
    e: Seq<char>,
) -> bool {
    ||| exists|d: Seq<char>| #[trigger] domains.contains(d) && domain_prefix(d).is_prefix_of(e)
    ||| exists|q: (Seq<char>, Seq<char>)| #[trigger]
        objects.contains(q) && object_prefix(q.0, q.1).is_prefix_of(e)
}

impl CompiledView {
    /// Nothing is granted.
    pub open spec fn empty() -> CompiledView {
        CompiledView {
            global: false,
            domains: Set::empty(),
            objects: Set::empty(),
            exact: Set::empty(),
        }
    }

    /// Everything is granted, and nothing else is recorded.
    pub open spec fn everything() -> CompiledView {
        CompiledView {
            global: true,
            domains: Set::empty(),
            objects: Set::empty(),
            exact: Set::empty(),
        }
    }

    /// Whether the permission with canonical text `perm`, domain `domain`
    /// and object type `object` is granted.
    pub open spec fn matches(self, perm: Seq<char>, domain: Seq<char>, object: Seq<char>) -> bool {
        ||| self.global
        ||| self.domains.contains(domain)
        ||| self.objects.contains((domain, object))
        ||| self.exact.contains(perm)
    }

    /// No part repeats what a wider part already grants: with the global
    /// flag nothing else is recorded, a wildcarded domain has no wildcarded
    /// object, and no exact entry begins with the prefix of a wildcard.
    pub open spec fn normalized(self) -> bool {
        &&& self.global ==> self.domains == Set::<Seq<char>>::empty() && self.objects == Set::<
            (Seq<char>, Seq<char>),
        >::empty() && self.exact == Set::<Seq<char>>::empty()
        &&& forall|q: (Seq<char>, Seq<char>)| #[trigger]
            self.objects.contains(q) ==> !self.domains.contains(q.0)
        &&& forall|e: Seq<char>| #[trigger]
            self.exact.contains(e) ==> !covered(self.domains, self.objects, e)
    }
}

/// One of the patterns is the wildcard of domain `d`.
pub open spec fn has_domain(ps: Seq<Seq<char>>, d: Seq<char>) -> bool {
    exists|i: int|
        0 <= i < ps.len() && parse_pattern(#[trigger] ps[i]) == (Pattern::Domain { domain: d })
}

/// One of the patterns is the wildcard of object `o` in domain `d`.
pub open spec fn has_object(ps: Seq<Seq<char>>, d: Seq<char>, o: Seq<char>) -> bool {
    exists|i: int|
        0 <= i < ps.len() && parse_pattern(#[trigger] ps[i]) == (Pattern::Object {
            domain: d,
            object: o,
        })
}

/// One of the patterns asks for the exact entry `e`.
pub open spec fn has_entry(ps: Seq<Seq<char>>, e: Seq<char>) -> bool {
    exists|i: int| 0 <= i < ps.len() && entries(#[trigger] ps[i]).contains(e)
}

/// The domains that the patterns wildcard.
pub open spec fn wildcard_domains(ps: Seq<Seq<char>>) -> Set<Seq<char>> {
    Set::new(|d: Seq<char>| has_domain(ps, d))
}

/// The objects that the patterns wildcard, but for those of a wildcarded
/// domain.
pub open spec fn wildcard_objects(ps: Seq<Seq<char>>) -> Set<(Seq<char>, Seq<char>)> {
    Set::new(|q: (Seq<char>, Seq<char>)| has_object(ps, q.0, q.1) && !has_domain(ps, q.0))
}

/// The exact entries that the patterns ask for, but for those that one of
/// their wildcards covers.
pub open spec fn exact_entries(ps: Seq<Seq<char>>) -> Set<Seq<char>> {
    Set::new(
        |e: Seq<char>|
            has_entry(ps, e) && !covered(wildcard_domains(ps), wildcard_objects(ps), e),
    )
}

/// The normal form of a list of patterns.
pub open spec fn compile_spec(ps: Seq<Seq<char>>) -> CompiledView {
    if ps.contains(star()) {
        CompiledView::everything()
    } else {
        CompiledView {
            global: false,
            domains: wildcard_domains(ps),
            objects: wildcard_objects(ps),
            exact: exact_entries(ps),
        }
    }
}

/// What one more pattern adds to the three "one of the patterns" predicates.
pub proof fn lemma_push(ps: Seq<Seq<char>>, p: Seq<char>)
    ensures
        forall|d: Seq<char>| #[trigger]
            has_domain(ps.push(p), d) == (has_domain(ps, d) || parse_pattern(p) == (
            Pattern::Domain { domain: d })),
        forall|d: Seq<char>, o: Seq<char>| #[trigger]
            has_object(ps.push(p), d, o) == (has_object(ps, d, o) || parse_pattern(p) == (
            Pattern::Object { domain: d, object: o })),
        forall|e: Seq<char>| #[trigger]
            has_entry(ps.push(p), e) == (has_entry(ps, e) || entries(p).contains(e)),
        ps.push(p).contains(star()) == (ps.contains(star()) || p == star()),
{
    let qs = ps.push(p);
    let n = ps.len() as int;
    assert(qs[n] == p);
    assert forall|d: Seq<char>| #[trigger]
        has_domain(qs, d) == (has_domain(ps, d) || parse_pattern(p) == (Pattern::Domain {
            domain: d,
        })) by {
        if has_domain(ps, d) {
            let i = choose|i: int|
                0 <= i < ps.len() && parse_pattern(#[trigger] ps[i]) == (Pattern::Domain {
                    domain: d,
                });
            assert(qs[i] == ps[i]);
        }
    }
    assert forall|d: Seq<char>, o: Seq<char>| #[trigger]
        has_object(qs, d, o) == (has_object(ps, d, o) || parse_pattern(p) == (Pattern::Object {
            domain: d,
            object: o,
        })) by {
        if has_object(ps, d, o) {
            let i = choose|i: int|
                0 <= i < ps.len() && parse_pattern(#[trigger] ps[i]) == (Pattern::Object {
                    domain: d,
                    object: o,
                });
            assert(qs[i] == ps[i]);
        }
    }
    assert forall|e: Seq<char>| #[trigger]
        has_entry(qs, e) == (has_entry(ps, e) || entries(p).contains(e)) by {
        if has_entry(ps, e) {
            let i = choose|i: int| 0 <= i < ps.len() && entries(#[trigger] ps[i]).contains(e);
            assert(qs[i] == ps[i]);
        }
    }
    if ps.contains(star()) {
        let i = choose|i: int| 0 <= i < ps.len() && ps[i] == star();
        assert(qs[i] == star());
    }
}

/// After the wildcard of a domain is added and the wildcards of its objects
/// are dropped, the entries covered are those covered before and those of
/// that domain.
pub proof fn lemma_covered_with_domain(
    domains: Set<Seq<char>>,
    objects: Set<(Seq<char>, Seq<char>)>,
    d: Seq<char>,
    e: Seq<char>,
)
    ensures
        covered(domains.insert(d), objects.filter(|q: (Seq<char>, Seq<char>)| q.0 != d), e) == (
        covered(domains, objects, e) || domain_prefix(d).is_prefix_of(e)),
{
    let domains2 = domains.insert(d);
    let objects2 = objects.filter(|q: (Seq<char>, Seq<char>)| q.0 != d);
    if covered(domains, objects, e) {
        if exists|x: Seq<char>| #[trigger] domains.contains(x) && domain_prefix(x).is_prefix_of(e) {
            let x = choose|x: Seq<char>| #[trigger]
                domains.contains(x) && domain_prefix(x).is_prefix_of(e);
            assert(domains2.contains(x));
        } else {
            let q = choose|q: (Seq<char>, Seq<char>)| #[trigger]
                objects.contains(q) && object_prefix(q.0, q.1).is_prefix_of(e);
            if q.0 == d {
                assert(domains2.contains(d));
            } else {
                assert(objects2.contains(q));
            }
        }
    }
    if domain_prefix(d).is_prefix_of(e) {
        assert(domains2.contains(d));
    }
}

/// After the wildcard of an object is added, the entries covered are those
/// covered before and those of that object.
pub proof fn lemma_covered_with_object(
    domains: Set<Seq<char>>,
    objects: Set<(Seq<char>, Seq<char>)>,
    d: Seq<char>,
    o: Seq<char>,
    e: Seq<char>,
)
    ensures
        covered(domains, objects.insert((d, o)), e) == (covered(domains, objects, e)
            || object_prefix(d, o).is_prefix_of(e)),
{
    let objects2 = objects.insert((d, o));
    if covered(domains, objects, e) && !exists|x: Seq<char>| #[trigger]
        domains.contains(x) && domain_prefix(x).is_prefix_of(e) {
        let q = choose|q: (Seq<char>, Seq<char>)| #[trigger]
            objects.contains(q) && object_prefix(q.0, q.1).is_prefix_of(e);
        assert(objects2.contains(q));
    }
    if object_prefix(d, o).is_prefix_of(e) {
        assert(objects2.contains((d, o)));
    }
}

/// Adding the wildcard of domain `d` to a list without `*`: the domain
/// joins the wildcarded domains, its objects leave the wildcarded objects,
/// and the exact entries that begin with its prefix leave.
pub proof fn lemma_absorb_domain(ps: Seq<Seq<char>>, p: Seq<char>, d: Seq<char>)
    requires
        parse_pattern(p) == (Pattern::Domain { domain: d }),
    ensures
        wildcard_domains(ps.push(p)) == wildcard_domains(ps).insert(d),
        wildcard_objects(ps.push(p)) == wildcard_objects(ps).filter(
            |q: (Seq<char>, Seq<char>)| q.0 != d,
        ),
        exact_entries(ps.push(p)) == exact_entries(ps).filter(
            |e: Seq<char>| !domain_prefix(d).is_prefix_of(e),
        ),
{
    lemma_push(ps, p);
    let qs = ps.push(p);
    assert(wildcard_domains(qs) =~= wildcard_domains(ps).insert(d));
    assert(wildcard_objects(qs) =~= wildcard_objects(ps).filter(
        |q: (Seq<char>, Seq<char>)| q.0 != d,
    ));
    assert forall|e: Seq<char>|
        exact_entries(qs).contains(e) == exact_entries(ps).filter(
            |e: Seq<char>| !domain_prefix(d).is_prefix_of(e),
        ).contains(e) by {
        lemma_covered_with_domain(wildcard_domains(ps), wildcard_objects(ps), d, e);
    }
}

/// Adding the wildcard of object `o` in domain `d` to a list without `*`:
/// nothing changes when the domain is wildcarded; otherwise the object joins
/// the wildcarded objects and the exact entries that begin with its prefix
/// leave.
pub proof fn lemma_absorb_object(ps: Seq<Seq<char>>, p: Seq<char>, d: Seq<char>, o: Seq<char>)
    requires
        parse_pattern(p) == (Pattern::Object { domain: d, object: o }),
    ensures
        wildcard_domains(ps.push(p)) == wildcard_domains(ps),
        has_domain(ps, d) ==> wildcard_objects(ps.push(p)) == wildcard_objects(ps)
            && exact_entries(ps.push(p)) == exact_entries(ps),
        !has_domain(ps, d) ==> wildcard_objects(ps.push(p)) == wildcard_objects(ps).insert((d, o))
            && exact_entries(ps.push(p)) == exact_entries(ps).filter(
            |e: Seq<char>| !object_prefix(d, o).is_prefix_of(e),
        ),
{
    lemma_push(ps, p);
    let qs = ps.push(p);
    assert(wildcard_domains(qs) =~= wildcard_domains(ps));
    if has_domain(ps, d) {
        assert(wildcard_objects(qs) =~= wildcard_objects(ps));
    } else {
        assert(wildcard_objects(qs) =~= wildcard_objects(ps).insert((d, o)));
        assert forall|e: Seq<char>|
            exact_entries(qs).contains(e) == exact_entries(ps).filter(
                |e: Seq<char>| !object_prefix(d, o).is_prefix_of(e),
            ).contains(e) by {
            lemma_covered_with_object(wildcard_domains(ps), wildcard_objects(ps), d, o, e);
        }
    }
}

/// Adding a pattern that is no wildcard: the wildcards stay, and those of
/// its entries that no wildcard covers join the exact entries.
pub proof fn lemma_absorb_entries(ps: Seq<Seq<char>>, p: Seq<char>)
    requires
        parse_pattern(p) is Actions || parse_pattern(p) is Exact,
    ensures
        wildcard_domains(ps.push(p)) == wildcard_domains(ps),
        wildcard_objects(ps.push(p)) == wildcard_objects(ps),
        exact_entries(ps.push(p)) == exact_entries(ps).union(
            entries(p).filter(
                |e: Seq<char>| !covered(wildcard_domains(ps), wildcard_objects(ps), e),
            ),
        ),
{
    lemma_push(ps, p);
    let qs = ps.push(p);
    assert(wildcard_domains(qs) =~= wildcard_domains(ps));
    assert(wildcard_objects(qs) =~= wildcard_objects(ps));
}

/// A text begins with `a + b` exactly when it begins with `a` and what
/// follows `a` in it begins with `b`.
pub proof fn lemma_prefix_concat(a: Seq<char>, b: Seq<char>, e: Seq<char>)
    ensures
        (a + b).is_prefix_of(e) <==> (a.is_prefix_of(e) && b.is_prefix_of(e.skip(a.len() as int))),
{
    let n = a.len() as int;
    let m = b.len() as int;
    if (a + b).is_prefix_of(e) {
        assert forall|t: int| 0 <= t < m implies b[t] == e.skip(n).subrange(0, m)[t] by {
            assert((a + b)[n + t] == e.subrange(0, n + m)[n + t]);
        }
    }
}

/// Every wildcard is made of segments.
pub open spec fn segments_only(domains: Set<Seq<char>>, objects: Set<(Seq<char>, Seq<char>)>) -> bool {
    &&& forall|d: Seq<char>| #[trigger] domains.contains(d) ==> is_segment(d)
    &&& forall|q: (Seq<char>, Seq<char>)| #[trigger]
        objects.contains(q) ==> is_segment(q.0) && is_segment(q.1)
}

/// The wildcards of a list of patterns are made of segments.
pub proof fn lemma_wildcards_are_segments(ps: Seq<Seq<char>>)
    ensures
        segments_only(wildcard_domains(ps), wildcard_objects(ps)),
{
    assert forall|d: Seq<char>| #[trigger] wildcard_domains(ps).contains(d) implies is_segment(
        d,
    ) by {
        let i = choose|i: int|
            0 <= i < ps.len() && parse_pattern(#[trigger] ps[i]) == (Pattern::Domain {
                domain: d,
            });
        lemma_parts_are_segments(ps[i], 0);
    }
    assert forall|q: (Seq<char>, Seq<char>)| #[trigger]
        wildcard_objects(ps).contains(q) implies is_segment(q.0) && is_segment(q.1) by {
        let i = choose|i: int|
            0 <= i < ps.len() && parse_pattern(#[trigger] ps[i]) == (Pattern::Object {
                domain: q.0,
                object: q.1,
            });
        lemma_parts_are_segments(ps[i], 0);
        lemma_parts_are_segments(ps[i], 1);
    }
}

/// Whether a wildcard covers an entry can be read off the entry's first two
/// parts: its first part is a wildcarded domain, or its first two parts are
/// a wildcarded object.
pub open spec fn covered_by_parts(
    domains: Set<Seq<char>>,
    objects: Set<(Seq<char>, Seq<char>)>,
    e: Seq<char>,
) -> bool {
    let parts = split(e, separator());
    ||| parts.len() >= 2 && domains.contains(parts[0])
    ||| parts.len() >= 3 && objects.contains((parts[0], parts[1]))
}

/// For wildcards made of segments, covering by prefix and covering by parts
/// are the same.
pub proof fn lemma_covered_by_parts(
    domains: Set<Seq<char>>,
    objects: Set<(Seq<char>, Seq<char>)>,
    e: Seq<char>,
)
    requires
        segments_only(domains, objects),
    ensures
        covered(domains, objects, e) == covered_by_parts(domains, objects, e),
{
    let sep = separator();
    let parts = split(e, sep);
    let k1 = first_occurrence(e, sep);
    lemma_first_occurrence(e, sep);
    lemma_split_unfold(e);
    let rest = e.skip(k1 + 2);
    if k1 + 2 <= e.len() {
        lemma_split_unfold(rest);
    }
    if covered(domains, objects, e) {
        if exists|d: Seq<char>| #[trigger] domains.contains(d) && domain_prefix(d).is_prefix_of(e) {
            let d = choose|d: Seq<char>| #[trigger]
                domains.contains(d) && domain_prefix(d).is_prefix_of(e);
            lemma_segment_prefix(d, e);
        } else {
            let q = choose|q: (Seq<char>, Seq<char>)| #[trigger]
                objects.contains(q) && object_prefix(q.0, q.1).is_prefix_of(e);
            lemma_segment_prefix(q.0, e);
            lemma_prefix_concat(domain_prefix(q.0), q.1 + sep, e);
            lemma_segment_prefix(q.1, rest);
        }
    }
    if parts.len() >= 2 && domains.contains(parts[0]) {
        lemma_segment_prefix(parts[0], e);
    }
    if parts.len() >= 3 && objects.contains((parts[0], parts[1])) {
        let q = (parts[0], parts[1]);
        lemma_segment_prefix(q.1, rest);
        lemma_prefix_concat(domain_prefix(q.0), q.1 + sep, e);
    }
}

/// The canonical text of a permission whose domain and object are segments
/// splits into that domain, that object, and the parts of the action.
pub proof fn lemma_canonical_parts(d: Seq<char>, o: Seq<char>, a: Seq<char>)
    requires
        is_segment(d),
        is_segment(o),
    ensures
        object_prefix(d, o).is_prefix_of(canonical(d, o, a)),
        split(canonical(d, o, a), separator()).len() >= 3,
        split(canonical(d, o, a), separator())[0] == d,
        split(canonical(d, o, a), separator())[1] == o,
        split(canonical(d, o, a), separator()).skip(2) == split(a, separator()),
{
    let sep = separator();
    let e = canonical(d, o, a);
    let rest = e.skip(d.len() as int + 2);
    let tail = rest.skip(o.len() as int + 2);
    assert(tail =~= a);
    lemma_segment_prefix(d, e);
    lemma_split_unfold(e);
    lemma_segment_prefix(o, rest);
    lemma_split_unfold(rest);
    assert(split(e, sep).skip(2) =~= split(a, sep));
}

} // verus!
