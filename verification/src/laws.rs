//! What holds of the normal form and of the decision for all inputs: the
//! reach of each kind of pattern, that wider patterns make narrower ones
//! redundant, that the order of the patterns does not matter, and that a
//! role name without a role grants nothing.

use vstd::prelude::*;
use crate::decision::{granted, role_grants};
use crate::normal_form::{
    compile_spec, covered, domain_prefix, exact_entries, has_domain, has_entry, has_object,
    lemma_absorb_entries, lemma_absorb_object, lemma_canonical_parts, lemma_covered_by_parts,
    lemma_push, lemma_wildcards_are_segments, object_prefix, wildcard_domains, wildcard_objects,
};
use crate::pattern::{
    action_list, canonical, entries, is_braced, lemma_split_unfold, parse_pattern, pattern_grants,
    star, Pattern,
};
use crate::role::RoleView;
use crate::text::{
    is_segment, lemma_first_occurrence, lemma_segment_prefix, occurs_at, separator, split,
};

verus! {

/// The text `Domain::*` of the wildcard of a domain.
pub open spec fn domain_wildcard(d: Seq<char>) -> Seq<char> {
    domain_prefix(d) + star()
}

/// The text `Domain::Object::*` of the wildcard of an object.
pub open spec fn object_wildcard(d: Seq<char>, o: Seq<char>) -> Seq<char> {
    canonical(d, o, star())
}

/// `Domain::*` reads as the wildcard of that domain.
pub proof fn lemma_parse_domain_wildcard(d: Seq<char>)
    requires
        is_segment(d),
    ensures
        parse_pattern(domain_wildcard(d)) == (Pattern::Domain { domain: d }),
{
    let e = domain_wildcard(d);
    lemma_segment_prefix(d, e);
    lemma_split_unfold(e);
    assert(e.skip(d.len() as int + 2) =~= star());
}

/// `Domain::Object::*` reads as the wildcard of that object.
pub proof fn lemma_parse_object_wildcard(d: Seq<char>, o: Seq<char>)
    requires
        is_segment(d),
        is_segment(o),
    ensures
        parse_pattern(object_wildcard(d, o)) == (Pattern::Object { domain: d, object: o }),
{
    let e = object_wildcard(d, o);
    lemma_canonical_parts(d, o, star());
    let parts = split(e, separator());
    assert(parts.skip(2).len() == 1);
    assert(parts.skip(2)[0] == parts[2]);
}

/// `Domain::Object::{..}` reads as an action set of that object.
pub proof fn lemma_parse_action_set(d: Seq<char>, o: Seq<char>, braced: Seq<char>)
    requires
        is_segment(d),
        is_segment(o),
        is_braced(braced),
        forall|j: int| !occurs_at(braced, separator(), j),
    ensures
        parse_pattern(canonical(d, o, braced)) == (Pattern::Actions {
            domain: d,
            object: o,
            actions: action_list(braced),
        }),
{
    let e = canonical(d, o, braced);
    lemma_canonical_parts(d, o, braced);
    lemma_first_occurrence(braced, separator());
    let parts = split(e, separator());
    assert(parts.skip(2).len() == 1);
    assert(parts.skip(2)[0] == parts[2]);
}

/// The normal form of any list of patterns is normalized: with the global
/// flag nothing else is recorded, a wildcarded domain has no wildcarded
/// object, and no exact entry begins with the prefix of a wildcard.
pub proof fn lemma_compile_normalized(ps: Seq<Seq<char>>)
    ensures
        compile_spec(ps).normalized(),
{
}

/// A role that holds `*` grants every permission, whatever else it holds
/// and in whatever order.
pub proof fn lemma_global_grants_all(
    ps: Seq<Seq<char>>,
    perm: Seq<char>,
    domain: Seq<char>,
    object: Seq<char>,
)
    requires
        ps.contains(star()),
    ensures
        compile_spec(ps).matches(perm, domain, object),
{
}

/// A role that holds `Domain::*` grants every permission of that domain.
pub proof fn lemma_domain_wildcard_grants(
    ps: Seq<Seq<char>>,
    d: Seq<char>,
    perm: Seq<char>,
    object: Seq<char>,
)
    requires
        is_segment(d),
        ps.contains(domain_wildcard(d)),
    ensures
        compile_spec(ps).matches(perm, d, object),
{
    lemma_parse_domain_wildcard(d);
    let i = choose|i: int| 0 <= i < ps.len() && ps[i] == domain_wildcard(d);
    assert(parse_pattern(ps[i]) == (Pattern::Domain { domain: d }));
}

/// A pattern that is narrower than the wildcard of domain `d`: the
/// wildcard of one of its objects, an action set of one of its objects, or
/// an exact entry that begins with its prefix.
pub open spec fn narrower_than_domain(p: Seq<char>, d: Seq<char>) -> bool {
    match parse_pattern(p) {
        Pattern::Object { domain, object } => domain == d,
        Pattern::Actions { domain, object, actions } => domain == d,
        Pattern::Exact => domain_prefix(d).is_prefix_of(p),
        _ => false,
    }
}

/// Under `Domain::*` a narrower pattern of that domain changes nothing: the
/// normal form with it is the normal form without it.
pub proof fn lemma_domain_wildcard_subsumes(ps: Seq<Seq<char>>, d: Seq<char>, p: Seq<char>)
    requires
        is_segment(d),
        ps.contains(domain_wildcard(d)),
        narrower_than_domain(p, d),
    ensures
        compile_spec(ps.push(p)) == compile_spec(ps),
{
    lemma_parse_domain_wildcard(d);
    let i = choose|i: int| 0 <= i < ps.len() && ps[i] == domain_wildcard(d);
    assert(parse_pattern(ps[i]) == (Pattern::Domain { domain: d }));
    lemma_push(ps, p);
    if !ps.contains(star()) {
        let domains = wildcard_domains(ps);
        let objects = wildcard_objects(ps);
        match parse_pattern(p) {
            Pattern::Object { domain, object } => {
                lemma_absorb_object(ps, p, domain, object);
            },
            _ => {
                lemma_absorb_entries(ps, p);
                lemma_wildcards_are_segments(ps);
                assert forall|e: Seq<char>| #[trigger] entries(p).contains(e) implies covered(
                    domains,
                    objects,
                    e,
                ) by {
                    match parse_pattern(p) {
                        Pattern::Actions { domain, object, actions } => {
                            let t = choose|t: int|
                                0 <= t < actions.len() && e == canonical(
                                    domain,
                                    object,
                                    #[trigger] actions[t],
                                );
                            crate::pattern::lemma_parts_are_segments(p, 0);
                            crate::pattern::lemma_parts_are_segments(p, 1);
                            lemma_canonical_parts(domain, object, actions[t]);
                            lemma_covered_by_parts(domains, objects, e);
                        },
                        _ => {
                            assert(domains.contains(d));
                        },
                    }
                }
                assert(entries(p).filter(|e: Seq<char>| !covered(domains, objects, e))
                    =~= Set::<Seq<char>>::empty());
                assert(exact_entries(ps.push(p)) =~= exact_entries(ps));
            },
        }
    }
}

/// A role that holds `Domain::Object::*` grants every action of that
/// object.
pub proof fn lemma_object_wildcard_grants(
    ps: Seq<Seq<char>>,
    d: Seq<char>,
    o: Seq<char>,
    perm: Seq<char>,
)
    requires
        is_segment(d),
        is_segment(o),
        ps.contains(object_wildcard(d, o)),
    ensures
        compile_spec(ps).matches(perm, d, o),
{
    lemma_parse_object_wildcard(d, o);
    let i = choose|i: int| 0 <= i < ps.len() && ps[i] == object_wildcard(d, o);
    assert(parse_pattern(ps[i]) == (Pattern::Object { domain: d, object: o }));
}

/// Under `Domain::*` the pattern `Domain::Object::*` changes nothing.
pub proof fn lemma_object_wildcard_redundant(ps: Seq<Seq<char>>, d: Seq<char>, o: Seq<char>)
    requires
        is_segment(d),
        is_segment(o),
        ps.contains(domain_wildcard(d)),
    ensures
        compile_spec(ps.push(object_wildcard(d, o))) == compile_spec(ps),
{
    lemma_parse_object_wildcard(d, o);
    lemma_domain_wildcard_subsumes(ps, d, object_wildcard(d, o));
}

/// A role that holds one action set and nothing else grants the listed
/// actions of that object and nothing else: a permission is granted exactly
/// when its canonical text is that of a listed action.
pub proof fn lemma_action_set_grants_exactly(
    p: Seq<char>,
    d: Seq<char>,
    o: Seq<char>,
    actions: Seq<Seq<char>>,
    perm: Seq<char>,
    domain: Seq<char>,
    object: Seq<char>,
)
    requires
        parse_pattern(p) == (Pattern::Actions { domain: d, object: o, actions }),
    ensures
        compile_spec(seq![p]).matches(perm, domain, object) <==> exists|i: int|
            0 <= i < actions.len() && perm == canonical(d, o, #[trigger] actions[i]),
{
    let ps = seq![p];
    assert(has_entry(ps, perm) == entries(p).contains(perm)) by {
        if entries(p).contains(perm) {
            assert(entries(ps[0]).contains(perm));
        }
    }
}

/// A permission whose canonical text begins with its domain and its object,
/// both of them segments.
pub open spec fn well_formed(perm: Seq<char>, domain: Seq<char>, object: Seq<char>) -> bool {
    &&& is_segment(domain)
    &&& is_segment(object)
    &&& object_prefix(domain, object).is_prefix_of(perm)
}

/// Normalizing loses nothing and adds nothing: the normal form grants a
/// well-formed permission exactly when one of the patterns grants it.
pub proof fn lemma_compiled_agrees_with_patterns(
    ps: Seq<Seq<char>>,
    perm: Seq<char>,
    domain: Seq<char>,
    object: Seq<char>,
)
    requires
        well_formed(perm, domain, object),
    ensures
        compile_spec(ps).matches(perm, domain, object) <==> exists|i: int|
            0 <= i < ps.len() && pattern_grants(#[trigger] ps[i], perm, domain, object),
{
    let form = compile_spec(ps);
    if form.matches(perm, domain, object) {
        if ps.contains(star()) {
            let i = choose|i: int| 0 <= i < ps.len() && ps[i] == star();
            assert(pattern_grants(ps[i], perm, domain, object));
        } else if form.domains.contains(domain) {
            let i = choose|i: int|
                0 <= i < ps.len() && parse_pattern(#[trigger] ps[i]) == (Pattern::Domain {
                    domain,
                });
            assert(pattern_grants(ps[i], perm, domain, object));
        } else if form.objects.contains((domain, object)) {
            let i = choose|i: int|
                0 <= i < ps.len() && parse_pattern(#[trigger] ps[i]) == (Pattern::Object {
                    domain,
                    object,
                });
            assert(pattern_grants(ps[i], perm, domain, object));
        } else {
            let i = choose|i: int| 0 <= i < ps.len() && entries(#[trigger] ps[i]).contains(perm);
            assert(pattern_grants(ps[i], perm, domain, object));
        }
    }
    if exists|i: int| 0 <= i < ps.len() && pattern_grants(#[trigger] ps[i], perm, domain, object) {
        let i = choose|i: int|
            0 <= i < ps.len() && pattern_grants(#[trigger] ps[i], perm, domain, object);
        if !ps.contains(star()) {
            match parse_pattern(ps[i]) {
                Pattern::Global => {
                    assert(ps[i] == star());
                },
                Pattern::Domain { domain: d } => {
                    assert(has_domain(ps, domain));
                },
                Pattern::Object { domain: d, object: o } => {
                    assert(has_object(ps, domain, object));
                },
                _ => {
                    assert(has_entry(ps, perm));
                    if covered(wildcard_domains(ps), wildcard_objects(ps), perm) {
                        lemma_wildcards_are_segments(ps);
                        lemma_covered_by_parts(wildcard_domains(ps), wildcard_objects(ps), perm);
                        let action = perm.skip(object_prefix(domain, object).len() as int);
                        assert(perm =~= canonical(domain, object, action));
                        lemma_canonical_parts(domain, object, action);
                    }
                },
            }
        }
    }
}

/// Two lists that hold the same patterns have the same normal form, and so
/// grant the same permissions.
pub proof fn lemma_same_patterns_same_form(ps: Seq<Seq<char>>, qs: Seq<Seq<char>>)
    requires
        forall|p: Seq<char>| ps.contains(p) <==> qs.contains(p),
    ensures
        compile_spec(ps) == compile_spec(qs),
{
    assert forall|d: Seq<char>| has_domain(ps, d) == has_domain(qs, d) by {
        if has_domain(ps, d) {
            lemma_has_domain_transfers(ps, qs, d);
        }
        if has_domain(qs, d) {
            lemma_has_domain_transfers(qs, ps, d);
        }
    }
    assert forall|d: Seq<char>, o: Seq<char>| has_object(ps, d, o) == has_object(qs, d, o) by {
        if has_object(ps, d, o) {
            lemma_has_object_transfers(ps, qs, d, o);
        }
        if has_object(qs, d, o) {
            lemma_has_object_transfers(qs, ps, d, o);
        }
    }
    assert forall|e: Seq<char>| has_entry(ps, e) == has_entry(qs, e) by {
        if has_entry(ps, e) {
            lemma_has_entry_transfers(ps, qs, e);
        }
        if has_entry(qs, e) {
            lemma_has_entry_transfers(qs, ps, e);
        }
    }
    assert(wildcard_domains(ps) =~= wildcard_domains(qs));
    assert(wildcard_objects(ps) =~= wildcard_objects(qs));
    assert(exact_entries(ps) =~= exact_entries(qs));
}

proof fn lemma_has_domain_transfers(ps: Seq<Seq<char>>, qs: Seq<Seq<char>>, d: Seq<char>)
    requires
        forall|p: Seq<char>| ps.contains(p) ==> qs.contains(p),
        has_domain(ps, d),
    ensures
        has_domain(qs, d),
{
    let i = choose|i: int|
        0 <= i < ps.len() && parse_pattern(#[trigger] ps[i]) == (Pattern::Domain { domain: d });
    assert(ps.contains(ps[i]));
    let j = choose|j: int| 0 <= j < qs.len() && qs[j] == ps[i];
    assert(parse_pattern(qs[j]) == (Pattern::Domain { domain: d }));
}

proof fn lemma_has_object_transfers(
    ps: Seq<Seq<char>>,
    qs: Seq<Seq<char>>,
    d: Seq<char>,
    o: Seq<char>,
)
    requires
        forall|p: Seq<char>| ps.contains(p) ==> qs.contains(p),
        has_object(ps, d, o),
    ensures
        has_object(qs, d, o),
{
    let i = choose|i: int|
        0 <= i < ps.len() && parse_pattern(#[trigger] ps[i]) == (Pattern::Object {
            domain: d,
            object: o,
        });
    assert(ps.contains(ps[i]));
    let j = choose|j: int| 0 <= j < qs.len() && qs[j] == ps[i];
    assert(parse_pattern(qs[j]) == (Pattern::Object { domain: d, object: o }));
}

proof fn lemma_has_entry_transfers(ps: Seq<Seq<char>>, qs: Seq<Seq<char>>, e: Seq<char>)
    requires
        forall|p: Seq<char>| ps.contains(p) ==> qs.contains(p),
        has_entry(ps, e),
    ensures
        has_entry(qs, e),
{
    let i = choose|i: int| 0 <= i < ps.len() && entries(#[trigger] ps[i]).contains(e);
    assert(ps.contains(ps[i]));
    let j = choose|j: int| 0 <= j < qs.len() && qs[j] == ps[i];
    assert(entries(qs[j]).contains(e));
}

/// A list of patterns and any permutation of it have the same normal form:
/// the order in which a role's patterns are given does not matter.
pub proof fn lemma_order_does_not_matter(ps: Seq<Seq<char>>, qs: Seq<Seq<char>>)
    requires
        ps.to_multiset() == qs.to_multiset(),
    ensures
        compile_spec(ps) == compile_spec(qs),
        forall|perm: Seq<char>, domain: Seq<char>, object: Seq<char>|
            compile_spec(ps).matches(perm, domain, object) == compile_spec(qs).matches(
                perm,
                domain,
                object,
            ),
{
    assert forall|p: Seq<char>| ps.contains(p) <==> qs.contains(p) by {
        vstd::seq_lib::to_multiset_contains(ps, p);
        vstd::seq_lib::to_multiset_contains(qs, p);
    }
    lemma_same_patterns_same_form(ps, qs);
}

/// A role name under which the role map holds no role grants nothing: a
/// check that consults it among other names is decided as without it.
pub proof fn lemma_absent_role_grants_nothing(
    roles: Map<Seq<char>, RoleView>,
    before: Seq<Seq<char>>,
    name: Seq<char>,
    after: Seq<Seq<char>>,
    perm: Seq<char>,
    domain: Seq<char>,
    object: Seq<char>,
)
    requires
        !roles.contains_key(name),
    ensures
        granted(roles, before + seq![name] + after, perm, domain, object) == granted(
            roles,
            before + after,
            perm,
            domain,
            object,
        ),
{
    let with = before + seq![name] + after;
    let without = before + after;
    let n = before.len() as int;
    if granted(roles, with, perm, domain, object) {
        let i = choose|i: int|
            0 <= i < with.len() && roles.contains_key(#[trigger] with[i]) && role_grants(
                roles[with[i]],
                perm,
                domain,
                object,
            );
        if i < n {
            assert(without[i] == with[i]);
        } else {
            assert(without[i - 1] == with[i]);
        }
    }
    if granted(roles, without, perm, domain, object) {
        let i = choose|i: int|
            0 <= i < without.len() && roles.contains_key(#[trigger] without[i]) && role_grants(
                roles[without[i]],
                perm,
                domain,
                object,
            );
        if i < n {
            assert(with[i] == without[i]);
        } else {
            assert(with[i + 1] == without[i]);
        }
    }
}

} // verus!
