//! Compiled permissions: the normal form of a role's patterns held in hash
//! sets, the single pass that builds it, and the lookup that decides a match.

use vstd::prelude::*;
use vstd::string::*;
use crate::normal_form::{
    compile_spec, covered, domain_prefix, exact_entries, lemma_absorb_domain, lemma_absorb_entries,
    lemma_absorb_object, lemma_canonical_parts, lemma_covered_by_parts,
    lemma_wildcards_are_segments, object_prefix, wildcard_domains, wildcard_objects, CompiledView,
};
use crate::pattern::{
    action_list, canonical, classify, comma_chars, entries, lemma_parts_are_segments, parse_pattern,
    shape_of, star, Shape,
};
use crate::pair_set::PairSet;
use crate::string_set::StringSet;
use crate::text::{
    chained, cut, parted_by, separator, separator_chars, slice_chars, split, split_ranges,
    to_chars, trim, trim_range,
};

verus! {

/// What the parts of a pattern are as texts, and where they lie in it.
spec fn laid_out(chars: Seq<char>, parts: Seq<(usize, usize)>) -> bool {
    &&& cut(chars, parts) == split(chars, separator())
    &&& chained(parts, 0, chars.len() as int, 2)
    &&& parted_by(chars, parts, separator())
}

/// The three sets of compiled permissions while they are being built.
struct Draft {
    domains: StringSet,
    objects: PairSet,
    exact: StringSet,
}

impl Draft {
    spec fn wf(&self) -> bool {
        self.domains.wf() && self.objects.wf() && self.exact.wf()
    }

    spec fn view(&self) -> CompiledView {
        CompiledView {
            global: false,
            domains: self.domains@,
            objects: self.objects@,
            exact: self.exact@,
        }
    }

    /// The draft holds the normal form of `ps`, a list without `*`.
    spec fn holds(&self, ps: Seq<Seq<char>>) -> bool {
        self.wf() && !ps.contains(star()) && self.view() == compile_spec(ps)
    }

    fn new() -> (r: Draft)
        ensures
            r.holds(Seq::<Seq<char>>::empty()),
    {
        let r = Draft { domains: StringSet::new(), objects: PairSet::new(), exact: StringSet::new() };
        proof {
            let ps = Seq::<Seq<char>>::empty();
            assert(wildcard_domains(ps) =~= Set::<Seq<char>>::empty());
            assert(wildcard_objects(ps) =~= Set::<(Seq<char>, Seq<char>)>::empty());
            assert(exact_entries(ps) =~= Set::<Seq<char>>::empty());
        }
        r
    }

    /// Takes in the wildcard of a domain.
    fn absorb_domain(
        &mut self,
        perm: &str,
        chars: &Vec<char>,
        parts: &Vec<(usize, usize)>,
        Ghost(ps): Ghost<Seq<Seq<char>>>,
    )
        requires
            old(self).holds(ps),
            chars@ == perm@,
            laid_out(chars@, parts@),
            shape_of(parse_pattern(perm@)) == Shape::Domain,
        ensures
            final(self).holds(ps.push(perm@)),
    {
        let ghost d = split(perm@, separator())[0];
        proof {
            lemma_absorb_domain(ps, perm@, d);
        }
        let domain = perm.substring_char(0, parts[0].1);
        let prefix = slice_chars(chars, 0, parts[1].0);
        self.domains.insert(domain);
        self.objects.remove_first(domain);
        self.exact.remove_prefixed(&prefix);
        proof {
            assert(self.objects@ =~= old(self).objects@.filter(
                |q: (Seq<char>, Seq<char>)| q.0 != d,
            ));
            assert(self.exact@ =~= old(self).exact@.filter(
                |e: Seq<char>| !domain_prefix(d).is_prefix_of(e),
            ));
        }
    }

    /// Takes in the wildcard of an object.
    fn absorb_object(
        &mut self,
        perm: &str,
        chars: &Vec<char>,
        parts: &Vec<(usize, usize)>,
        Ghost(ps): Ghost<Seq<Seq<char>>>,
    )
        requires
            old(self).holds(ps),
            chars@ == perm@,
            laid_out(chars@, parts@),
            shape_of(parse_pattern(perm@)) == Shape::Object,
        ensures
            final(self).holds(ps.push(perm@)),
    {
        let ghost d = split(perm@, separator())[0];
        let ghost o = split(perm@, separator())[1];
        proof {
            lemma_absorb_object(ps, perm@, d, o);
        }
        let domain = perm.substring_char(0, parts[0].1);
        if !self.domains.contains(domain) {
            let object = perm.substring_char(parts[1].0, parts[1].1);
            let prefix = slice_chars(chars, 0, parts[2].0);
            self.objects.insert(domain, object);
            self.exact.remove_prefixed(&prefix);
            proof {
                assert(self.exact@ =~= old(self).exact@.filter(
                    |e: Seq<char>| !object_prefix(d, o).is_prefix_of(e),
                ));
            }
        }
    }

    /// Whether a wildcard of the draft covers the pattern `perm`.
    fn covers(&self, perm: &str, chars: &Vec<char>, parts: &Vec<(usize, usize)>, Ghost(ps): Ghost<
        Seq<Seq<char>>,
    >) -> (r: bool)
        requires
            self.holds(ps),
            chars@ == perm@,
            laid_out(chars@, parts@),
        ensures
            r == covered(wildcard_domains(ps), wildcard_objects(ps), perm@),
    {
        proof {
            lemma_wildcards_are_segments(ps);
            lemma_covered_by_parts(wildcard_domains(ps), wildcard_objects(ps), perm@);
        }
        if parts.len() < 2 {
            return false;
        }
        let domain = perm.substring_char(0, parts[0].1);
        if self.domains.contains(domain) {
            return true;
        }
        if parts.len() < 3 {
            return false;
        }
        let object = perm.substring_char(parts[1].0, parts[1].1);
        self.objects.contains(domain, object)
    }

    /// Takes in a pattern that stands for itself.
    fn absorb_exact(
        &mut self,
        perm: &str,
        chars: &Vec<char>,
        parts: &Vec<(usize, usize)>,
        Ghost(ps): Ghost<Seq<Seq<char>>>,
    )
        requires
            old(self).holds(ps),
            chars@ == perm@,
            laid_out(chars@, parts@),
            shape_of(parse_pattern(perm@)) == Shape::Exact,
        ensures
            final(self).holds(ps.push(perm@)),
    {
        proof {
            lemma_absorb_entries(ps, perm@);
        }
        let ghost kept = entries(perm@).filter(
            |e: Seq<char>| !covered(wildcard_domains(ps), wildcard_objects(ps), e),
        );
        if !self.covers(perm, chars, parts, Ghost(ps)) {
            self.exact.insert(perm);
        }
        proof {
            assert(self.exact@ =~= old(self).exact@.union(kept));
        }
    }

    /// Takes in an action set.
    fn absorb_actions(
        &mut self,
        perm: &str,
        chars: &Vec<char>,
        parts: &Vec<(usize, usize)>,
        Ghost(ps): Ghost<Seq<Seq<char>>>,
    )
        requires
            old(self).holds(ps),
            chars@ == perm@,
            laid_out(chars@, parts@),
            shape_of(parse_pattern(perm@)) == Shape::Actions,
        ensures
            final(self).holds(ps.push(perm@)),
    {
        let ghost d = split(perm@, separator())[0];
        let ghost o = split(perm@, separator())[1];
        let ghost braced = split(perm@, separator())[2];
        let ghost actions = action_list(braced);
        let ghost kept = entries(perm@).filter(
            |e: Seq<char>| !covered(wildcard_domains(ps), wildcard_objects(ps), e),
        );
        proof {
            lemma_parts_are_segments(perm@, 0);
            lemma_parts_are_segments(perm@, 1);
            lemma_absorb_entries(ps, perm@);
            lemma_wildcards_are_segments(ps);
            assert forall|e: Seq<char>| #[trigger] entries(perm@).contains(e) implies covered(
                wildcard_domains(ps),
                wildcard_objects(ps),
                e,
            ) == (wildcard_domains(ps).contains(d) || wildcard_objects(ps).contains((d, o))) by {
                let t = choose|t: int|
                    0 <= t < actions.len() && e == canonical(d, o, #[trigger] actions[t]);
                lemma_canonical_parts(d, o, actions[t]);
                lemma_covered_by_parts(wildcard_domains(ps), wildcard_objects(ps), e);
            }
        }
        let domain = perm.substring_char(0, parts[0].1);
        let object = perm.substring_char(parts[1].0, parts[1].1);
        if !self.domains.contains(domain) && !self.objects.contains(domain, object) {
            let head = perm.substring_char(0, parts[2].0);
            let c = comma_chars();
            let fields = split_ranges(chars, &c, parts[2].0 + 1, parts[2].1 - 1);
            proof {
                assert(braced.subrange(1, braced.len() - 1) =~= chars@.subrange(
                    parts@[2].0 + 1,
                    parts@[2].1 - 1,
                ));
            }
            let mut j: usize = 0;
            while j < fields.len()
                invariant
                    j <= fields@.len() == actions.len(),
                    chars@ == perm@,
                    head@ == object_prefix(d, o),
                    forall|t: int|
                        0 <= t < fields@.len() ==> (#[trigger] fields@[t]).0 <= fields@[t].1
                            <= chars@.len() && actions[t] == trim(
                            chars@.subrange(fields@[t].0 as int, fields@[t].1 as int),
                        ),
                    self.domains == old(self).domains,
                    self.objects == old(self).objects,
                    self.exact.wf(),
                    self.exact@ == old(self).exact@.union(listed(d, o, actions, j as int)),
                decreases fields@.len() - j,
            {
                let window = trim_range(chars, fields[j].0, fields[j].1);
                let mut entry = String::from_str(head);
                entry.append(perm.substring_char(window.0, window.1));
                self.exact.insert(entry.as_str());
                j = j + 1;
            }
            proof {
                assert(listed(d, o, actions, actions.len() as int) =~= entries(perm@));
                assert(kept =~= entries(perm@));
            }
        } else {
            proof {
                assert(self.exact@ =~= old(self).exact@.union(kept));
            }
        }
    }
}

/// The entries of the first `n` actions of an action set.
spec fn listed(d: Seq<char>, o: Seq<char>, actions: Seq<Seq<char>>, n: int) -> Set<
    Seq<char>,
> {
    Set::new(
        |e: Seq<char>|
            exists|t: int|
                0 <= t < n && t < actions.len() && e == canonical(d, o, #[trigger] actions[t]),
    )
}

/// The normal form of a role's patterns, ready for lookup.
pub struct CompiledPermissions {
    global_permission: bool,
    domain_wildcards: StringSet,
    object_wildcards: PairSet,
    exact_permissions: StringSet,
}

impl View for CompiledPermissions {
    type V = CompiledView;

    closed spec fn view(&self) -> CompiledView {
        CompiledView {
            global: self.global_permission,
            domains: self.domain_wildcards@,
            objects: self.object_wildcards@,
            exact: self.exact_permissions@,
        }
    }
}

impl CompiledPermissions {
    #[verifier::type_invariant]
    spec fn inv(&self) -> bool {
        self.domain_wildcards.wf() && self.object_wildcards.wf() && self.exact_permissions.wf()
    }

    /// Compiles a role's patterns in one pass over them, in order. `*` sets
    /// the global flag, drops all else and ends the pass; the wildcard of a
    /// domain drops what it covers; the wildcard of an object is skipped
    /// under a wildcarded domain and else drops what it covers; an action
    /// set and an exact pattern add the entries that no wildcard covers. The
    /// result is the normal form of the list, whatever the order.
    pub fn compile(permissions: &Vec<String>) -> (r: Self)
        ensures
            r@ == compile_spec(permissions.deep_view()),
            r@.normalized(),
    {
        let ghost ps = permissions.deep_view();
        let sep = separator_chars();
        let mut draft = Draft::new();
        let mut i: usize = 0;
        proof {
            assert(ps.take(0) =~= Seq::<Seq<char>>::empty());
        }
        while i < permissions.len()
            invariant
                i <= permissions@.len(),
                ps == permissions.deep_view(),
                sep@ == separator(),
                draft.holds(ps.take(i as int)),
            decreases permissions@.len() - i,
        {
            let perm = permissions[i].as_str();
            let chars = to_chars(perm);
            let parts = split_ranges(&chars, &sep, 0, chars.len());
            proof {
                assert(chars@.subrange(0, chars@.len() as int) =~= chars@);
                assert(ps.take(i as int).push(perm@) =~= ps.take(i + 1));
            }
            match classify(&chars, &parts) {
                Shape::Global => {
                    proof {
                        assert(parse_pattern(perm@) is Global);
                        assert(ps[i as int] == star());
                        assert(ps.contains(star()));
                    }
                    return CompiledPermissions {
                        global_permission: true,
                        domain_wildcards: StringSet::new(),
                        object_wildcards: PairSet::new(),
                        exact_permissions: StringSet::new(),
                    };
                },
                Shape::Domain => {
                    draft.absorb_domain(perm, &chars, &parts, Ghost(ps.take(i as int)));
                },
                Shape::Object => {
                    draft.absorb_object(perm, &chars, &parts, Ghost(ps.take(i as int)));
                },
                Shape::Actions => {
                    draft.absorb_actions(perm, &chars, &parts, Ghost(ps.take(i as int)));
                },
                Shape::Exact => {
                    draft.absorb_exact(perm, &chars, &parts, Ghost(ps.take(i as int)));
                },
            }
            i = i + 1;
        }
        proof {
            assert(ps.take(i as int) =~= ps);
        }
        CompiledPermissions {
            global_permission: false,
            domain_wildcards: draft.domains,
            object_wildcards: draft.objects,
            exact_permissions: draft.exact,
        }
    }

    /// Whether the permission with canonical text `perm_str`, domain
    /// `domain` and object type `object_type` is granted: by the global
    /// flag, else by the domain, else by the object, else by the exact text.
    /// Each step is a lookup by hash; no text is built.
    #[inline]
    pub fn matches(&self, perm_str: &str, domain: &str, object_type: &str) -> (r: bool)
        ensures
            r == self@.matches(perm_str@, domain@, object_type@),
    {
        if self.global_permission {
            return true;
        }
        if self.domain_wildcards.contains(domain) {
            return true;
        }
        if self.object_wildcards.contains(domain, object_type) {
            return true;
        }
        self.exact_permissions.contains(perm_str)
    }
}

impl Default for CompiledPermissions {
    /// Compiled permissions that grant nothing.
    fn default() -> (r: Self)
        ensures
            r@ == CompiledView::empty(),
    {
        CompiledPermissions {
            global_permission: false,
            domain_wildcards: StringSet::new(),
            object_wildcards: PairSet::new(),
            exact_permissions: StringSet::new(),
        }
    }
}

impl Clone for CompiledPermissions {
    /// Compiled permissions with the same value.
    fn clone(&self) -> (r: Self)
        ensures
            r@ == self@,
    {
        proof {
            use_type_invariant(self);
        }
        CompiledPermissions {
            global_permission: self.global_permission,
            domain_wildcards: self.domain_wildcards.clone(),
            object_wildcards: self.object_wildcards.clone(),
            exact_permissions: self.exact_permissions.clone(),
        }
    }
}

} // verus!
