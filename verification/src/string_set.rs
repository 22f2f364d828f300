//! A set of strings that answers membership by hashing and can also be
//! walked, which the hash set alone cannot.

use vstd::prelude::*;
use vstd::string::*;
use vstd::hash_set::StringHashSet;
use crate::text::{starts_with, to_chars};

verus! {

/// A hash set of strings together with a list that names every member, so
/// that the members can be enumerated.
pub struct StringSet {
    index: StringHashSet,
    items: Vec<String>,
}

impl View for StringSet {
    type V = Set<Seq<char>>;

    closed spec fn view(&self) -> Set<Seq<char>> {
        self.index@
    }
}

impl StringSet {
    /// Every member of the set is named by the list.
    pub closed spec fn wf(&self) -> bool {
        forall|s: Seq<char>|
            self.index@.contains(s) ==> exists|i: int|
                0 <= i < self.items@.len() && (#[trigger] self.items@[i])@ == s
    }

    /// The empty set.
    pub fn new() -> (r: Self)
        ensures
            r.wf(),
            r@ == Set::<Seq<char>>::empty(),
    {
        StringSet { index: StringHashSet::new(), items: Vec::new() }
    }

    /// Whether `s` is a member.
    pub fn contains(&self, s: &str) -> (r: bool)
        ensures
            r == self@.contains(s@),
    {
        self.index.contains(s)
    }

    /// Adds `s` to the set.
    pub fn insert(&mut self, s: &str)
        requires
            old(self).wf(),
        ensures
            final(self).wf(),
            final(self)@ == old(self)@.insert(s@),
    {
        if !self.index.contains(s) {
            self.index.insert(String::from_str(s));
            self.items.push(String::from_str(s));
            proof {
                let n = old(self).items@.len() as int;
                assert(self.items@[n]@ == s@);
                assert forall|t: Seq<char>| self.index@.contains(t) implies exists|i: int|
                    0 <= i < self.items@.len() && (#[trigger] self.items@[i])@ == t by {
                    if t != s@ {
                        let i = choose|i: int|
                            0 <= i < n && (#[trigger] old(self).items@[i])@ == t;
                        assert(self.items@[i] == old(self).items@[i]);
                    }
                }
            }
        } else {
            assert(self@ =~= old(self)@.insert(s@));
        }
    }

    /// Removes every member that begins with `prefix`.
    pub fn remove_prefixed(&mut self, prefix: &Vec<char>)
        requires
            old(self).wf(),
        ensures
            final(self).wf(),
            final(self)@ == old(self)@.filter(|e: Seq<char>| !prefix@.is_prefix_of(e)),
    {
        let ghost items0 = self.items@;
        let ghost index0 = self.index@;
        let mut kept: Vec<String> = Vec::new();
        let n = self.items.len();
        let mut i: usize = 0;
        while i < n
            invariant
                i <= n == items0.len(),
                self.items@ == items0,
                forall|e: Seq<char>| #[trigger]
                    self.index@.contains(e) <==> (index0.contains(e) && !(prefix@.is_prefix_of(e)
                        && named(items0, i as int, e))),
                forall|e: Seq<char>|
                    !prefix@.is_prefix_of(e) && #[trigger] named(items0, i as int, e) ==> named(
                        kept@,
                        kept@.len() as int,
                        e,
                    ),
            decreases n - i,
        {
            let ghost before = kept@;
            let ghost item = items0[i as int]@;
            let chars = to_chars(self.items[i].as_str());
            if starts_with(&chars, prefix) {
                self.index.remove(self.items[i].as_str());
            } else {
                kept.push(self.items[i].clone());
                proof {
                    assert(kept@ == before.push(kept@[before.len() as int]));
                    assert forall|e: Seq<char>|
                        named(kept@, kept@.len() as int, e) == (named(
                            before,
                            before.len() as int,
                            e,
                        ) || e == item) by {
                        lemma_named_same(before, kept@, before.len() as int, e);
                    }
                }
            }
            proof {
                assert forall|e: Seq<char>|
                    !prefix@.is_prefix_of(e) && #[trigger] named(items0, i + 1, e) implies named(
                    kept@,
                    kept@.len() as int,
                    e,
                ) by {
                    if named(items0, i as int, e) {
                        assert(named(before, before.len() as int, e));
                    }
                }
            }
            i = i + 1;
        }
        self.items = kept;
        proof {
            assert forall|e: Seq<char>| self.index@.contains(e) implies exists|t: int|
                0 <= t < self.items@.len() && (#[trigger] self.items@[t])@ == e by {
                assert(named(items0, n as int, e));
                let t = choose|t: int|
                    0 <= t < self.items@.len() && (#[trigger] self.items@[t])@ == e;
                assert(self.items@[t]@ == e);
            }
        }
    }
}

/// One of the first `i` strings of `items` reads `e`.
pub open spec fn named(items: Seq<String>, i: int, e: Seq<char>) -> bool {
    exists|j: int| 0 <= j < i && j < items.len() && (#[trigger] items[j])@ == e
}

/// The string at position `i` is the one that the first `i + 1` strings
/// have over the first `i`.
pub proof fn lemma_named_step(items: Seq<String>, i: int, e: Seq<char>)
    requires
        0 <= i < items.len(),
    ensures
        named(items, i + 1, e) == (named(items, i, e) || items[i]@ == e),
{
}

/// Two lists that agree on their first `i` strings name the same texts
/// there.
pub proof fn lemma_named_same(a: Seq<String>, b: Seq<String>, i: int, e: Seq<char>)
    requires
        0 <= i <= a.len() <= b.len(),
        forall|j: int| 0 <= j < i ==> a[j] == b[j],
    ensures
        named(a, i, e) == named(b, i, e),
{
}

impl Clone for StringSet {
    /// A set with the same members.
    fn clone(&self) -> (r: Self)
        ensures
            self.wf() ==> r.wf() && r@ == self@,
    {
        let mut out = StringSet::new();
        let n = self.items.len();
        let mut i: usize = 0;
        while i < n
            invariant
                i <= n == self.items@.len(),
                out.wf(),
                forall|e: Seq<char>|
                    out@.contains(e) <==> (self@.contains(e) && exists|j: int|
                        0 <= j < i && (#[trigger] self.items@[j])@ == e),
            decreases n - i,
        {
            if self.index.contains(self.items[i].as_str()) {
                out.insert(self.items[i].as_str());
            }
            i = i + 1;
        }
        out
    }
}

} // verus!
