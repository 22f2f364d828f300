//! A set of pairs of strings, found by hashing the first string and then
//! the second.

use vstd::prelude::*;
use vstd::string::*;
use vstd::hash_map::StringHashMap;
use crate::string_set::StringSet;

verus! {

/// A set of (first, second) pairs: for each first string that occurs, the
/// set of the second strings that go with it.
pub struct PairSet {
    /// Where the seconds of a first string stand in `groups`.
    index: StringHashMap<usize>,
    groups: Vec<StringSet>,
    /// The first string of each group.
    firsts: Vec<String>,
}

impl View for PairSet {
    type V = Set<(Seq<char>, Seq<char>)>;

    closed spec fn view(&self) -> Set<(Seq<char>, Seq<char>)> {
        Set::new(
            |q: (Seq<char>, Seq<char>)|
                self.index@.contains_key(q.0) && self.index@[q.0] < self.groups@.len()
                    && self.groups@[self.index@[q.0] as int]@.contains(q.1),
        )
    }
}

impl PairSet {
    /// Every first string leads to its own group, and every group is well
    /// formed.
    pub closed spec fn wf(&self) -> bool {
        &&& self.firsts@.len() == self.groups@.len()
        &&& forall|d: Seq<char>| #[trigger]
            self.index@.contains_key(d) ==> self.index@[d] < self.groups@.len()
                && self.firsts@[self.index@[d] as int]@ == d
        &&& forall|i: int| 0 <= i < self.groups@.len() ==> (#[trigger] self.groups@[i]).wf()
    }

    /// The empty set.
    pub fn new() -> (r: PairSet)
        ensures
            r.wf(),
            r@ == Set::<(Seq<char>, Seq<char>)>::empty(),
    {
        PairSet { index: StringHashMap::new(), groups: Vec::new(), firsts: Vec::new() }
    }

    /// Whether the pair is a member.
    pub fn contains(&self, first: &str, second: &str) -> (r: bool)
        ensures
            r == self@.contains((first@, second@)),
    {
        match self.index.get(first) {
            Some(i) => {
                if *i < self.groups.len() {
                    self.groups[*i].contains(second)
                } else {
                    false
                }
            },
            None => false,
        }
    }

    /// Adds the pair to the set.
    pub fn insert(&mut self, first: &str, second: &str)
        requires
            old(self).wf(),
        ensures
            final(self).wf(),
            final(self)@ == old(self)@.insert((first@, second@)),
    {
        let found = match self.index.get(first) {
            Some(i) => Some(*i),
            None => None,
        };
        match found {
            Some(i) => {
                self.groups[i].insert(second);
                proof {
                    assert(self@ =~= old(self)@.insert((first@, second@)));
                }
            },
            None => {
                let mut group = StringSet::new();
                group.insert(second);
                let at = self.groups.len();
                self.groups.push(group);
                self.firsts.push(String::from_str(first));
                self.index.insert(String::from_str(first), at);
                proof {
                    assert(self@ =~= old(self)@.insert((first@, second@)));
                }
            },
        }
    }

    /// Removes every pair whose first string is `first`.
    pub fn remove_first(&mut self, first: &str)
        requires
            old(self).wf(),
        ensures
            final(self).wf(),
            final(self)@ == old(self)@.filter(|q: (Seq<char>, Seq<char>)| q.0 != first@),
    {
        self.index.remove(first);
    }
}

impl Clone for PairSet {
    /// A set with the same pairs.
    fn clone(&self) -> (r: Self)
        ensures
            self.wf() ==> r.wf() && r@ == self@,
    {
        let mut out = PairSet {
            index: StringHashMap::new(),
            groups: Vec::new(),
            firsts: Vec::new(),
        };
        let n = self.groups.len();
        let mut i: usize = 0;
        while i < n
            invariant
                i <= n == self.groups@.len(),
                self.wf() ==> out.wf(),
                self.wf() ==> forall|q: (Seq<char>, Seq<char>)|
                    #[trigger] out@.contains(q) <==> (self@.contains(q) && self.index@[q.0] < i),
                self.wf() ==> forall|d: Seq<char>|
                    #[trigger] out.index@.contains_key(d) ==> self.index@.contains_key(d)
                        && self.index@[d] < i,
            decreases n - i,
        {
            if i < self.firsts.len() {
                let live = match self.index.get(self.firsts[i].as_str()) {
                    Some(at) => *at == i,
                    None => false,
                };
                if live {
                    let ghost before = out;
                    let at = out.groups.len();
                    out.groups.push(self.groups[i].clone());
                    out.firsts.push(self.firsts[i].clone());
                    out.index.insert(self.firsts[i].clone(), at);
                    proof {
                        if self.wf() {
                            let d = self.firsts@[i as int]@;
                            assert forall|q: (Seq<char>, Seq<char>)|
                                #[trigger] out@.contains(q) <==> (self@.contains(q)
                                    && self.index@[q.0] < i + 1) by {
                                if q.0 == d {
                                    assert(out.groups@[at as int]@ == self.groups@[i as int]@);
                                } else {
                                    assert(before@.contains(q) == out@.contains(q));
                                }
                            }
                        }
                    }
                }
            }
            i = i + 1;
        }
        out
    }
}

} // verus!
