//! The roles of a service, each stored under its name.

use vstd::prelude::*;
use vstd::string::*;
use vstd::hash_map::StringHashMap;
use crate::role::{Role, RoleView};
use crate::string_set::named;

verus! {

/// A map from role names to roles. A role that is added replaces the one
/// that had its name.
pub struct RoleMap {
    map: StringHashMap<Role>,
    /// Names every key of `map`, so that the map can be walked.
    names: Vec<String>,
}

impl View for RoleMap {
    type V = Map<Seq<char>, RoleView>;

    closed spec fn view(&self) -> Map<Seq<char>, RoleView> {
        Map::new(|k: Seq<char>| self.map@.contains_key(k), |k: Seq<char>| self.map@[k]@)
    }
}

impl RoleMap {
    /// Every role is stored under its own name, and the list names every
    /// key.
    pub closed spec fn wf(&self) -> bool {
        &&& forall|k: Seq<char>| #[trigger] self.map@.contains_key(k) ==> self.map@[k]@.name == k
        &&& forall|k: Seq<char>| #[trigger]
            self.map@.contains_key(k) ==> named(self.names@, self.names@.len() as int, k)
    }

    /// In a well-formed map every role is stored under its own name.
    pub proof fn lemma_keyed_by_name(&self)
        requires
            self.wf(),
        ensures
            forall|k: Seq<char>| #[trigger] self@.contains_key(k) ==> self@[k].name == k,
    {
    }

    /// The map without roles.
    pub fn new() -> (r: RoleMap)
        ensures
            r.wf(),
            r@ == Map::<Seq<char>, RoleView>::empty(),
    {
        RoleMap { map: StringHashMap::new(), names: Vec::new() }
    }

    /// The role stored under `name`, if there is one.
    pub fn get(&self, name: &str) -> (r: Option<&Role>)
        ensures
            match r {
                Some(role) => self@.contains_key(name@) && role@ == self@[name@],
                None => !self@.contains_key(name@),
            },
    {
        self.map.get(name)
    }

    /// Stores `role` under its name, in place of any role that had it.
    pub fn insert(&mut self, role: Role)
        requires
            old(self).wf(),
        ensures
            final(self).wf(),
            final(self)@ == old(self)@.insert(role@.name, role@),
    {
        let key = String::from_str(role.name());
        if !self.map.contains_key(key.as_str()) {
            self.names.push(key.clone());
        }
        self.map.insert(key, role);
        proof {
            assert forall|k: Seq<char>| #[trigger] self.map@.contains_key(k) implies named(
                self.names@,
                self.names@.len() as int,
                k,
            ) by {
                if k == role@.name {
                    if old(self).map@.contains_key(k) {
                        assert(named(old(self).names@, old(self).names@.len() as int, k));
                    } else {
                        assert(self.names@[old(self).names@.len() as int]@ == k);
                    }
                } else if !old(self).map@.contains_key(role@.name) {
                    let j = choose|j: int|
                        0 <= j < old(self).names@.len() && (#[trigger] old(self).names@[j])@ == k;
                    assert(self.names@[j]@ == k);
                }
            }
        }
    }

    /// Takes out the role stored under `name`, if there is one.
    pub fn remove(&mut self, name: &str)
        requires
            old(self).wf(),
        ensures
            final(self).wf(),
            final(self)@ == old(self)@.remove(name@),
    {
        if !self.map.contains_key(name) {
            return;
        }
        self.map.remove(name);
        let gone = String::from_str(name);
        let mut kept: Vec<String> = Vec::new();
        let n = self.names.len();
        let mut i: usize = 0;
        while i < n
            invariant
                i <= n == self.names@.len(),
                self.names == old(self).names,
                gone@ == name@,
                forall|k: Seq<char>|
                    k != name@ && #[trigger] named(self.names@, i as int, k) ==> named(
                        kept@,
                        kept@.len() as int,
                        k,
                    ),
            decreases n - i,
        {
            let ghost before = kept@;
            if self.names[i] != gone {
                kept.push(self.names[i].clone());
                proof {
                    assert forall|k: Seq<char>|
                        named(before, before.len() as int, k) implies named(
                        kept@,
                        kept@.len() as int,
                        k,
                    ) by {
                        crate::string_set::lemma_named_same(before, kept@, before.len() as int, k);
                    }
                    assert(named(kept@, kept@.len() as int, self.names@[i as int]@)) by {
                        crate::string_set::lemma_named_step(
                            kept@,
                            before.len() as int,
                            self.names@[i as int]@,
                        );
                    }
                }
            }
            proof {
                assert forall|k: Seq<char>|
                    k != name@ && #[trigger] named(self.names@, i + 1, k) implies named(
                    kept@,
                    kept@.len() as int,
                    k,
                ) by {
                    crate::string_set::lemma_named_step(self.names@, i as int, k);
                }
            }
            i = i + 1;
        }
        self.names = kept;
    }
}

impl Clone for RoleMap {
    /// A map with the same roles.
    fn clone(&self) -> (r: Self)
        ensures
            self.wf() ==> r.wf() && r@ == self@,
    {
        let mut out = RoleMap::new();
        let n = self.names.len();
        let mut i: usize = 0;
        while i < n
            invariant
                i <= n == self.names@.len(),
                out.wf(),
                self.wf() ==> forall|k: Seq<char>|
                    #[trigger] out@.contains_key(k) <==> (self@.contains_key(k) && named(
                        self.names@,
                        i as int,
                        k,
                    )),
                self.wf() ==> forall|k: Seq<char>|
                    #[trigger] out@.contains_key(k) ==> out@[k] == self@[k],
            decreases n - i,
        {
            proof {
                assert forall|k: Seq<char>|
                    named(self.names@, i + 1, k) == (named(self.names@, i as int, k) || k
                        == self.names@[i as int]@) by {
                    crate::string_set::lemma_named_step(self.names@, i as int, k);
                }
            }
            match self.map.get(self.names[i].as_str()) {
                Some(role) => {
                    out.insert(role.clone());
                },
                None => {},
            }
            i = i + 1;
        }
        out
    }
}

} // verus!
