//! The registry of permissions: a record for each registered permission,
//! found by its canonical text and listed in the order of those texts.

use vstd::prelude::*;
use vstd::string::*;
use crate::permission::{info_of, permission_text, Permission, PermissionInfo, PermissionInfoView};
use crate::text::{
    compare_texts, lemma_precedes_irreflexive, lemma_precedes_transitive, precedes, to_chars,
    Order,
};

verus! {

/// The records stand in the strict order of their canonical texts.
pub open spec fn sorted(entries: Seq<PermissionInfo>) -> bool {
    forall|i: int, j: int|
        0 <= i < j < entries.len() ==> precedes(
            (#[trigger] entries[i]).full_name@,
            (#[trigger] entries[j]).full_name@,
        )
}

/// One of the records has the canonical text `k`.
pub open spec fn listed_at(entries: Seq<PermissionInfo>, k: Seq<char>) -> bool {
    exists|i: int| 0 <= i < entries.len() && (#[trigger] entries[i]).full_name@ == k
}

/// Where the record with the canonical text `k` stands.
pub open spec fn index_of(entries: Seq<PermissionInfo>, k: Seq<char>) -> int {
    choose|i: int| 0 <= i < entries.len() && (#[trigger] entries[i]).full_name@ == k
}

/// The map from canonical texts to records that a list of records stands for.
pub open spec fn as_map(entries: Seq<PermissionInfo>) -> Map<Seq<char>, PermissionInfoView> {
    Map::new(|k: Seq<char>| listed_at(entries, k), |k: Seq<char>| entries[index_of(entries, k)]@)
}

/// In a sorted list a record is found where it stands.
pub proof fn lemma_lookup(entries: Seq<PermissionInfo>, i: int)
    requires
        sorted(entries),
        0 <= i < entries.len(),
    ensures
        listed_at(entries, entries[i].full_name@),
        index_of(entries, entries[i].full_name@) == i,
        as_map(entries)[entries[i].full_name@] == entries[i]@,
{
    let k = entries[i].full_name@;
    let j = index_of(entries, k);
    lemma_precedes_irreflexive(k);
    if j < i {
        assert(precedes(entries[j].full_name@, entries[i].full_name@));
    } else if i < j {
        assert(precedes(entries[i].full_name@, entries[j].full_name@));
    }
}

/// The registered permissions.
pub struct PermissionRegistry {
    entries: Vec<PermissionInfo>,
}

impl View for PermissionRegistry {
    type V = Map<Seq<char>, PermissionInfoView>;

    closed spec fn view(&self) -> Map<Seq<char>, PermissionInfoView> {
        as_map(self.entries@)
    }
}

/// The registry after the permission values `perms` were registered in
/// `m`, one after the other.
pub open spec fn recorded<P: Permission>(
    m: Map<Seq<char>, PermissionInfoView>,
    perms: Seq<P>,
) -> Map<Seq<char>, PermissionInfoView>
    decreases perms.len(),
{
    if perms.len() == 0 {
        m
    } else {
        recorded(m, perms.drop_last()).insert(
            permission_text(perms.last()),
            info_of(perms.last()),
        )
    }
}

/// One of the permission values `perms` has the canonical text `k`.
pub open spec fn has_text<P: Permission>(perms: Seq<P>, k: Seq<char>) -> bool {
    exists|i: int| 0 <= i < perms.len() && permission_text(#[trigger] perms[i]) == k
}

/// What registering does: the canonical texts of the values join the keys;
/// under each of them stands the record of a value with that text; and the
/// records under other keys stay as they were.
pub proof fn lemma_recorded<P: Permission>(m: Map<Seq<char>, PermissionInfoView>, perms: Seq<P>)
    ensures
        forall|k: Seq<char>| #[trigger]
            recorded(m, perms).contains_key(k) <==> (m.contains_key(k) || has_text(perms, k)),
        forall|k: Seq<char>|
            #[trigger] has_text(perms, k) ==> exists|j: int|
                0 <= j < perms.len() && permission_text(#[trigger] perms[j]) == k && recorded(
                    m,
                    perms,
                )[k] == info_of(perms[j]),
        forall|k: Seq<char>|
            m.contains_key(k) && !#[trigger] has_text(perms, k) ==> recorded(m, perms)[k] == m[k],
    decreases perms.len(),
{
    if perms.len() == 0 {
        assert forall|k: Seq<char>| !#[trigger] has_text(perms, k) by {
            if has_text(perms, k) {
                let i = choose|i: int|
                    0 <= i < perms.len() && permission_text(#[trigger] perms[i]) == k;
            }
        }
    } else {
        let front = perms.drop_last();
        let last = perms.last();
        let n = perms.len() - 1;
        let t = permission_text(last);
        let before = recorded(m, front);
        let after = recorded(m, perms);
        lemma_recorded(m, front);
        assert(after == before.insert(t, info_of(last)));
        assert forall|k: Seq<char>| #[trigger]
            has_text(perms, k) == (has_text(front, k) || t == k) by {
            if has_text(perms, k) {
                let i = choose|i: int|
                    0 <= i < perms.len() && permission_text(#[trigger] perms[i]) == k;
                if i < n {
                    assert(permission_text(front[i]) == k);
                }
            }
            if has_text(front, k) {
                let i = choose|i: int|
                    0 <= i < front.len() && permission_text(#[trigger] front[i]) == k;
                assert(permission_text(perms[i]) == k);
            }
            if t == k {
                assert(permission_text(perms[n]) == k);
            }
        }
        assert forall|k: Seq<char>| #[trigger]
            after.contains_key(k) <==> (m.contains_key(k) || has_text(perms, k)) by {
            assert(before.contains_key(k) <==> (m.contains_key(k) || has_text(front, k)));
        }
        assert forall|k: Seq<char>| #[trigger] has_text(perms, k) implies exists|j: int|
            0 <= j < perms.len() && permission_text(#[trigger] perms[j]) == k && after[k]
                == info_of(perms[j]) by {
            if t == k {
                assert(permission_text(perms[n]) == k && after[k] == info_of(perms[n]));
            } else {
                assert(has_text(front, k));
                let j = choose|j: int|
                    0 <= j < front.len() && permission_text(#[trigger] front[j]) == k
                        && before[k] == info_of(front[j]);
                assert(permission_text(perms[j]) == k && after[k] == info_of(perms[j]));
            }
        }
        assert forall|k: Seq<char>| m.contains_key(k) && !#[trigger] has_text(perms, k) implies after[k]
            == m[k] by {
            assert(!has_text(front, k));
        }
    }
}

/// The values of a list of records.
pub open spec fn record_views(records: Seq<&PermissionInfo>) -> Seq<PermissionInfoView> {
    records.map_values(|p: &PermissionInfo| p@)
}

/// A listing of a registry: its records, each once, in the strict order of
/// their canonical texts.
pub open spec fn lists(
    listing: Seq<PermissionInfoView>,
    m: Map<Seq<char>, PermissionInfoView>,
) -> bool {
    &&& forall|i: int, j: int|
        0 <= i < j < listing.len() ==> precedes(
            (#[trigger] listing[i]).full_name,
            (#[trigger] listing[j]).full_name,
        )
    &&& forall|i: int|
        0 <= i < listing.len() ==> m.contains_key((#[trigger] listing[i]).full_name)
            && m[listing[i].full_name] == listing[i]
    &&& forall|k: Seq<char>| #[trigger]
        m.contains_key(k) ==> exists|i: int|
            0 <= i < listing.len() && (#[trigger] listing[i]).full_name == k
}

impl PermissionRegistry {
    /// The records are sorted, so that no canonical text occurs twice.
    pub closed spec fn wf(&self) -> bool {
        sorted(self.entries@)
    }

    /// In a well-formed registry every record is stored under its own
    /// canonical text.
    pub proof fn lemma_keyed_by_text(&self)
        requires
            self.wf(),
        ensures
            forall|k: Seq<char>| #[trigger] self@.contains_key(k) ==> self@[k].full_name == k,
    {
    }

    /// The registry without records.
    pub fn new() -> (r: PermissionRegistry)
        ensures
            r.wf(),
            r@ == Map::<Seq<char>, PermissionInfoView>::empty(),
    {
        PermissionRegistry { entries: Vec::new() }
    }

    /// Stores `info` under its canonical text, in place of any record that
    /// had it.
    pub fn insert(&mut self, info: PermissionInfo)
        requires
            old(self).wf(),
        ensures
            final(self).wf(),
            final(self)@ == old(self)@.insert(info@.full_name, info@),
    {
        let ghost before = self.entries@;
        let ghost k = info@.full_name;
        let key = to_chars(info.full_name.as_str());
        let n = self.entries.len();
        let mut i: usize = 0;
        let mut found: bool = false;
        let mut searching: bool = true;
        while searching && i < n
            invariant
                i <= n == before.len(),
                self.entries@ == before,
                key@ == k,
                forall|j: int| 0 <= j < i ==> precedes((#[trigger] before[j]).full_name@, k),
                !searching && !found ==> i < n && precedes(k, before[i as int].full_name@),
                !searching && found ==> i < n && before[i as int].full_name@ == k,
                searching ==> !found,
            decreases n - i + if searching { 1int } else { 0int },
        {
            let name = to_chars(self.entries[i].full_name.as_str());
            match compare_texts(&name, &key) {
                Order::Before => {
                    i = i + 1;
                },
                Order::Same => {
                    found = true;
                    searching = false;
                },
                Order::After => {
                    searching = false;
                },
            }
        }
        if found {
            self.entries[i] = info;
            proof {
                let after = self.entries@;
                assert forall|x: Seq<char>| #[trigger]
                    as_map(after).contains_key(x) == as_map(before).insert(
                        k,
                        info@,
                    ).contains_key(x) by {
                    if listed_at(before, x) {
                        let j = choose|j: int|
                            0 <= j < before.len() && (#[trigger] before[j]).full_name@ == x;
                        assert(after[j].full_name@ == x);
                    }
                }
                assert forall|x: Seq<char>| as_map(after).contains_key(x) implies as_map(
                    after,
                )[x] == as_map(before).insert(k, info@)[x] by {
                    let j = index_of(after, x);
                    lemma_lookup(before, i as int);
                    if j != i {
                        lemma_lookup(before, j);
                    }
                }
            }
        } else {
            self.entries.insert(i, info);
            proof {
                let after = self.entries@;
                assert forall|j: int| i <= j < n implies precedes(
                    k,
                    (#[trigger] before[j]).full_name@,
                ) by {
                    if i < n && !searching {
                        if j > i {
                            lemma_precedes_transitive(
                                k,
                                before[i as int].full_name@,
                                before[j].full_name@,
                            );
                        }
                    }
                }
                assert forall|x: Seq<char>| #[trigger]
                    as_map(after).contains_key(x) == as_map(before).insert(
                        k,
                        info@,
                    ).contains_key(x) by {
                    if listed_at(before, x) {
                        let j = choose|j: int|
                            0 <= j < before.len() && (#[trigger] before[j]).full_name@ == x;
                        if j < i {
                            assert(after[j].full_name@ == x);
                        } else {
                            assert(after[j + 1].full_name@ == x);
                        }
                    }
                    if x == k {
                        assert(after[i as int].full_name@ == x);
                    }
                }
                assert forall|x: Seq<char>| as_map(after).contains_key(x) implies as_map(
                    after,
                )[x] == as_map(before).insert(k, info@)[x] by {
                    let j = index_of(after, x);
                    lemma_lookup(after, i as int);
                    if j < i {
                        lemma_lookup(before, j);
                    } else if j > i {
                        lemma_lookup(before, j - 1);
                    }
                }
            }
        }
    }

    /// The record stored under the canonical text `perm`, if there is one,
    /// found by halving the sorted list.
    pub fn get(&self, perm: &str) -> (r: Option<&PermissionInfo>)
        requires
            self.wf(),
        ensures
            match r {
                Some(info) => self@.contains_key(perm@) && info@ == self@[perm@],
                None => !self@.contains_key(perm@),
            },
    {
        let key = to_chars(perm);
        let mut low: usize = 0;
        let mut high: usize = self.entries.len();
        while low < high
            invariant
                low <= high <= self.entries@.len(),
                key@ == perm@,
                self.wf(),
                forall|j: int|
                    0 <= j < low ==> precedes((#[trigger] self.entries@[j]).full_name@, perm@),
                forall|j: int|
                    high <= j < self.entries@.len() ==> precedes(
                        perm@,
                        (#[trigger] self.entries@[j]).full_name@,
                    ),
            decreases high - low,
        {
            let middle = low + (high - low) / 2;
            let name = to_chars(self.entries[middle].full_name.as_str());
            match compare_texts(&name, &key) {
                Order::Same => {
                    proof {
                        lemma_lookup(self.entries@, middle as int);
                    }
                    return Some(&self.entries[middle]);
                },
                Order::Before => {
                    proof {
                        assert forall|j: int| 0 <= j < middle + 1 implies precedes(
                            (#[trigger] self.entries@[j]).full_name@,
                            perm@,
                        ) by {
                            if j < middle {
                                assert(precedes(
                                    self.entries@[j].full_name@,
                                    self.entries@[middle as int].full_name@,
                                ));
                                lemma_precedes_transitive(
                                    self.entries@[j].full_name@,
                                    self.entries@[middle as int].full_name@,
                                    perm@,
                                );
                            }
                        }
                    }
                    low = middle + 1;
                },
                Order::After => {
                    proof {
                        assert forall|j: int| middle <= j < self.entries@.len() implies precedes(
                            perm@,
                            (#[trigger] self.entries@[j]).full_name@,
                        ) by {
                            if j > middle {
                                assert(precedes(
                                    self.entries@[middle as int].full_name@,
                                    self.entries@[j].full_name@,
                                ));
                                lemma_precedes_transitive(
                                    perm@,
                                    self.entries@[middle as int].full_name@,
                                    self.entries@[j].full_name@,
                                );
                            }
                        }
                    }
                    high = middle;
                },
            }
        }
        proof {
            lemma_precedes_irreflexive(perm@);
        }
        None
    }

    /// Every record, in the strict order of the canonical texts.
    pub fn list(&self) -> (r: Vec<&PermissionInfo>)
        requires
            self.wf(),
        ensures
            lists(record_views(r@), self@),
    {
        let mut out: Vec<&PermissionInfo> = Vec::new();
        let n = self.entries.len();
        let mut i: usize = 0;
        while i < n
            invariant
                i <= n == self.entries@.len(),
                out@.len() == i,
                forall|j: int| 0 <= j < i ==> *(#[trigger] out@[j]) == self.entries@[j],
            decreases n - i,
        {
            out.push(&self.entries[i]);
            i = i + 1;
        }
        proof {
            let listing = record_views(out@);
            assert forall|j: int| 0 <= j < listing.len() implies self@.contains_key(
                (#[trigger] listing[j]).full_name,
            ) && self@[listing[j].full_name] == listing[j] by {
                lemma_lookup(self.entries@, j);
            }
            assert forall|k: Seq<char>| #[trigger] self@.contains_key(k) implies exists|j: int|
                0 <= j < listing.len() && (#[trigger] listing[j]).full_name == k by {
                let j = index_of(self.entries@, k);
                assert(listing[j].full_name == k);
            }
        }
        out
    }

    /// Registers the permission values `perms`, one after the other.
    pub fn record_all<P: Permission>(&mut self, perms: &Vec<P>)
        requires
            old(self).wf(),
        ensures
            final(self).wf(),
            final(self)@ == recorded(old(self)@, perms@),
    {
        let n = perms.len();
        let mut i: usize = 0;
        while i < n
            invariant
                i <= n == perms@.len(),
                self.wf(),
                self@ == recorded(old(self)@, perms@.take(i as int)),
            decreases n - i,
        {
            proof {
                assert(perms@.take(i + 1).drop_last() =~= perms@.take(i as int));
            }
            self.insert(PermissionInfo::of(&perms[i]));
            i = i + 1;
        }
        proof {
            assert(perms@.take(n as int) =~= perms@);
        }
    }
}

impl Clone for PermissionRegistry {
    /// A registry with the same records.
    fn clone(&self) -> (r: Self)
        ensures
            self.wf() ==> r.wf() && r@ == self@,
    {
        let mut out: Vec<PermissionInfo> = Vec::new();
        let n = self.entries.len();
        let mut i: usize = 0;
        while i < n
            invariant
                i <= n == self.entries@.len(),
                out@.len() == i,
                forall|j: int| 0 <= j < i ==> (#[trigger] out@[j])@ == self.entries@[j]@,
            decreases n - i,
        {
            out.push(self.entries[i].clone());
            i = i + 1;
        }
        let r = PermissionRegistry { entries: out };
        proof {
            if self.wf() {
                lemma_same_records(self.entries@, r.entries@);
            }
        }
        r
    }
}

/// A list whose records have the values of a sorted list is sorted and
/// stands for the same map.
proof fn lemma_same_records(a: Seq<PermissionInfo>, b: Seq<PermissionInfo>)
    requires
        a.len() == b.len(),
        forall|j: int| 0 <= j < a.len() ==> (#[trigger] b[j])@ == a[j]@,
        sorted(a),
    ensures
        as_map(a) == as_map(b),
        sorted(b),
{
    assert forall|k: Seq<char>| listed_at(a, k) == listed_at(b, k) by {
        if listed_at(a, k) {
            let j = choose|j: int| 0 <= j < a.len() && (#[trigger] a[j]).full_name@ == k;
            assert(b[j].full_name@ == k);
        }
    }
    assert forall|k: Seq<char>| listed_at(a, k) implies as_map(a)[k] == as_map(b)[k] by {
        let j = index_of(a, k);
        lemma_lookup(b, j);
    }
}

} // verus!
