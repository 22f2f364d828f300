//! The live service, the builder that makes it, and the updater that
//! replaces its roles.

use std::sync::Arc;
use vstd::prelude::*;
use vstd::string::*;
use crate::decision::{decide, effective_roles, granted};
use crate::permission::{
    info_of, permission_text, Permission, PermissionInfo, PermissionInfoView, RbacError, RbacSubject,
};
use crate::registry::{
    has_text, lemma_recorded, lists, record_views, recorded, PermissionRegistry,
};
use crate::role::{copy_strings, Role, RoleView};
use crate::role_map::RoleMap;
use crate::snapshot::{cell_load, cell_new, cell_swap, RoleCell, RoleSnapshot};

verus! {

/// The values of a list of roles.
pub open spec fn role_views(roles: Seq<Role>) -> Seq<RoleView> {
    roles.map_values(|r: Role| r@)
}

/// The role map after the roles `roles` were added to `m`, one after the
/// other: a later role replaces an earlier one of its name.
pub open spec fn loaded(m: Map<Seq<char>, RoleView>, roles: Seq<RoleView>) -> Map<
    Seq<char>,
    RoleView,
>
    decreases roles.len(),
{
    if roles.len() == 0 {
        m
    } else {
        loaded(m, roles.drop_last()).insert(roles.last().name, roles.last())
    }
}

/// Among roles added one after the other the last of a name wins: the role
/// at position `i` is found under its name when no later role has that name.
pub proof fn lemma_last_write_wins(m: Map<Seq<char>, RoleView>, roles: Seq<RoleView>, i: int)
    requires
        0 <= i < roles.len(),
        forall|j: int| i < j < roles.len() ==> (#[trigger] roles[j]).name != roles[i].name,
    ensures
        loaded(m, roles).contains_key(roles[i].name),
        loaded(m, roles)[roles[i].name] == roles[i],
    decreases roles.len(),
{
    if i < roles.len() - 1 {
        let front = roles.drop_last();
        assert(front[i] == roles[i]);
        assert forall|j: int| i < j < front.len() implies (#[trigger] front[j]).name
            != front[i].name by {
            assert(front[j] == roles[j]);
        }
        lemma_last_write_wins(m, front, i);
        assert(roles.last() == roles[roles.len() - 1]);
    }
}

/// The fallback role names of a service for which none were set: the one
/// name `Default`.
pub open spec fn default_fallback() -> Seq<Seq<char>> {
    seq!["Default"@]
}

/// The fallback role names of a service for which none were set.
fn default_names() -> (r: Vec<String>)
    ensures
        r.deep_view() == default_fallback(),
{
    let mut names: Vec<String> = Vec::new();
    names.push(String::from_str("Default"));
    assert(names.deep_view() =~= default_fallback());
    names
}

/// Adds the roles of `roles` to `map`, one after the other.
fn load_into(map: &mut RoleMap, roles: Vec<Role>)
    requires
        old(map).wf(),
    ensures
        final(map).wf(),
        final(map)@ == loaded(old(map)@, role_views(roles@)),
{
    let ghost all = role_views(roles@);
    for role in it: roles
        invariant
            it.seq() == roles@,
            all == role_views(roles@),
            map.wf(),
            map@ == loaded(old(map)@, all.take(it.index() as int)),
    {
        proof {
            let i = it.index() as int;
            assert(all.take(i + 1).drop_last() =~= all.take(i));
        }
        map.insert(role);
    }
    proof {
        assert(all.take(roles@.len() as int) =~= all);
    }
}

/// Collects the roles, the fallback role names and the registered
/// permissions of a service that is yet to be built.
pub struct RbacServiceBuilder {
    roles: RoleMap,
    fallback_roles: Option<Vec<String>>,
    all_permissions: PermissionRegistry,
}

impl RbacServiceBuilder {
    /// The parts of the builder are well formed.
    pub closed spec fn wf(&self) -> bool {
        self.roles.wf() && self.all_permissions.wf()
    }

    /// The roles collected so far, by name.
    pub closed spec fn roles_view(&self) -> Map<Seq<char>, RoleView> {
        self.roles@
    }

    /// The fallback role names, if they were set.
    pub closed spec fn fallback_view(&self) -> Option<Seq<Seq<char>>> {
        match self.fallback_roles {
            Some(names) => Some(names.deep_view()),
            None => None,
        }
    }

    /// The permissions registered so far, by canonical text.
    pub closed spec fn registry_view(&self) -> Map<Seq<char>, PermissionInfoView> {
        self.all_permissions@
    }

    /// Adds a role under its name, in place of any role that had it.
    pub fn add_role(&mut self, role: Role) -> (r: &mut Self)
        requires
            old(self).wf(),
        ensures
            r.wf(),
            r.roles_view() == old(self).roles_view().insert(role@.name, role@),
            r.fallback_view() == old(self).fallback_view(),
            r.registry_view() == old(self).registry_view(),
            *final(self) == *final(r),
    {
        self.roles.insert(role);
        self
    }

    /// Adds the roles of a list, one after the other.
    pub fn load_roles(&mut self, roles: Vec<Role>) -> (r: &mut Self)
        requires
            old(self).wf(),
        ensures
            r.wf(),
            r.roles_view() == loaded(old(self).roles_view(), role_views(roles@)),
            r.fallback_view() == old(self).fallback_view(),
            r.registry_view() == old(self).registry_view(),
            *final(self) == *final(r),
    {
        load_into(&mut self.roles, roles);
        self
    }

    /// Sets the role names that stand in for a subject without roles.
    pub fn set_fallback_roles(&mut self, fallback_roles: Vec<String>) -> (r: &mut Self)
        ensures
            r.wf() == old(self).wf(),
            r.roles_view() == old(self).roles_view(),
            r.fallback_view() == Some(fallback_roles.deep_view()),
            r.registry_view() == old(self).registry_view(),
            *final(self) == *final(r),
    {
        self.fallback_roles = Some(fallback_roles);
        self
    }

    /// Registers the permission values `perms`, one after the other.
    pub fn register_list<P: Permission>(&mut self, perms: &Vec<P>)
        requires
            old(self).wf(),
        ensures
            final(self).wf(),
            final(self).roles_view() == old(self).roles_view(),
            final(self).fallback_view() == old(self).fallback_view(),
            final(self).registry_view() == recorded(old(self).registry_view(), perms@),
    {
        self.all_permissions.record_all(perms);
    }

    /// Registers every value of the permission type `P`, each once, in the
    /// order in which the type lists them. Afterwards the canonical text of
    /// every value of `P` is a key, under it stands the record of a value
    /// with that text, and the records under other keys are as before.
    pub fn register_permissions<P: Permission>(&mut self)
        requires
            old(self).wf(),
        ensures
            final(self).wf(),
            final(self).roles_view() == old(self).roles_view(),
            final(self).fallback_view() == old(self).fallback_view(),
            exists|perms: Seq<P>|
                perms.no_duplicates() && (forall|p: P| #[trigger] perms.contains(p))
                    && final(self).registry_view() == #[trigger] recorded(
                    old(self).registry_view(),
                    perms,
                ),
            forall|k: Seq<char>| #[trigger]
                final(self).registry_view().contains_key(k) <==> (
                old(self).registry_view().contains_key(k) || exists|p: P|
                    #[trigger] permission_text(p) == k),
            forall|p: P|
                exists|q: P|
                    permission_text(q) == #[trigger] permission_text(p)
                        && final(self).registry_view()[permission_text(p)] == #[trigger] info_of(
                        q,
                    ),
            forall|k: Seq<char>|
                #[trigger] old(self).registry_view().contains_key(k) && !(exists|p: P|
                    #[trigger] permission_text(p) == k) ==> final(self).registry_view()[k] 
                    == old(self).registry_view()[k],
    {
        let perms = P::all_permissions();
        self.register_list(&perms);
        proof {
            let before = old(self).registry_view();
            lemma_recorded(before, perms@);
            assert forall|k: Seq<char>| #[trigger]
                has_text(perms@, k) == (exists|p: P| #[trigger] permission_text(p) == k) by {
                if has_text(perms@, k) {
                    let i = choose|i: int|
                        0 <= i < perms@.len() && permission_text(#[trigger] perms@[i]) == k;
                    assert(permission_text(perms@[i]) == k);
                }
                if exists|p: P| #[trigger] permission_text(p) == k {
                    let p = choose|p: P| #[trigger] permission_text(p) == k;
                    assert(perms@.contains(p));
                    let i = choose|i: int| 0 <= i < perms@.len() && perms@[i] == p;
                    assert(permission_text(perms@[i]) == k);
                }
            }
            let after = self.registry_view();
            assert forall|p: P|
                exists|q: P|
                    permission_text(q) == #[trigger] permission_text(p) && after[permission_text(
                        p,
                    )] == #[trigger] info_of(q) by {
                let k = permission_text(p);
                assert(has_text(perms@, k));
                let j = choose|j: int|
                    0 <= j < perms@.len() && permission_text(#[trigger] perms@[j]) == k
                        && recorded(before, perms@)[k] == info_of(perms@[j]);
                assert(permission_text(perms@[j]) == k && after[k] == info_of(perms@[j]));
            }
            assert forall|k: Seq<char>|
                #[trigger] before.contains_key(k) && !(exists|p: P|
                    #[trigger] permission_text(p) == k) implies after[k] == before[k] by {
                assert(!has_text(perms@, k));
            }
        }
    }

    /// Builds the live service: it starts with a copy of the roles
    /// collected, the fallback role names that were set, or `Default` alone
    /// when none were, and a copy of the registered permissions.
    pub fn build(&self) -> (r: RbacService)
        requires
            self.wf(),
        ensures
            r.fallback_view() == (match self.fallback_view() {
                Some(names) => names,
                None => default_fallback(),
            }),
            r.registry_view() == self.registry_view(),
    {
        let fallback = match &self.fallback_roles {
            Some(names) => copy_strings(names),
            None => default_names(),
        };
        RbacService {
            roles: cell_new(Arc::new(RoleSnapshot::new(self.roles.clone()))),
            fallback_roles: fallback,
            all_permissions: self.all_permissions.clone(),
        }
    }
}

/// Collects the roles that are to replace those of a live service.
pub struct RbacServiceUpdater {
    roles: RoleMap,
    fallback_roles: Option<Vec<String>>,
}

impl RbacServiceUpdater {
    /// The role map of the updater is well formed.
    pub closed spec fn wf(&self) -> bool {
        self.roles.wf()
    }

    /// The roles collected so far, by name.
    pub closed spec fn roles_view(&self) -> Map<Seq<char>, RoleView> {
        self.roles@
    }

    /// The fallback role names, if they were set.
    pub closed spec fn fallback_view(&self) -> Option<Seq<Seq<char>>> {
        match self.fallback_roles {
            Some(names) => Some(names.deep_view()),
            None => None,
        }
    }

    /// An updater that starts with a copy of the roles of `roles` and has
    /// no fallback role names set.
    pub fn copy_of(roles: &RoleMap) -> (r: RbacServiceUpdater)
        requires
            roles.wf(),
        ensures
            r.wf(),
            r.roles_view() == roles@,
            r.fallback_view() is None,
    {
        RbacServiceUpdater { roles: roles.clone(), fallback_roles: None }
    }

    /// Adds a role under its name, in place of any role that had it.
    pub fn add_role(&mut self, role: Role) -> (r: &mut Self)
        requires
            old(self).wf(),
        ensures
            r.wf(),
            r.roles_view() == old(self).roles_view().insert(role@.name, role@),
            r.fallback_view() == old(self).fallback_view(),
            *final(self) == *final(r),
    {
        self.roles.insert(role);
        self
    }

    /// Takes out the role of that name, if there is one.
    pub fn remove_role(&mut self, role_name: &str) -> (r: &mut Self)
        requires
            old(self).wf(),
        ensures
            r.wf(),
            r.roles_view() == old(self).roles_view().remove(role_name@),
            r.fallback_view() == old(self).fallback_view(),
            *final(self) == *final(r),
    {
        self.roles.remove(role_name);
        self
    }

    /// Adds the roles of a list, one after the other.
    pub fn load_roles(&mut self, roles: Vec<Role>) -> (r: &mut Self)
        requires
            old(self).wf(),
        ensures
            r.wf(),
            r.roles_view() == loaded(old(self).roles_view(), role_views(roles@)),
            r.fallback_view() == old(self).fallback_view(),
            *final(self) == *final(r),
    {
        load_into(&mut self.roles, roles);
        self
    }

    /// Records fallback role names in the updater. An update replaces the
    /// role map of a service and nothing else, so these names stay with the
    /// updater.
    pub fn set_fallback_roles(&mut self, fallback_roles: Vec<String>) -> (r: &Self)
        ensures
            final(self).wf() == old(self).wf(),
            final(self).roles_view() == old(self).roles_view(),
            final(self).fallback_view() == Some(fallback_roles.deep_view()),
            *r == *final(self),
    {
        self.fallback_roles = Some(fallback_roles);
        self
    }

    /// Replaces the role map of `rbac_service` by a copy of the roles
    /// collected, in one atomic step. Checks that run at the same time see
    /// the map from before or the map from after, never a mixture. The
    /// fallback role names and the registry of the service stay as they are.
    pub fn update(&self, rbac_service: &RbacService)
        requires
            self.wf(),
    {
        let next = Arc::new(RoleSnapshot::new(self.roles.clone()));
        let _ = cell_swap(&rbac_service.roles, next);
    }
}

/// The live service: it decides whether a subject has a permission.
pub struct RbacService {
    roles: RoleCell,
    fallback_roles: Vec<String>,
    all_permissions: PermissionRegistry,
}

impl RbacService {
    #[verifier::type_invariant]
    spec fn inv(&self) -> bool {
        self.all_permissions.wf()
    }

    /// The role names that stand in for a subject without roles.
    pub closed spec fn fallback_view(&self) -> Seq<Seq<char>> {
        self.fallback_roles.deep_view()
    }

    /// The registered permissions, by canonical text.
    pub closed spec fn registry_view(&self) -> Map<Seq<char>, PermissionInfoView> {
        self.all_permissions@
    }

    /// A service without roles and without registered permissions, with the
    /// given fallback role names, or `Default` alone when none are given.
    /// It gets its roles from an updater.
    pub fn new(fallback_roles: Option<Vec<String>>) -> (r: RbacService)
        ensures
            r.fallback_view() == (match fallback_roles {
                Some(names) => names.deep_view(),
                None => default_fallback(),
            }),
            r.registry_view() == Map::<Seq<char>, PermissionInfoView>::empty(),
    {
        let fallback = match fallback_roles {
            Some(names) => names,
            None => default_names(),
        };
        RbacService {
            roles: cell_new(Arc::new(RoleSnapshot::new(RoleMap::new()))),
            fallback_roles: fallback,
            all_permissions: PermissionRegistry::new(),
        }
    }

    /// A builder without roles, fallback role names or registered
    /// permissions.
    pub fn builder() -> (r: RbacServiceBuilder)
        ensures
            r.wf(),
            r.roles_view() == Map::<Seq<char>, RoleView>::empty(),
            r.fallback_view() is None,
            r.registry_view() == Map::<Seq<char>, PermissionInfoView>::empty(),
    {
        RbacServiceBuilder {
            roles: RoleMap::new(),
            fallback_roles: None,
            all_permissions: PermissionRegistry::new(),
        }
    }

    /// An updater without roles, for a full replacement.
    pub fn updater_clean(&self) -> (r: RbacServiceUpdater)
        ensures
            r.wf(),
            r.roles_view() == Map::<Seq<char>, RoleView>::empty(),
            r.fallback_view() is None,
    {
        RbacServiceUpdater { roles: RoleMap::new(), fallback_roles: None }
    }

    /// An updater that starts with a copy of the roles that the service
    /// holds at the moment of the call: the result of
    /// `RbacServiceUpdater::copy_of` on that role map. Which role map that
    /// is depends on the updates made so far, so only what holds of every
    /// copy is promised here.
    pub fn updater_copy(&self) -> (r: RbacServiceUpdater)
        ensures
            r.wf(),
            r.fallback_view() is None,
    {
        let current = cell_load(&self.roles);
        RbacServiceUpdater::copy_of(current.roles())
    }

    /// Checks whether `subject` has `permission`. The role map that the
    /// service holds at the start of the call is used for the whole check;
    /// the answer is that of `decide` on it. The error of a refusal names
    /// the permission, and with no role name to consult the check is
    /// refused.
    pub fn has_permission<P: Permission>(&self, subject: &impl RbacSubject, permission: P) -> (r:
        Result<(), RbacError>)
        ensures
            r matches Err(e) ==> e.permission_view() == permission_text(permission),
            exists|roles: Map<Seq<char>, RoleView>|
                r is Ok <==> #[trigger] granted(
                    roles,
                    effective_roles(subject.roles_view(), self.fallback_view()),
                    permission_text(permission),
                    P::domain_view(),
                    permission.object_type_view(),
                ),
            effective_roles(subject.roles_view(), self.fallback_view()).len() == 0 ==> r is Err,
    {
        let perm_str = permission.to_permission_string();
        let domain = P::domain();
        let object_type = permission.object_type();
        let held = subject.get_roles();
        let current = cell_load(&self.roles);
        let roles = current.roles();
        let r = decide(roles, &self.fallback_roles, held, perm_str.as_str(), domain, object_type);
        proof {
            let names = effective_roles(subject.roles_view(), self.fallback_view());
            assert(r is Ok <==> granted(
                roles@,
                names,
                permission_text(permission),
                P::domain_view(),
                permission.object_type_view(),
            ));
        }
        r
    }

    /// Every registered permission, in the order of the canonical texts.
    pub fn get_all_permissions(&self) -> (r: Vec<&PermissionInfo>)
        ensures
            lists(record_views(r@), self.registry_view()),
    {
        proof {
            use_type_invariant(self);
        }
        self.all_permissions.list()
    }

    /// The record of the permission with the canonical text `perm`, if it
    /// was registered.
    pub fn get(&self, perm: &str) -> (r: Option<&PermissionInfo>)
        ensures
            match r {
                Some(info) => self.registry_view().contains_key(perm@) && info@
                    == self.registry_view()[perm@],
                None => !self.registry_view().contains_key(perm@),
            },
    {
        proof {
            use_type_invariant(self);
        }
        self.all_permissions.get(perm)
    }
}

} // verus!
