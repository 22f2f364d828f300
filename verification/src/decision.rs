//! The authorization decision on one role map: which roles are consulted,
//! and when one of them grants the permission.

use vstd::prelude::*;
use vstd::string::*;
use crate::normal_form::compile_spec;
use crate::permission::RbacError;
use crate::role::RoleView;
use crate::role_map::RoleMap;

verus! {

/// The role names that a check consults: those that the subject holds, or
/// the fallback names when the subject holds none.
pub open spec fn effective_roles(held: Seq<Seq<char>>, fallback: Seq<Seq<char>>) -> Seq<
    Seq<char>,
> {
    if held.len() == 0 {
        fallback
    } else {
        held
    }
}

/// Whether the patterns of `role` grant the permission.
pub open spec fn role_grants(
    role: RoleView,
    perm: Seq<char>,
    domain: Seq<char>,
    object: Seq<char>,
) -> bool {
    compile_spec(role.permissions).matches(perm, domain, object)
}

/// Whether one of the roles named by `names` is in `roles` and grants the
/// permission. A name that `roles` does not hold counts for nothing.
pub open spec fn granted(
    roles: Map<Seq<char>, RoleView>,
    names: Seq<Seq<char>>,
    perm: Seq<char>,
    domain: Seq<char>,
    object: Seq<char>,
) -> bool {
    exists|i: int|
        0 <= i < names.len() && roles.contains_key(#[trigger] names[i]) && role_grants(
            roles[names[i]],
            perm,
            domain,
            object,
        )
}

/// Decides a check on the role map `roles`: success when one of the roles
/// consulted grants the permission, and else the error that names the
/// permission. The roles are consulted in order, and the first that grants
/// ends the check.
pub fn decide(
    roles: &RoleMap,
    fallback: &Vec<String>,
    held: &Vec<String>,
    perm_str: &str,
    domain: &str,
    object_type: &str,
) -> (r: Result<(), RbacError>)
    ensures
        r is Ok <==> granted(
            roles@,
            effective_roles(held.deep_view(), fallback.deep_view()),
            perm_str@,
            domain@,
            object_type@,
        ),
        r matches Err(e) ==> e.permission_view() == perm_str@,
{
    let names = if held.len() == 0 {
        fallback
    } else {
        held
    };
    let ghost consulted = effective_roles(held.deep_view(), fallback.deep_view());
    let n = names.len();
    let mut i: usize = 0;
    while i < n
        invariant
            i <= n == names@.len(),
            names.deep_view() == consulted,
            consulted == effective_roles(held.deep_view(), fallback.deep_view()),
            forall|j: int|
                0 <= j < i ==> !(roles@.contains_key(#[trigger] consulted[j]) && role_grants(
                    roles@[consulted[j]],
                    perm_str@,
                    domain@,
                    object_type@,
                )),
        decreases n - i,
    {
        match roles.get(names[i].as_str()) {
            Some(role) => {
                if role.compiled_permissions().matches(perm_str, domain, object_type) {
                    proof {
                        assert(consulted.len() == names@.len());
                        assert(roles@.contains_key(consulted[i as int]) && role_grants(
                            roles@[consulted[i as int]],
                            perm_str@,
                            domain@,
                            object_type@,
                        ));
                    }
                    return Ok(());
                }
            },
            None => {},
        }
        i = i + 1;
    }
    Err(RbacError::PermissionDenied(String::from_str(perm_str)))
}

} // verus!
