//! Roles: a name, the patterns as they were given, and their compiled form.

use vstd::prelude::*;
use vstd::string::*;
use crate::compiled::CompiledPermissions;
use crate::normal_form::compile_spec;

verus! {

/// A copy of a list of strings.
pub fn copy_strings(v: &Vec<String>) -> (r: Vec<String>)
    ensures
        r@ == v@,
        r.deep_view() == v.deep_view(),
{
    v.clone()
}

/// A role as it is stored and exchanged: its name and its patterns.
#[derive(Debug)]
pub struct RoleS {
    pub name: String,
    pub permissions: Vec<String>,
}

/// The mathematical value of a role: its name and its patterns, in order.
pub struct RoleView {
    pub name: Seq<char>,
    pub permissions: Seq<Seq<char>>,
}

impl View for RoleS {
    type V = RoleView;

    open spec fn view(&self) -> RoleView {
        RoleView { name: self.name@, permissions: self.permissions.deep_view() }
    }
}

impl Clone for RoleS {
    fn clone(&self) -> (r: Self)
        ensures
            r@ == self@,
    {
        RoleS { name: self.name.clone(), permissions: copy_strings(&self.permissions) }
    }
}

/// A named bundle of patterns with their compiled form. The compiled form
/// is computed when the role is made and always belongs to the patterns.
pub struct Role {
    name: String,
    permissions: Vec<String>,
    compiled_permissions: CompiledPermissions,
}

impl View for Role {
    type V = RoleView;

    closed spec fn view(&self) -> RoleView {
        RoleView { name: self.name@, permissions: self.permissions.deep_view() }
    }
}

impl Role {
    #[verifier::type_invariant]
    spec fn inv(&self) -> bool {
        self.compiled_permissions@ == compile_spec(self.permissions.deep_view())
    }

    /// A role with the given name and patterns; the patterns are compiled.
    pub fn new(name: &str, permissions: Vec<String>) -> (r: Role)
        ensures
            r@ == (RoleView { name: name@, permissions: permissions.deep_view() }),
    {
        Role {
            name: String::from_str(name),
            compiled_permissions: CompiledPermissions::compile(&permissions),
            permissions,
        }
    }

    /// The name of the role.
    pub fn name(&self) -> (r: &str)
        ensures
            r@ == self@.name,
    {
        self.name.as_str()
    }

    /// The patterns of the role, as they were given.
    pub fn permissions(&self) -> (r: &Vec<String>)
        ensures
            r.deep_view() == self@.permissions,
    {
        &self.permissions
    }

    /// The compiled form of the patterns.
    pub fn compiled_permissions(&self) -> (r: &CompiledPermissions)
        ensures
            r@ == compile_spec(self@.permissions),
    {
        proof {
            use_type_invariant(self);
        }
        &self.compiled_permissions
    }
}

impl Clone for Role {
    fn clone(&self) -> (r: Self)
        ensures
            r@ == self@,
    {
        proof {
            use_type_invariant(self);
        }
        Role {
            name: self.name.clone(),
            permissions: copy_strings(&self.permissions),
            compiled_permissions: self.compiled_permissions.clone(),
        }
    }
}

impl From<Role> for RoleS {
    /// The name and the patterns of a role.
    fn from(value: Role) -> (r: RoleS)
        ensures
            r@ == value@,
    {
        RoleS { name: value.name, permissions: value.permissions }
    }
}

impl vstd::std_specs::convert::FromSpecImpl<Role> for RoleS {
    open spec fn obeys_from_spec() -> bool {
        false
    }

    open spec fn from_spec(v: Role) -> RoleS {
        arbitrary()
    }
}

impl From<RoleS> for Role {
    /// The role with that name and those patterns, compiled.
    fn from(value: RoleS) -> (r: Role)
        ensures
            r@ == value@,
    {
        Role::new(value.name.as_str(), value.permissions)
    }
}

impl vstd::std_specs::convert::FromSpecImpl<RoleS> for Role {
    open spec fn obeys_from_spec() -> bool {
        false
    }

    open spec fn from_spec(v: RoleS) -> Role {
        arbitrary()
    }
}

} // verus!
