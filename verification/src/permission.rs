//! Permissions as typed values, the subjects that hold roles, what a registry
//! records of a permission, and the error of a refused check.

use vstd::prelude::*;
use vstd::string::*;
use crate::pattern::canonical;

verus! {

/// The canonical text `Domain::Object::Action` of a permission value.
pub open spec fn permission_text<P: Permission>(p: P) -> Seq<char> {
    canonical(P::domain_view(), p.object_type_view(), p.action_view())
}

/// A closed set of permission values: the actions of one object type of one
/// domain. Each value has a canonical text, and `from_string` reads that
/// text back.
///
/// The `*_view` functions say in specifications what the methods return. A
/// verified implementation defines them and proves the contracts of the
/// methods; an implementation in unverified code leaves them undefined and
/// owes the contracts all the same.
pub trait Permission: Sized + core::fmt::Display + core::fmt::Debug + Clone + PartialEq + Eq + core::hash::Hash {
    /// The name of the domain.
    open spec fn domain_view() -> Seq<char> {
        arbitrary()
    }

    /// The name of the object type.
    open spec fn object_type_view(&self) -> Seq<char> {
        arbitrary()
    }

    /// The name of the action.
    open spec fn action_view(&self) -> Seq<char> {
        arbitrary()
    }

    /// The description of the action.
    open spec fn description_view(&self) -> Seq<char> {
        arbitrary()
    }

    /// The name of the domain, such as `Users`.
    fn domain() -> (r: &'static str)
        ensures
            r@ == Self::domain_view(),
    ;

    /// The name of the object type, such as `User`.
    fn object_type(&self) -> (r: &'static str)
        ensures
            r@ == self.object_type_view(),
    ;

    /// The name of the action, such as `Read`.
    fn action(&self) -> (r: &'static str)
        ensures
            r@ == self.action_view(),
    ;

    /// The canonical text, such as `Users::User::Read`.
    fn to_permission_string(&self) -> (r: String)
        ensures
            r@ == canonical(Self::domain_view(), self.object_type_view(), self.action_view()),
    {
        proof {
            reveal_strlit("::");
        }
        let mut text = String::from_str(Self::domain());
        text.append("::");
        text.append(self.object_type());
        text.append("::");
        text.append(self.action());
        text
    }

    /// The value whose canonical text is `s`, if there is one.
    fn from_string(s: &str) -> (r: Option<Self>)
        ensures
            forall|p: Self|
                r == Some(p) <==> canonical(
                    Self::domain_view(),
                    p.object_type_view(),
                    #[trigger] p.action_view(),
                ) == s@,
    ;

    /// Every value, each once.
    fn all_permissions() -> (r: Vec<Self>)
        ensures
            r@.no_duplicates(),
            forall|p: Self| #[trigger] r@.contains(p),
    ;

    /// A description of the action for people to read.
    fn description(&self) -> (r: &'static str)
        ensures
            r@ == self.description_view(),
    ;
}

/// Reading back the canonical text of a permission value gives that value.
pub proof fn lemma_parse_inverts_text<P: Permission>(p: P, s: &str, parsed: Option<P>)
    requires
        s@ == permission_text(p),
        call_ensures(P::from_string, (s,), parsed),
    ensures
        parsed == Some(p),
{
}

/// Reads a canonical text by trying the values of `P` in the order in which
/// the type lists them: the first value whose canonical text is `s`, or
/// none when no value of the type has that text.
pub fn parse_permission<P: Permission>(s: &str) -> (r: Option<P>)
    ensures
        match r {
            Some(p) => permission_text(p) == s@,
            None => forall|p: P| #[trigger] permission_text(p) != s@,
        },
{
    let wanted = String::from_str(s);
    let all = P::all_permissions();
    for p in it: all
        invariant
            it.seq() == all@,
            wanted@ == s@,
            forall|j: int| 0 <= j < it.index() ==> permission_text(#[trigger] all@[j]) != s@,
    {
        if p.to_permission_string() == wanted {
            return Some(p);
        }
    }
    proof {
        assert forall|p: P| #[trigger] permission_text(p) != s@ by {
            assert(all@.contains(p));
            let j = choose|j: int| 0 <= j < all@.len() && all@[j] == p;
            assert(permission_text(all@[j]) != s@);
        }
    }
    None
}

/// Anything that holds roles and can be asked for a permission. As with
/// `Permission`, `roles_view` says in specifications what `get_roles`
/// returns.
pub trait RbacSubject {
    /// The names of the roles that the subject holds, in order.
    open spec fn roles_view(&self) -> Seq<Seq<char>> {
        arbitrary()
    }

    /// The names of the roles that the subject holds, in order.
    fn get_roles(&self) -> (r: &Vec<String>)
        ensures
            r.deep_view() == self.roles_view(),
    ;

    /// A name for the subject in diagnostics.
    fn name(&self) -> &str;
}

/// Why a check did not succeed.
#[derive(Debug, Clone, PartialEq)]
pub enum RbacError {
    /// No role of the subject grants the permission with this canonical text.
    PermissionDenied(String),
}

impl RbacError {
    /// The canonical text of the permission that was refused.
    pub open spec fn permission_view(&self) -> Seq<char> {
        match self {
            RbacError::PermissionDenied(p) => p@,
        }
    }

    /// The text `Permission denied: ` followed by the permission.
    pub fn message(&self) -> (r: String)
        ensures
            r@ == "Permission denied: "@ + self.permission_view(),
    {
        match self {
            RbacError::PermissionDenied(p) => {
                let mut text = String::from_str("Permission denied: ");
                text.append(p.as_str());
                text
            },
        }
    }
}

/// What a registry records of one permission.
#[derive(Debug)]
pub struct PermissionInfo {
    pub domain: String,
    pub object_type: String,
    pub action: String,
    pub full_name: String,
    pub description: String,
}

/// The mathematical value of a `PermissionInfo`.
pub struct PermissionInfoView {
    pub domain: Seq<char>,
    pub object_type: Seq<char>,
    pub action: Seq<char>,
    pub full_name: Seq<char>,
    pub description: Seq<char>,
}

impl View for PermissionInfo {
    type V = PermissionInfoView;

    open spec fn view(&self) -> PermissionInfoView {
        PermissionInfoView {
            domain: self.domain@,
            object_type: self.object_type@,
            action: self.action@,
            full_name: self.full_name@,
            description: self.description@,
        }
    }
}

/// What a registry records of the permission value `p`.
pub open spec fn info_of<P: Permission>(p: P) -> PermissionInfoView {
    PermissionInfoView {
        domain: P::domain_view(),
        object_type: p.object_type_view(),
        action: p.action_view(),
        full_name: permission_text(p),
        description: p.description_view(),
    }
}

impl Clone for PermissionInfo {
    fn clone(&self) -> (r: Self)
        ensures
            r@ == self@,
    {
        PermissionInfo {
            domain: self.domain.clone(),
            object_type: self.object_type.clone(),
            action: self.action.clone(),
            full_name: self.full_name.clone(),
            description: self.description.clone(),
        }
    }
}

impl PermissionInfo {
    /// The record of the permission value `p`.
    pub fn of<P: Permission>(p: &P) -> (r: PermissionInfo)
        ensures
            r@ == info_of(*p),
    {
        PermissionInfo {
            domain: String::from_str(P::domain()),
            object_type: String::from_str(p.object_type()),
            action: String::from_str(p.action()),
            full_name: p.to_permission_string(),
            description: String::from_str(p.description()),
        }
    }
}

} // verus!
