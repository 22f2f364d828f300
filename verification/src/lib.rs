//! Role-based access control: roles carry permission patterns, patterns are
//! compiled into a normal form, and a service decides whether a subject's
//! roles grant a `Domain::Object::Action` permission.
//!
//! A role is a name and a list of patterns: `*`, `Domain::*`,
//! `Domain::Object::*`, `Domain::Object::{A,B}` or `Domain::Object::Action`.
//! `CompiledPermissions::compile` brings the list into its normal form, which
//! `normal_form::compile_spec` defines and `laws` characterizes. A service is
//! made by `RbacService::builder()`, answers `has_permission` on the role map
//! it holds at that moment, and gets a new role map as a whole from an
//! updater. `decision::decide` is the decision on one role map, and
//! `pattern::matches_pattern` says what a single pattern grants.

pub mod compiled;
pub mod decision;
pub mod laws;
pub mod normal_form;
mod pair_set;
pub mod pattern;
pub mod permission;
pub mod registry;
pub mod role;
pub mod role_map;
pub mod service;
mod snapshot;
mod string_set;
pub mod text;

pub use compiled::CompiledPermissions;
pub use decision::decide;
pub use pattern::matches_pattern;
pub use permission::{parse_permission, Permission, PermissionInfo, RbacError, RbacSubject};
pub use registry::PermissionRegistry;
pub use role::{Role, RoleS};
pub use role_map::RoleMap;
pub use service::{RbacService, RbacServiceBuilder, RbacServiceUpdater};
