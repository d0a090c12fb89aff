//! The authorization gate: whether a caller may mutate report status.
//!
//! A caller is an optional authenticated-user record; absence means the
//! request was unauthenticated. Every status-mutating operation asks the
//! same single question: is the caller present and does its permission
//! set contain the moderation-dashboard permission?

use vstd::prelude::*;
use vstd::string::StringExecFns;

verus! {

/// An authenticated user as the authentication collaborator hands it
/// over: the username and the permission set of the user's role.
#[derive(Clone, Debug)]
pub struct FullUser {
    /// The account name; becomes the report's author on submission.
    pub username: String,
    /// The permission strings of the user's role.
    pub permissions: Vec<String>,
}

/// The permission that the moderation dashboard requires.
pub open spec fn spec_staff_permission() -> Seq<char> {
    "StaffDashboard"@
}

/// Whether a permission set contains the moderation-dashboard permission.
pub open spec fn spec_has_staff_permission(perms: Seq<Seq<char>>) -> bool {
    exists|i: int| 0 <= i < perms.len() && perms[i] == spec_staff_permission()
}

/// Whether a caller may mutate report status: present, and privileged.
/// An absent caller and a present but unprivileged one are refused alike.
pub open spec fn spec_is_authorized(caller: Option<FullUser>) -> bool {
    match caller {
        Some(user) => spec_has_staff_permission(user.permissions.deep_view()),
        None => false,
    }
}

fn has_staff_permission(perms: &Vec<String>) -> (r: bool)
    ensures
        r == spec_has_staff_permission(perms.deep_view()),
{
    let needle = String::from_str("StaffDashboard");
    let mut i: usize = 0;
    while i < perms.len()
        invariant
            0 <= i <= perms.len(),
            needle@ == spec_staff_permission(),
            forall|j: int| 0 <= j < i ==> perms.deep_view()[j] != spec_staff_permission(),
        decreases perms.len() - i,
    {
        if perms[i].eq(&needle) {
            proof {
                assert(perms.deep_view()[i as int] == spec_staff_permission());
            }
            return true;
        }
        i = i + 1;
    }
    false
}

/// The authorization gate itself.
pub fn is_authorized(caller: &Option<FullUser>) -> (r: bool)
    ensures
        r == spec_is_authorized(*caller),
{
    match caller {
        Some(user) => has_staff_permission(&user.permissions),
        None => false,
    }
}

} // verus!
