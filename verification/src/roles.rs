//! The closed set of authorization roles a subject can carry.

use vstd::prelude::*;

verus! {

/// Coarse authorization tag attached to every authenticated subject.
#[derive(Debug, Clone, Copy, PartialEq, Eq, Structural)]
pub enum Role {
    Admin,
    Worker,
}

impl Role {
    /// The wire name of the role, as it is stored inside a token's claims.
    pub open spec fn spec_name(self) -> Seq<char> {
        match self {
            Role::Admin => "Admin"@,
            Role::Worker => "Worker"@,
        }
    }

    /// Returns the role's wire name.
    pub fn name(&self) -> (r: String)
        ensures
            r@ == self.spec_name(),
    {
        match self {
            Role::Admin => String::from_str("Admin"),
            Role::Worker => String::from_str("Worker"),
        }
    }
}

} // verus!
