//! The plain request models the services deserialize at their edges. Their
//! fields are what the validation rules read.

use vstd::prelude::*;
use vstd::string::StringExecFns;

use crate::roles::Role;

verus! {

/// The login request: the two credentials a caller presents.
#[derive(Debug, Clone)]
pub struct LoginModel {
    pub email: String,
    pub password: String,
}

/// The sign-up request: the identity to create.
#[derive(Debug, Clone)]
pub struct UserModel {
    pub email: String,
    pub mobile: String,
    pub password: String,
    pub first_name: String,
    pub last_name: String,
    pub role: Role,
}

/// A floor inside a building.
#[derive(Debug, Clone)]
pub struct FloorModel {
    pub building_id: String,
    pub name: String,
}

/// The lifecycle states of a reservation.
#[derive(Debug, Clone, Copy, PartialEq, Eq, Structural)]
pub enum ReservationStatus {
    Save,
    Complete,
    Cancel,
}

impl ReservationStatus {
    /// The wire name of the status, as it is persisted.
    pub open spec fn spec_name(self) -> Seq<char> {
        match self {
            ReservationStatus::Save => "Save"@,
            ReservationStatus::Complete => "Complete"@,
            ReservationStatus::Cancel => "Cancel"@,
        }
    }

    /// Returns the status's wire name.
    pub fn name(&self) -> (r: String)
        ensures
            r@ == self.spec_name(),
    {
        match self {
            ReservationStatus::Save => String::from_str("Save"),
            ReservationStatus::Complete => String::from_str("Complete"),
            ReservationStatus::Cancel => String::from_str("Cancel"),
        }
    }
}

} // verus!
