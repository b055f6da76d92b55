use vstd::prelude::*;

verus! {

/// The success/failure summary of a command: `Success` iff the external
/// exit code was zero.
#[derive(Clone, Copy, Debug, PartialEq, Eq, Structural)]
pub enum Status {
    Success,
    Failure,
}

impl Status {
    pub fn is_success(&self) -> (r: bool)
        ensures
            r == (*self == Status::Success),
    {
        match *self {
            Status::Success => true,
            Status::Failure => false,
        }
    }
}

/// The status an exit code reports.
pub open spec fn status_of_code(code: i32) -> Status {
    if code == 0 {
        Status::Success
    } else {
        Status::Failure
    }
}

impl core::convert::From<i32> for Status {
    fn from(code: i32) -> (r: Status) {
        if code == 0 {
            Status::Success
        } else {
            Status::Failure
        }
    }
}

impl vstd::std_specs::convert::FromSpecImpl<i32> for Status {
    open spec fn obeys_from_spec() -> bool {
        true
    }

    open spec fn from_spec(code: i32) -> Status {
        status_of_code(code)
    }
}

} // verus!
