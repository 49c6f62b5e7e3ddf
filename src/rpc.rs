use vstd::prelude::*;

verus! {

/// Which argument of a request was refused.
#[derive(Clone, Copy, PartialEq, Eq, Structural, Debug)]
pub enum InvalArgError {
    ActuatorId,
    TimeSlotId,
    TimeOverrideId,
    TimePeriod,
    ActuatorState,
}

impl InvalArgError {
    /// What the refused argument is, in words.
    pub fn description(&self) -> (r: &'static str)
        ensures
            *self == InvalArgError::ActuatorId ==> r@ == "actuator ID"@,
            *self == InvalArgError::TimeSlotId ==> r@ == "time slot ID"@,
            *self == InvalArgError::TimeOverrideId ==> r@ == "time override ID"@,
            *self == InvalArgError::TimePeriod ==> r@ == "time period"@,
            *self == InvalArgError::ActuatorState ==> r@ == "actuator state"@,
    {
        match self {
            InvalArgError::ActuatorId => "actuator ID",
            InvalArgError::TimeSlotId => "time slot ID",
            InvalArgError::TimeOverrideId => "time override ID",
            InvalArgError::TimePeriod => "time period",
            InvalArgError::ActuatorState => "actuator state",
        }
    }
}

/// Why a request on an actuator failed.
#[derive(Clone, Copy, PartialEq, Eq, Structural, Debug)]
pub enum Error {
    InvalidArgument(InvalArgError),
    /// The period collides with the time slot of this ID.
    TimeSlotOverlap(u32),
    /// The period shares a date with the override of this ID in the same slot.
    TimeOverrideOverlap(u32),
}

impl From<InvalArgError> for Error {
    fn from(error: InvalArgError) -> (r: Error) {
        Error::InvalidArgument(error)
    }
}

impl vstd::std_specs::convert::FromSpecImpl<InvalArgError> for Error {
    open spec fn obeys_from_spec() -> bool {
        true
    }

    open spec fn from_spec(v: InvalArgError) -> Error {
        Error::InvalidArgument(v)
    }
}

} // verus!
