use vstd::prelude::*;

verus! {

/// Failure taxonomy of the circle's operations. Every operation either
/// succeeds or reports exactly one of these kinds; a failed operation changes
/// no state. `NotAllDeposited` and `CycleNotPassed` are reserved slots that no
/// operation raises.
#[derive(Clone, Copy, Debug, PartialEq, Eq, Structural)]
pub enum Error {
    NotOwner,
    CircleExists,
    NotFound,
    NotMember,
    AlreadyJoined,
    JoinDeadlinePassed,
    DepositAlreadyMade,
    NotAllDeposited,
    CycleNotReady,
    CycleNotPassed,
    Paused,
}

} // verus!
