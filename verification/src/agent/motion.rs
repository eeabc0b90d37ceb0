//! The results of the motion commands that an agent takes, one per tick.

use vstd::prelude::*;

verus! {

/// The state of a move towards a goal.
#[derive(Clone, Copy, Debug, PartialEq, Eq, Structural)]
pub enum MotionResult {
    Following,
    Blocked,
    Arrived,
}

impl From<bool> for MotionResult {
    fn from(b: bool) -> (res: Self) {
        if b {
            MotionResult::Following
        } else {
            MotionResult::Blocked
        }
    }
}

impl vstd::std_specs::convert::FromSpecImpl<bool> for MotionResult {
    open spec fn obeys_from_spec() -> bool {
        true
    }

    open spec fn from_spec(b: bool) -> Self {
        if b {
            MotionResult::Following
        } else {
            MotionResult::Blocked
        }
    }
}

impl From<MotionResult> for bool {
    fn from(b: MotionResult) -> (res: bool) {
        matches!(b, MotionResult::Following)
    }
}

impl vstd::std_specs::convert::FromSpecImpl<MotionResult> for bool {
    open spec fn obeys_from_spec() -> bool {
        true
    }

    open spec fn from_spec(b: MotionResult) -> bool {
        b == MotionResult::Following
    }
}

/// The state of turning towards a target.
#[derive(Clone, Copy, Debug, PartialEq, Eq, Structural)]
pub enum OrientToResult {
    Approaching,
    Arrived,
    Blocked,
}

impl From<OrientToResult> for bool {
    fn from(result: OrientToResult) -> (res: bool) {
        matches!(result, OrientToResult::Arrived)
    }
}

impl vstd::std_specs::convert::FromSpecImpl<OrientToResult> for bool {
    open spec fn obeys_from_spec() -> bool {
        true
    }

    open spec fn from_spec(result: OrientToResult) -> bool {
        result == OrientToResult::Arrived
    }
}

/// The agent can take only one of the motion commands in one tick.
/// This enum will store the result from previous tick, because behavior tree may try
/// to perform multiple commands in a tick, but the actual agent can take only one move.
#[derive(Clone, Copy, Debug, PartialEq, Eq, Structural)]
pub enum MotionCommandResult {
    Drive(bool),
    MoveTo(MotionResult),
    FollowPath(MotionResult),
    FaceToTarget(OrientToResult),
}

impl MotionCommandResult {
    /// The result of the last drive command, if that was the last command.
    pub fn as_drive(this: &Option<Self>) -> (res: Option<bool>)
        ensures
            res == match *this {
                Some(MotionCommandResult::Drive(r)) => Some(r),
                _ => None,
            },
    {
        if let Some(MotionCommandResult::Drive(r)) = this {
            Some(*r)
        } else {
            None
        }
    }

    /// The result of the last move command, if that was the last command.
    pub fn as_move_to(this: &Option<Self>) -> (res: Option<MotionResult>)
        ensures
            res == match *this {
                Some(MotionCommandResult::MoveTo(r)) => Some(r),
                _ => None,
            },
    {
        let r = match this {
            Some(r) => r,
            None => {
                return None;
            },
        };
        if let MotionCommandResult::MoveTo(r) = r {
            Some(*r)
        } else {
            None
        }
    }

    /// FollowPath command will return Following until it finds a path
    pub fn as_follow_path(this: &Option<Self>) -> (res: Option<MotionResult>)
        ensures
            res == match *this {
                Some(MotionCommandResult::FollowPath(r)) => Some(r),
                Some(_) => Some(MotionResult::Following),
                None => None,
            },
    {
        let r = match this {
            Some(r) => r,
            None => {
                return None;
            },
        };
        if let MotionCommandResult::FollowPath(r) = r {
            Some(*r)
        } else {
            Some(MotionResult::Following)
        }
    }

    /// The result of the last turn towards the target, if that was the last command.
    pub fn as_face_to_target(this: &Option<Self>) -> (res: Option<OrientToResult>)
        ensures
            res == match *this {
                Some(MotionCommandResult::FaceToTarget(r)) => Some(r),
                _ => None,
            },
    {
        if let Some(Self::FaceToTarget(r)) = this {
            Some(*r)
        } else {
            None
        }
    }
}

} // verus!
