//! The order in which a router gives up its privileges.
//!
//! Each step is carried out elsewhere. What is decided here is which step comes
//! next and which outcomes a router must not go on with.

use vstd::prelude::*;

verus! {

/// Which router gives up its privileges.
#[derive(Clone, Copy, Debug, PartialEq, Eq, Structural)]
pub enum Profile {
    /// The TCP router, which may keep writing a key log.
    Tcp { keylog: bool },
    /// The QUIC router.
    Quic,
}

/// A set of capabilities.
#[derive(Clone, Copy, Debug, PartialEq, Eq, Structural)]
pub enum CapabilitySet {
    Effective,
    Inheritable,
    Ambient,
    Permitted,
    Bounding,
}

/// A step.
#[derive(Clone, Copy, Debug, PartialEq, Eq, Structural)]
pub enum Step {
    /// Clear a set of capabilities.
    Clear(CapabilitySet),
    /// Confine the file system to reading below the given directories, and,
    /// where asked for, to writing the key log. With `deny_bind` TCP sockets
    /// can no longer be bound.
    Confine { deny_bind: bool, keylog: bool },
    /// Confine signals to the router itself.
    ConfineSignals,
    /// Try to bind a TCP socket.
    ProbeBind,
    /// Nothing is left to do.
    Finished,
}

/// How a step ended.
#[derive(Clone, Copy, Debug, PartialEq, Eq, Structural)]
pub enum StepOutcome {
    /// A set of capabilities was cleared.
    Cleared,
    /// A set of capabilities could not be cleared.
    NotCleared,
    /// A confinement is enforced in full.
    FullyEnforced,
    /// A confinement is not enforced, or only in part.
    NotFullyEnforced,
    /// A TCP socket was bound.
    Bound,
    /// Binding a TCP socket was not permitted.
    BindDenied,
    /// Binding a TCP socket failed for another reason.
    BindFailed,
}

/// Why a router must not go on.
#[derive(Clone, Copy, Debug, PartialEq, Eq, Structural)]
pub enum PrivsError {
    /// A set of capabilities could not be cleared.
    NotCleared(CapabilitySet),
    /// The file system, and for TCP the network, is not confined in full.
    NotConfined,
    /// TCP sockets can still be bound.
    BindNotDenied,
    /// It could not be seen whether TCP sockets can still be bound.
    BindProbeFailed,
}

/// What comes after a step.
#[derive(Clone, Copy, Debug, PartialEq, Eq, Structural)]
pub struct Following {
    pub step: Step,
    /// Whether the outcome is worth a warning.
    pub warn: bool,
}

/// Whether `outcome` is one that `step` can have.
pub open spec fn can_end(step: Step, outcome: StepOutcome) -> bool {
    match step {
        Step::Clear(_) => outcome == StepOutcome::Cleared || outcome == StepOutcome::NotCleared,
        Step::Confine { .. } | Step::ConfineSignals => outcome == StepOutcome::FullyEnforced
            || outcome == StepOutcome::NotFullyEnforced,
        Step::ProbeBind => outcome == StepOutcome::Bound || outcome == StepOutcome::BindDenied
            || outcome == StepOutcome::BindFailed,
        Step::Finished => false,
    }
}

/// The step after a set of capabilities was cleared.
pub open spec fn after_clearing(profile: Profile, set: CapabilitySet) -> Step {
    match set {
        CapabilitySet::Effective => Step::Clear(CapabilitySet::Inheritable),
        CapabilitySet::Inheritable => Step::Clear(CapabilitySet::Ambient),
        CapabilitySet::Ambient => Step::Clear(CapabilitySet::Permitted),
        CapabilitySet::Permitted => Step::Clear(CapabilitySet::Bounding),
        CapabilitySet::Bounding => match profile {
            Profile::Tcp { keylog } => Step::Confine { deny_bind: true, keylog },
            Profile::Quic => Step::Confine { deny_bind: false, keylog: false },
        },
    }
}

/// What comes after a step that ended with `outcome`. Only the bounding set and
/// signals may be left as they are.
pub open spec fn following(profile: Profile, step: Step, outcome: StepOutcome) -> Result<
    Following,
    PrivsError,
> {
    match step {
        Step::Clear(set) => if outcome == StepOutcome::NotCleared && set
            != CapabilitySet::Bounding {
            Err(PrivsError::NotCleared(set))
        } else {
            Ok(Following { step: after_clearing(profile, set), warn: false })
        },
        Step::Confine { .. } => if outcome == StepOutcome::FullyEnforced {
            Ok(Following { step: Step::ConfineSignals, warn: false })
        } else {
            Err(PrivsError::NotConfined)
        },
        Step::ConfineSignals => Ok(
            Following {
                step: match profile {
                    Profile::Tcp { .. } => Step::ProbeBind,
                    Profile::Quic => Step::Finished,
                },
                warn: outcome != StepOutcome::FullyEnforced,
            },
        ),
        Step::ProbeBind => match outcome {
            StepOutcome::Bound => Err(PrivsError::BindNotDenied),
            StepOutcome::BindDenied => Ok(Following { step: Step::Finished, warn: false }),
            _ => Err(PrivsError::BindProbeFailed),
        },
        Step::Finished => Ok(Following { step: Step::Finished, warn: false }),
    }
}

/// The profile of the TCP router: a key log is written only if it is allowed
/// and a file is named for it.
pub fn tcp_profile(allow_keylogging: bool, keylog_named: bool) -> (r: Profile)
    ensures
        r == (Profile::Tcp { keylog: allow_keylogging && keylog_named }),
{
    Profile::Tcp { keylog: allow_keylogging && keylog_named }
}

/// The step to start with.
pub fn first_step() -> (r: Step)
    ensures
        r == Step::Clear(CapabilitySet::Effective),
{
    Step::Clear(CapabilitySet::Effective)
}

fn step_after_clearing(profile: Profile, set: CapabilitySet) -> (r: Step)
    ensures
        r == after_clearing(profile, set),
{
    match set {
        CapabilitySet::Effective => Step::Clear(CapabilitySet::Inheritable),
        CapabilitySet::Inheritable => Step::Clear(CapabilitySet::Ambient),
        CapabilitySet::Ambient => Step::Clear(CapabilitySet::Permitted),
        CapabilitySet::Permitted => Step::Clear(CapabilitySet::Bounding),
        CapabilitySet::Bounding => match profile {
            Profile::Tcp { keylog } => Step::Confine { deny_bind: true, keylog },
            Profile::Quic => Step::Confine { deny_bind: false, keylog: false },
        },
    }
}

/// Says what comes after a step that ended with `outcome`.
pub fn after_step(profile: Profile, step: Step, outcome: StepOutcome) -> (r: Result<
    Following,
    PrivsError,
>)
    requires
        can_end(step, outcome),
    ensures
        r == following(profile, step, outcome),
{
    match step {
        Step::Clear(set) => if outcome == StepOutcome::NotCleared && set
            != CapabilitySet::Bounding {
            Err(PrivsError::NotCleared(set))
        } else {
            Ok(Following { step: step_after_clearing(profile, set), warn: false })
        },
        Step::Confine { .. } => if outcome == StepOutcome::FullyEnforced {
            Ok(Following { step: Step::ConfineSignals, warn: false })
        } else {
            Err(PrivsError::NotConfined)
        },
        Step::ConfineSignals => {
            let next = match profile {
                Profile::Tcp { .. } => Step::ProbeBind,
                Profile::Quic => Step::Finished,
            };
            Ok(Following { step: next, warn: outcome != StepOutcome::FullyEnforced })
        },
        Step::ProbeBind => match outcome {
            StepOutcome::Bound => Err(PrivsError::BindNotDenied),
            StepOutcome::BindDenied => Ok(Following { step: Step::Finished, warn: false }),
            _ => Err(PrivsError::BindProbeFailed),
        },
        Step::Finished => Ok(Following { step: Step::Finished, warn: false }),
    }
}

/// Where the steps come to after the outcomes, from the first step on; `None`
/// where an outcome cannot be or must not be gone on with.
pub open spec fn run(profile: Profile, outcomes: Seq<StepOutcome>) -> Option<Step>
    decreases outcomes.len(),
{
    if outcomes.len() == 0 {
        Some(Step::Clear(CapabilitySet::Effective))
    } else {
        match run(profile, outcomes.drop_last()) {
            None => None,
            Some(step) => if !can_end(step, outcomes.last()) {
                None
            } else {
                match following(profile, step, outcomes.last()) {
                    Ok(next) => Some(next.step),
                    Err(_) => None,
                }
            },
        }
    }
}

/// The step that a place in the order holds.
pub open spec fn step_at(profile: Profile, i: nat) -> Step {
    if i == 0 {
        Step::Clear(CapabilitySet::Effective)
    } else if i == 1 {
        Step::Clear(CapabilitySet::Inheritable)
    } else if i == 2 {
        Step::Clear(CapabilitySet::Ambient)
    } else if i == 3 {
        Step::Clear(CapabilitySet::Permitted)
    } else if i == 4 {
        Step::Clear(CapabilitySet::Bounding)
    } else if i == 5 {
        after_clearing(profile, CapabilitySet::Bounding)
    } else if i == 6 {
        Step::ConfineSignals
    } else if i == 7 && profile is Tcp {
        Step::ProbeBind
    } else {
        Step::Finished
    }
}

proof fn lemma_order(profile: Profile, outcomes: Seq<StepOutcome>)
    ensures
        run(profile, outcomes) matches Some(step) ==> {
            &&& step == step_at(profile, outcomes.len())
            &&& outcomes.len() <= (if profile is Tcp {
                8
            } else {
                7int
            })
        },
    decreases outcomes.len(),
{
    if outcomes.len() > 0 {
        lemma_order(profile, outcomes.drop_last());
    }
}

proof fn lemma_gone_on_with(profile: Profile, outcomes: Seq<StepOutcome>, i: int)
    requires
        run(profile, outcomes) is Some,
        0 <= i < outcomes.len(),
    ensures
        can_end(step_at(profile, i as nat), outcomes[i]),
        following(profile, step_at(profile, i as nat), outcomes[i]) is Ok,
    decreases outcomes.len(),
{
    lemma_order(profile, outcomes.drop_last());
    if i < outcomes.len() - 1 {
        lemma_gone_on_with(profile, outcomes.drop_last(), i);
    }
}

/// A router finishes only after its effective, inheritable, ambient and
/// permitted capabilities were cleared and its file system access was confined
/// in full; the TCP router only after binding a socket was then denied too.
pub proof fn lemma_finished_means_confined(profile: Profile, outcomes: Seq<StepOutcome>)
    requires
        run(profile, outcomes) == Some(Step::Finished),
    ensures
        outcomes.len() == (if profile is Tcp {
            8
        } else {
            7int
        }),
        forall|i: int| 0 <= i < 4 ==> #[trigger] outcomes[i] == StepOutcome::Cleared,
        outcomes[5] == StepOutcome::FullyEnforced,
        profile is Tcp ==> outcomes[7] == StepOutcome::BindDenied,
{
    lemma_order(profile, outcomes);
    assert forall|i: int| 0 <= i < 4 implies #[trigger] outcomes[i] == StepOutcome::Cleared by {
        lemma_gone_on_with(profile, outcomes, i);
    }
    lemma_gone_on_with(profile, outcomes, 5);
    if profile is Tcp {
        lemma_gone_on_with(profile, outcomes, 7);
    }
}

/// A router gives up its privileges in this order: the effective, inheritable,
/// ambient, permitted and bounding capabilities; the file system, with binding
/// TCP sockets denied to the TCP router alone, which alone may keep its key log;
/// signals; and the TCP router tries to bind a socket.
pub proof fn lemma_steps_in_order(profile: Profile, outcomes: Seq<StepOutcome>)
    ensures
        run(profile, outcomes) matches Some(step) ==> {
            let n = outcomes.len();
            &&& n == 0 ==> step == Step::Clear(CapabilitySet::Effective)
            &&& n == 1 ==> step == Step::Clear(CapabilitySet::Inheritable)
            &&& n == 2 ==> step == Step::Clear(CapabilitySet::Ambient)
            &&& n == 3 ==> step == Step::Clear(CapabilitySet::Permitted)
            &&& n == 4 ==> step == Step::Clear(CapabilitySet::Bounding)
            &&& n == 5 ==> match profile {
                Profile::Tcp { keylog } => step == (Step::Confine { deny_bind: true, keylog }),
                Profile::Quic => step == (Step::Confine { deny_bind: false, keylog: false }),
            }
            &&& n == 6 ==> step == Step::ConfineSignals
            &&& n == 7 ==> match profile {
                Profile::Tcp { .. } => step == Step::ProbeBind,
                Profile::Quic => step == Step::Finished,
            }
            &&& n == 8 ==> step == Step::Finished && profile is Tcp
            &&& n <= 8
        },
{
    lemma_order(profile, outcomes);
}

/// What a router must not go on with: capabilities other than the bounding ones
/// that cannot be cleared, a file system that is not confined in full, and
/// sockets that can be bound or might be. Anything else is gone on with; signals
/// that are not confined are worth a warning, and nothing else is.
pub proof fn lemma_what_is_not_gone_on_with(profile: Profile, step: Step, outcome: StepOutcome)
    requires
        can_end(step, outcome),
    ensures
        match following(profile, step, outcome) {
            Err(PrivsError::NotCleared(set)) => step == Step::Clear(set) && set
                != CapabilitySet::Bounding && outcome == StepOutcome::NotCleared,
            Err(PrivsError::NotConfined) => step is Confine && outcome
                == StepOutcome::NotFullyEnforced,
            Err(PrivsError::BindNotDenied) => step == Step::ProbeBind && outcome
                == StepOutcome::Bound,
            Err(PrivsError::BindProbeFailed) => step == Step::ProbeBind && outcome
                == StepOutcome::BindFailed,
            Ok(next) => {
                &&& step is Clear ==> outcome == StepOutcome::Cleared || step == Step::Clear(
                    CapabilitySet::Bounding,
                )
                &&& step is Confine ==> outcome == StepOutcome::FullyEnforced
                &&& step == Step::ProbeBind ==> outcome == StepOutcome::BindDenied
                &&& next.warn <==> step == Step::ConfineSignals && outcome
                    == StepOutcome::NotFullyEnforced
            },
        },
{
}

/// The TCP router keeps its key log only if that is allowed and a file is named
/// for it.
pub proof fn lemma_keylog_is_asked_for(allow: bool, named: bool, profile: Profile)
    requires
        call_ensures(tcp_profile, (allow, named), profile),
    ensures
        profile matches Profile::Tcp { keylog } && (keylog <==> allow && named),
{
}

/// The steps start with the effective capabilities.
pub proof fn lemma_effective_capabilities_go_first(step: Step)
    requires
        call_ensures(first_step, (), step),
    ensures
        step == Step::Clear(CapabilitySet::Effective),
        run(Profile::Quic, Seq::empty()) == Some(step),
{
}

} // verus!
