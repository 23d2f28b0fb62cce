//! Raising the limit on locked memory: which requests to make of the system, and when.
//!
//! Two things can be done, and they need different privileges. The soft limit can always
//! be raised to the hard one, which never exceeds the administrator's policy. Raising the
//! hard limit needs a privilege, is tried only when asked for, and its refusal is no
//! error.

use vstd::prelude::*;

verus! {

/// What to ask of the system.
#[derive(Debug, Clone, Copy, PartialEq, Eq, Structural)]
pub enum LimitRequest {
    /// Read the limits.
    Read,
    /// Change both limits.
    Write { soft: u64, hard: u64 },
}

/// What the system said.
#[derive(Debug, Clone, Copy, PartialEq, Eq, Structural)]
pub enum LimitReply {
    /// The soft and the hard limit.
    Limits { soft: u64, hard: u64 },
    /// A request to set the limits was granted.
    Granted,
    /// The request failed.
    Refused,
}

/// How far raising the limits has come.
#[derive(Debug, Clone, Copy, PartialEq, Eq, Structural)]
pub enum RaiseState {
    /// The limits are being read; the hard one shall become `want`.
    Reading { want: u64 },
    /// The soft limit is being raised to the hard one.
    RaisingSoft { want: u64, hard: u64 },
    /// The hard limit is being raised.
    RaisingHard,
    /// The limits are being read again.
    Confirming,
}

/// How raising the limits ended.
#[derive(Debug, Clone, Copy, PartialEq, Eq, Structural)]
pub enum Raised {
    /// The limits are now these.
    Limits { soft: u64, hard: u64 },
    /// The limits could not be read.
    Unsupported,
    /// The soft limit could not be raised.
    NotSet,
    /// The limits could not be read again.
    Unreadable,
}

/// What to do next.
#[derive(Debug, Clone, Copy, PartialEq, Eq, Structural)]
pub enum RaiseStep {
    /// Make the request and come back with the reply in this state.
    Ask { request: LimitRequest, state: RaiseState },
    /// Done.
    Done { raised: Raised },
}

/// The first step: read the limits.
pub fn start_raise(want: u64) -> (s: RaiseStep)
    ensures
        s == (RaiseStep::Ask { request: LimitRequest::Read, state: RaiseState::Reading { want } }),
{
    RaiseStep::Ask { request: LimitRequest::Read, state: RaiseState::Reading { want } }
}

/// What follows a reply.
pub open spec fn raise_spec(state: RaiseState, reply: LimitReply) -> RaiseStep {
    match state {
        RaiseState::Reading { want } => match reply {
            LimitReply::Limits { soft, hard } => RaiseStep::Ask {
                request: LimitRequest::Write { soft: hard, hard },
                state: RaiseState::RaisingSoft { want, hard },
            },
            _ => RaiseStep::Done { raised: Raised::Unsupported },
        },
        RaiseState::RaisingSoft { want, hard } => if reply == LimitReply::Refused {
            RaiseStep::Done { raised: Raised::NotSet }
        } else if want > hard {
            RaiseStep::Ask { request: LimitRequest::Write { soft: want, hard: want }, state: RaiseState::RaisingHard }
        } else {
            RaiseStep::Ask { request: LimitRequest::Read, state: RaiseState::Confirming }
        },
        RaiseState::RaisingHard => RaiseStep::Ask { request: LimitRequest::Read, state: RaiseState::Confirming },
        RaiseState::Confirming => match reply {
            LimitReply::Limits { soft, hard } => RaiseStep::Done { raised: Raised::Limits { soft, hard } },
            _ => RaiseStep::Done { raised: Raised::Unreadable },
        },
    }
}

/// The step after a reply: raise the soft limit to the hard one, then try to lift the
/// hard one if more is wanted, then read what came of it.
pub fn raise_memlock_limit(state: RaiseState, reply: LimitReply) -> (s: RaiseStep)
    ensures
        s == raise_spec(state, reply),
{
    match state {
        RaiseState::Reading { want } => match reply {
            LimitReply::Limits { soft: _, hard } => RaiseStep::Ask {
                request: LimitRequest::Write { soft: hard, hard },
                state: RaiseState::RaisingSoft { want, hard },
            },
            _ => RaiseStep::Done { raised: Raised::Unsupported },
        },
        RaiseState::RaisingSoft { want, hard } => if reply == LimitReply::Refused {
            RaiseStep::Done { raised: Raised::NotSet }
        } else if want > hard {
            RaiseStep::Ask { request: LimitRequest::Write { soft: want, hard: want }, state: RaiseState::RaisingHard }
        } else {
            RaiseStep::Ask { request: LimitRequest::Read, state: RaiseState::Confirming }
        },
        // A refusal to lift the hard limit is ignored.
        RaiseState::RaisingHard => RaiseStep::Ask { request: LimitRequest::Read, state: RaiseState::Confirming },
        RaiseState::Confirming => match reply {
            LimitReply::Limits { soft, hard } => RaiseStep::Done { raised: Raised::Limits { soft, hard } },
            _ => RaiseStep::Done { raised: Raised::Unreadable },
        },
    }
}

/// The limits to set where these are the limits, if any.
pub open spec fn soft_raise_spec(limits: Option<(u64, u64)>) -> Option<(u64, u64)> {
    match limits {
        Some((soft, hard)) => if soft < hard { Some((hard, hard)) } else { None },
        None => None,
    }
}

/// The limits to set before memory is locked, if any: the soft limit is raised to the
/// hard one where it is lower.
pub fn soft_raise(limits: Option<(u64, u64)>) -> (r: Option<(u64, u64)>)
    ensures
        r == soft_raise_spec(limits),
{
    match limits {
        Some((soft, hard)) => if soft < hard {
            Some((hard, hard))
        } else {
            None
        },
        None => None,
    }
}

/// A request to change the limits lowers neither, and exceeds the hard limit only if more
/// was asked for.
pub open spec fn raises(step: RaiseStep, want: u64, soft: u64, hard: u64) -> bool {
    step matches RaiseStep::Ask { request, state } ==> match request {
        LimitRequest::Write { soft: s, hard: h } => s >= soft && h >= hard && s == h && (h > hard ==> h == want),
        LimitRequest::Read => true,
    }
}

/// No limit is ever lowered, and the hard limit is exceeded only if more was asked for.
pub proof fn law_limits_only_rise(want: u64, soft: u64, hard: u64, reply: LimitReply)
    requires
        soft <= hard,
    ensures
        raise_spec(RaiseState::Reading { want }, LimitReply::Limits { soft, hard }) == (RaiseStep::Ask {
            request: LimitRequest::Write { soft: hard, hard },
            state: RaiseState::RaisingSoft { want, hard },
        }),
        raises(raise_spec(RaiseState::Reading { want }, LimitReply::Limits { soft, hard }), want, soft, hard),
        raises(raise_spec(RaiseState::RaisingSoft { want, hard }, reply), want, soft, hard),
        raises(raise_spec(RaiseState::RaisingHard, reply), want, soft, hard),
        raises(raise_spec(RaiseState::Confirming, reply), want, soft, hard),
{
}

/// Whatever the system replies, raising ends within three more steps after the first.
pub proof fn law_raising_ends(want: u64, a: LimitReply, b: LimitReply, c: LimitReply, d: LimitReply)
    ensures
        match raise_spec(RaiseState::Reading { want }, a) {
            RaiseStep::Done { .. } => true,
            RaiseStep::Ask { state: s1, .. } => match raise_spec(s1, b) {
                RaiseStep::Done { .. } => true,
                RaiseStep::Ask { state: s2, .. } => match raise_spec(s2, c) {
                    RaiseStep::Done { .. } => true,
                    RaiseStep::Ask { state: s3, .. } => raise_spec(s3, d) is Done,
                },
            },
        },
{
}

/// Where the limits are known, the soft limit is afterwards no lower than it was or than the
/// hard one, which is left as it is; and nothing is set that already holds.
pub proof fn law_soft_limit_reaches_hard(soft: u64, hard: u64)
    ensures
        soft_raise_spec(None) is None,
        match soft_raise_spec(Some((soft, hard))) {
            Some((s, h)) => h == hard && s == hard && soft < s,
            None => soft >= hard,
        },
{
}

/// A step makes this request.
pub open spec fn asks(step: RaiseStep, r: LimitRequest) -> bool {
    step matches RaiseStep::Ask { request, .. } && request == r
}

/// What follows a step to which the system replies.
pub open spec fn after(step: RaiseStep, reply: LimitReply) -> RaiseStep {
    match step {
        RaiseStep::Ask { state, .. } => raise_spec(state, reply),
        RaiseStep::Done { .. } => step,
    }
}

/// Raising gives the limits that the system reports in the end, whether or not it granted a
/// higher hard limit. That is asked for exactly if more is wanted than the hard limit
/// allows.
pub proof fn law_raising_reports(want: u64, soft: u64, hard: u64, b: LimitReply, c: LimitReply, s: u64, h: u64)
    requires
        b != LimitReply::Refused,
    ensures
        ({
            let first = raise_spec(RaiseState::Reading { want }, LimitReply::Limits { soft, hard });
            let second = after(first, b);
            let third = if want > hard { after(second, c) } else { second };
            &&& asks(first, LimitRequest::Write { soft: hard, hard })
            &&& want > hard ==> asks(second, LimitRequest::Write { soft: want, hard: want })
            &&& asks(third, LimitRequest::Read)
            &&& after(third, LimitReply::Limits { soft: s, hard: h }) == (RaiseStep::Done {
                raised: Raised::Limits { soft: s, hard: h },
            })
            &&& after(third, LimitReply::Refused) == (RaiseStep::Done { raised: Raised::Unreadable })
        }),
{
}

/// Limits that cannot be read, and a soft limit that cannot be raised, end it at once.
pub proof fn law_raising_fails(want: u64, soft: u64, hard: u64)
    ensures
        raise_spec(RaiseState::Reading { want }, LimitReply::Refused) == (RaiseStep::Done { raised: Raised::Unsupported }),
        after(raise_spec(RaiseState::Reading { want }, LimitReply::Limits { soft, hard }), LimitReply::Refused) == (
        RaiseStep::Done { raised: Raised::NotSet }),
{
}

} // verus!
