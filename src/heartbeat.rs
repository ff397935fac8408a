use vstd::prelude::*;

use crate::session::{
    duration_fits, heartbeat_outcome, store_full_for, SessionStore, StoreError,
};

verus! {

/// Longest accepted project handle, in characters.
pub const MAX_HANDLE_LEN: usize = 100;

/// A heartbeat as a client sends it.
pub struct HeartbeatRequest {
    pub project_handle: String,
    pub timestamp: i64,
}

/// What a processed heartbeat reports back.
pub struct HeartbeatResponse {
    pub session_id: i64,
    pub project_handle: String,
    pub duration_seconds: i64,
}

/// Why a heartbeat was not recorded.
#[derive(PartialEq, Eq, Structural, Clone, Copy, Debug)]
pub enum HeartbeatError {
    /// The project handle is longer than `MAX_HANDLE_LEN` characters.
    HandleTooLong,
    /// The store could not record the heartbeat.
    Store(StoreError),
}

impl HeartbeatError {
    /// A description of the error for the caller.
    pub fn message(&self) -> (r: String)
        ensures
            *self == HeartbeatError::HandleTooLong ==> r@
                == "project_handle exceeds 100 character limit"@,
            *self == HeartbeatError::Store(StoreError::IdsExhausted) ==> r@
                == "no session id is left"@,
    {
        match self {
            HeartbeatError::HandleTooLong => "project_handle exceeds 100 character limit".to_owned(),
            HeartbeatError::Store(StoreError::IdsExhausted) => "no session id is left".to_owned(),
        }
    }
}

/// The handle may be recorded: at most `MAX_HANDLE_LEN` characters.
pub open spec fn handle_ok(project_handle: Seq<char>) -> bool {
    project_handle.len() <= MAX_HANDLE_LEN
}

/// Whether `project_handle` is short enough to be recorded.
pub fn valid_project_handle(project_handle: &str) -> (r: bool)
    ensures
        r == handle_ok(project_handle@),
{
    project_handle.unicode_len() <= MAX_HANDLE_LEN
}

/// Handles one heartbeat: rejects an over-long handle before touching the
/// store, else stitches the heartbeat into the project's sessions and
/// reports the session id and its duration so far.
pub fn beat(store: &mut SessionStore, request: HeartbeatRequest) -> (r: Result<
    HeartbeatResponse,
    HeartbeatError,
>)
    requires
        old(store).well_formed(),
        handle_ok(request.project_handle@) ==> duration_fits(
            old(store)@,
            request.project_handle@,
            request.timestamp as int,
        ),
    ensures
        final(store).well_formed(),
        !handle_ok(request.project_handle@) ==> r == Err::<HeartbeatResponse, HeartbeatError>(
            HeartbeatError::HandleTooLong,
        ) && final(store)@ == old(store)@,
        handle_ok(request.project_handle@) && store_full_for(
            old(store)@,
            request.project_handle@,
            request.timestamp as int,
        ) ==> r == Err::<HeartbeatResponse, HeartbeatError>(
            HeartbeatError::Store(StoreError::IdsExhausted),
        ) && final(store)@ == old(store)@,
        handle_ok(request.project_handle@) && !store_full_for(
            old(store)@,
            request.project_handle@,
            request.timestamp as int,
        ) ==> r is Ok,
        match r {
            Ok(resp) => {
                let o = heartbeat_outcome(
                    old(store)@,
                    request.project_handle@,
                    request.timestamp as int,
                );
                &&& final(store)@ == o.sessions
                &&& resp.session_id as int == o.session_id
                &&& resp.duration_seconds as int == o.duration
                &&& resp.project_handle@ == request.project_handle@
            },
            Err(_) => final(store)@ == old(store)@,
        },
{
    if !valid_project_handle(request.project_handle.as_str()) {
        return Err(HeartbeatError::HandleTooLong);
    }
    match store.update_session(request.project_handle.as_str(), request.timestamp) {
        Ok((session_id, duration_seconds)) => Ok(
            HeartbeatResponse {
                session_id,
                project_handle: request.project_handle,
                duration_seconds,
            },
        ),
        Err(e) => Err(HeartbeatError::Store(e)),
    }
}

} // verus!
