//! Accepting a delivery: the installation's token, and the head that the pull request has now.

use crate::github_app::lifecycle::{
    check_head, head_failure, ProcessFailure, PullRequestProcessError,
};
use crate::text::owned;
use vstd::prelude::*;

verus! {

// ---------------------------------------------------------------------------
// Tokens
// ---------------------------------------------------------------------------

/// What is learned while a token is sought.
#[derive(Debug)]
pub enum TokenEvent {
    /// The cache was looked into.
    Looked(Option<String>),
    /// The cache was looked into again, with the installation's lock held.
    LookedUnderLock(Option<String>),
    /// The token was asked for, with the lock still held.
    Fetched(Result<String, String>),
}

/// What is done next to have a token.
#[derive(Debug, PartialEq, Eq)]
pub enum TokenAction<T> {
    TakeLock,
    Fetch,
    /// Use the token.
    Use(T),
    /// Keep the token in the cache, and use it.
    RememberAndUse(T),
    Fail(T),
}

impl View for TokenAction<String> {
    type V = TokenAction<Seq<char>>;

    open spec fn view(&self) -> TokenAction<Seq<char>> {
        match self {
            TokenAction::TakeLock => TokenAction::TakeLock,
            TokenAction::Fetch => TokenAction::Fetch,
            TokenAction::Use(t) => TokenAction::Use(t@),
            TokenAction::RememberAndUse(t) => TokenAction::RememberAndUse(t@),
            TokenAction::Fail(e) => TokenAction::Fail(e@),
        }
    }
}

/// What is done next to have a token: one from the cache is used; without one, the cache is looked
/// into again under the installation's lock before a token is asked for.
pub open spec fn token_step(event: TokenEvent) -> TokenAction<Seq<char>> {
    match event {
        TokenEvent::Looked(Some(t)) => TokenAction::Use(t@),
        TokenEvent::Looked(None) => TokenAction::TakeLock,
        TokenEvent::LookedUnderLock(Some(t)) => TokenAction::Use(t@),
        TokenEvent::LookedUnderLock(None) => TokenAction::Fetch,
        TokenEvent::Fetched(Ok(t)) => TokenAction::RememberAndUse(t@),
        TokenEvent::Fetched(Err(e)) => TokenAction::Fail(e@),
    }
}

/// Decides what is done next to have a token.
pub fn next_token_action(event: TokenEvent) -> (r: TokenAction<String>)
    ensures
        r@ == token_step(event),
{
    match event {
        TokenEvent::Looked(Some(t)) => TokenAction::Use(t),
        TokenEvent::Looked(None) => TokenAction::TakeLock,
        TokenEvent::LookedUnderLock(Some(t)) => TokenAction::Use(t),
        TokenEvent::LookedUnderLock(None) => TokenAction::Fetch,
        TokenEvent::Fetched(Ok(t)) => TokenAction::RememberAndUse(t),
        TokenEvent::Fetched(Err(e)) => TokenAction::Fail(e),
    }
}

/// A token is asked for only by the holder of the installation's lock, and only where the cache had
/// none by then: those who waited for the lock use what the first one fetched.
pub proof fn tokens_are_fetched_once(event: TokenEvent)
    ensures
        token_step(event) is Fetch <==> event matches TokenEvent::LookedUnderLock(None),
        token_step(event) is RememberAndUse <==> event matches TokenEvent::Fetched(Ok(_)),
{
}

// ---------------------------------------------------------------------------
// Admission
// ---------------------------------------------------------------------------

/// What is learned while a delivery is accepted.
#[derive(Debug)]
pub enum AdmissionEvent {
    /// The delivery came; the head that it is about.
    Begun { head: Option<String> },
    /// The pull request's lock is held.
    Locked,
    Token(Result<(), String>),
    /// The head that the pull request has now.
    Head { expected: String, actual: Result<String, String> },
    Dispatched(Result<(), String>),
}

/// What is done next to accept a delivery.
#[derive(Debug, Clone, Copy, PartialEq, Eq, Structural)]
pub enum AdmissionAction {
    TakeLock,
    FetchToken,
    FetchHead,
    Dispatch,
    Done,
}

/// Why a delivery is not accepted, if it is not.
pub open spec fn admission_failure(event: AdmissionEvent) -> Option<ProcessFailure> {
    match event {
        AdmissionEvent::Begun { head: None } => Some(
            ProcessFailure::Failed("pull_request payload missing PR data"@),
        ),
        AdmissionEvent::Token(Err(e)) => Some(ProcessFailure::Failed(e@)),
        AdmissionEvent::Head { expected, actual } => head_failure(expected, actual),
        AdmissionEvent::Dispatched(Err(e)) => Some(ProcessFailure::Failed(e@)),
        _ => None,
    }
}

/// What follows where a delivery is still to be accepted.
pub open spec fn admission_step(event: AdmissionEvent) -> AdmissionAction {
    match event {
        AdmissionEvent::Begun { .. } => AdmissionAction::TakeLock,
        AdmissionEvent::Locked => AdmissionAction::FetchToken,
        AdmissionEvent::Token(_) => AdmissionAction::FetchHead,
        AdmissionEvent::Head { .. } => AdmissionAction::Dispatch,
        AdmissionEvent::Dispatched(_) => AdmissionAction::Done,
    }
}

/// Decides what is done next to accept a delivery, or why it is not accepted.
pub fn next_admission_action(event: AdmissionEvent) -> (r: Result<
    AdmissionAction,
    PullRequestProcessError,
>)
    ensures
        match admission_failure(event) {
            None => r == Ok::<AdmissionAction, PullRequestProcessError>(admission_step(event)),
            Some(f) => r matches Err(e) && e@ == f,
        },
{
    match event {
        AdmissionEvent::Begun { head: None } => Err(
            PullRequestProcessError::Failed(owned("pull_request payload missing PR data")),
        ),
        AdmissionEvent::Begun { head: Some(_) } => Ok(AdmissionAction::TakeLock),
        AdmissionEvent::Locked => Ok(AdmissionAction::FetchToken),
        AdmissionEvent::Token(Ok(_)) => Ok(AdmissionAction::FetchHead),
        AdmissionEvent::Token(Err(e)) => Err(PullRequestProcessError::Failed(e)),
        AdmissionEvent::Head { expected, actual } => match check_head(expected, actual) {
            Ok(_) => Ok(AdmissionAction::Dispatch),
            Err(e) => Err(e),
        },
        AdmissionEvent::Dispatched(Ok(_)) => Ok(AdmissionAction::Done),
        AdmissionEvent::Dispatched(Err(e)) => Err(PullRequestProcessError::Failed(e)),
    }
}

/// A delivery is dispatched only where it is about the head that the pull request has now.
pub proof fn only_current_heads_are_dispatched(event: AdmissionEvent)
    ensures
        admission_failure(event) is None && admission_step(event) is Dispatch ==> (event
            matches AdmissionEvent::Head { expected, actual: Ok(actual) } && actual@ == expected@),
{
}

} // verus!
