//! The synchronisation of the database with its origin.
//!
//! The transfers go through the network and stay with the application; this
//! module holds what decides what a synchronisation does, from the
//! `information` rows of the local database and of the origin.
use vstd::prelude::*;

use crate::common::utils::{u64_decimal, u64_to_chars};
use crate::crypto::cipher::bytes_equal;
use crate::common::utils::{chars_of, string_from_chars};
use crate::storage::db::{TirraDbError, TirraDbInformation};

verus! {

#[derive(Debug, Clone, PartialEq, Eq, Structural)]
pub enum SyncState {
    Fetched,
    Pushed,
    LinkFailure,
    DiskFailure,
    DbNotFound,
}

#[derive(Debug, Clone, PartialEq, Eq, Structural)]
pub enum SyncDecision {
    ChangeOrigin,
    ChangeLocal,
    Conflict,
    ChangeCommits,
}

/// A commit id, if there is one, as bytes.
pub open spec fn commit_view(c: Option<Vec<u8>>) -> Option<Seq<u8>> {
    match c {
        Some(v) => Some(v@),
        None => None,
    }
}

/// What a synchronisation does, from the commits that each side has
/// recorded: when ours has not moved from its origin, the local database
/// takes the origin's; when the origin has not moved from where we left it,
/// the origin takes ours; when both sides agree on both commits, only the
/// commit records change; otherwise the two conflict.
pub open spec fn decision_spec(
    ours_local: Option<Seq<u8>>,
    ours_origin: Option<Seq<u8>>,
    theirs_local: Option<Seq<u8>>,
    theirs_origin: Option<Seq<u8>>,
) -> SyncDecision {
    if ours_local == ours_origin {
        SyncDecision::ChangeLocal
    } else if ours_origin == theirs_local {
        SyncDecision::ChangeOrigin
    } else if ours_local == theirs_local && ours_origin == theirs_origin {
        SyncDecision::ChangeCommits
    } else {
        SyncDecision::Conflict
    }
}

/// When our database has not moved from its origin (our local commit is
/// the origin commit we recorded), a synchronisation takes the origin's
/// database, whatever the origin holds.
pub proof fn lemma_unmoved_takes_origin(
    ours_local: Option<Seq<u8>>,
    ours_origin: Option<Seq<u8>>,
    theirs_local: Option<Seq<u8>>,
    theirs_origin: Option<Seq<u8>>,
)
    requires
        ours_local == ours_origin,
    ensures
        decision_spec(ours_local, ours_origin, theirs_local, theirs_origin) == SyncDecision::ChangeLocal,
{
}

/// Our database is pushed to the origin exactly when it has moved from its
/// origin and the origin has not moved from where we left it; the origin is
/// taken exactly when ours has not moved; only the commit records change
/// only when both sides agree on both commits; anything else conflicts.
pub proof fn lemma_decision_cases(
    ours_local: Option<Seq<u8>>,
    ours_origin: Option<Seq<u8>>,
    theirs_local: Option<Seq<u8>>,
    theirs_origin: Option<Seq<u8>>,
)
    ensures
        (decision_spec(ours_local, ours_origin, theirs_local, theirs_origin) == SyncDecision::ChangeOrigin) <==> (
        ours_local != ours_origin && ours_origin == theirs_local),
        (decision_spec(ours_local, ours_origin, theirs_local, theirs_origin) == SyncDecision::ChangeLocal) <==> (
        ours_local == ours_origin),
        decision_spec(ours_local, ours_origin, theirs_local, theirs_origin) == SyncDecision::ChangeCommits ==> (
        ours_local != ours_origin && ours_local == theirs_local && ours_origin == theirs_origin),
        decision_spec(ours_local, ours_origin, theirs_local, theirs_origin) == SyncDecision::Conflict ==> (
        ours_local != ours_origin && ours_origin != theirs_local && !(ours_local == theirs_local && ours_origin
            == theirs_origin)),
{
}

/// Equality of two optional commit ids.
fn commits_equal(a: &Option<Vec<u8>>, b: &Option<Vec<u8>>) -> (eq: bool)
    ensures
        eq == (commit_view(*a) == commit_view(*b)),
{
    match (a, b) {
        (Some(x), Some(y)) => bytes_equal(x.as_slice(), y.as_slice()),
        (None, None) => true,
        _ => false,
    }
}

/// What a synchronisation does (see `decision_spec`).
pub fn decision(ours: &TirraDbInformation, theirs: &TirraDbInformation) -> (d: SyncDecision)
    ensures
        d == decision_spec(
            commit_view(ours.local_commit),
            commit_view(ours.origin_commit),
            commit_view(theirs.local_commit),
            commit_view(theirs.origin_commit),
        ),
{
    if commits_equal(&ours.local_commit, &ours.origin_commit) {
        SyncDecision::ChangeLocal
    } else {
        if commits_equal(&ours.origin_commit, &theirs.local_commit) {
            return SyncDecision::ChangeOrigin;
        } else if commits_equal(&ours.local_commit, &theirs.local_commit) && commits_equal(
            &ours.origin_commit,
            &theirs.origin_commit,
        ) {
            return SyncDecision::ChangeCommits;
        }
        SyncDecision::Conflict
    }
}

/// The information of the origin database, once it has been read from the
/// copy fetched from the origin: none when it could not be read.
pub fn sync_retrieve_information(info_result: Result<TirraDbInformation, TirraDbError>) -> (r: Option<
    TirraDbInformation,
>)
    ensures
        match info_result {
            Ok(info) => r == Some(info),
            Err(_) => r is None,
        },
{
    match info_result {
        Ok(info) => Some(info),
        Err(_) => None,
    }
}

/// The address of a resource of the synchronisation service for database
/// `db_id`.
pub open spec fn url_endpoint_spec(resource: Seq<char>, db_id: u64) -> Seq<char> {
    "http://localhost:8443/"@ + resource + "?id="@ + u64_decimal(db_id)
}

/// The address of a resource of the synchronisation service (see
/// `url_endpoint_spec`).
pub fn url_endpoint(resource: &str, db_id: u64) -> (url: String)
    ensures
        url@ == url_endpoint_spec(resource@, db_id),
{
    let mut out: Vec<char> = chars_of("http://localhost:8443/");
    out.extend_from_slice(chars_of(resource).as_slice());
    out.extend_from_slice(chars_of("?id=").as_slice());
    out.extend_from_slice(u64_to_chars(db_id).as_slice());
    assert(out@ =~= url_endpoint_spec(resource@, db_id));
    string_from_chars(out.as_slice())
}

} // verus!
