//! The plain records of the polling service whose ballots are shared.

use vstd::prelude::*;

verus! {

/// One choice of a poll, with the votes counted for it.
#[derive(Clone, Debug)]
pub struct PollOption {
    pub option_id: i64,
    pub text: String,
    pub votes: i32,
}

/// Whether the results of a poll are asked for as a live stream.
#[derive(Clone, Debug)]
pub struct ResultsQuery {
    pub live: bool,
}

/// A vote as a voter sends it: the choice, and who chose.
#[derive(Clone, Debug)]
pub struct VoteOption {
    pub option_id: i64,
    pub username: String,
}

/// A vote as it is kept with the voter: the poll, and the choice.
#[derive(Clone, Debug)]
pub struct CastedVotes {
    pub poll_id: i64,
    pub option_id: i64,
}

/// A voter, with the votes cast so far.
#[derive(Clone, Debug)]
pub struct User {
    pub user_id: i64,
    pub email: String,
    pub votes: Vec<CastedVotes>,
}

} // verus!
