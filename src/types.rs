//! The records that the scheduler keeps: items, judges, match pairs, the
//! scheduling phase and the errors it reports.
use crate::random::fresh_id;
use vstd::prelude::*;

verus! {

/// The bit pattern of the double-precision number 1000.0, the Elo rating that
/// every new item starts with.
pub const INITIAL_ELO_BITS: u64 = 0x408F_4000_0000_0000;

/// A competing item. Its rating is kept as the bit pattern of a
/// double-precision number: the scheduler stores and hands it back, and the
/// rating arithmetic happens outside it.
#[derive(Clone, Debug, PartialEq)]
pub struct Item {
    pub id: String,
    pub name: String,
    pub location: String,
    pub description: String,
    pub score_bits: u64,
}

/// What a verdict asks of the ratings: both items as they stand, and which
/// of them won.
#[derive(Clone, Debug)]
pub struct RatingUpdate {
    pub first: Item,
    pub second: Item,
    pub winner: Winner,
}

/// The side of a rating update that a verdict names: `A` is the first item.
pub open spec fn elo_side(w: MatchWinner) -> Winner {
    match w {
        MatchWinner::A => Winner::P1,
        MatchWinner::B => Winner::P2,
    }
}

/// A judge; two judges are the same judge when their ids are equal.
#[derive(Clone, Debug)]
pub struct Judge {
    pub id: String,
    pub email: String,
}

/// Which side of a match pair won: `A` is `i1`, `B` is `i2`.
#[derive(Copy, Clone, PartialEq, Eq, Structural, Debug)]
pub enum MatchWinner {
    A,
    B,
}

/// The winner of a two-player rating update.
#[derive(Copy, Clone, PartialEq, Eq, Structural, Debug)]
pub enum Winner {
    P1,
    P2,
}

/// A head-to-head pairing of two items.
#[derive(Clone, Debug)]
pub struct MatchPair {
    pub match_pair_id: String,
    pub i1: String,
    pub i2: String,
    /// How many times this pair has been handed to a judge.
    pub visit_count: u64,
    pub winner: Option<MatchWinner>,
    /// The last judge that received this pair.
    pub judge_id: Option<String>,
}

/// The scheduling phase.
#[derive(Copy, Clone, PartialEq, Eq, Structural, Debug)]
pub enum States {
    /// Nothing seeded yet.
    NoState,
    /// Seed phase: matches come from the queue by lowest visit count.
    Init,
    /// Every queued match was served at least once; new pairs are drawn on demand.
    Continuous,
    /// Terminal; never entered by the scheduler itself.
    End,
}

/// What went wrong in a scheduler operation.
#[derive(Copy, Clone, PartialEq, Eq, Structural, Debug)]
pub enum ErrorKind {
    /// The operation is not allowed in the current phase.
    InvalidState,
    /// A match or item id is missing from its store.
    NotFound,
    /// The seed phase has no queued match to hand out.
    EmptyQueue,
    /// A new pair needs two distinct items and the store holds fewer.
    NotEnoughItems,
    /// A freshly drawn match id is already taken.
    IdTaken,
    /// An error raised with a message only.
    Other,
}

/// An error of the scheduler, with a human-readable message.
#[derive(Clone, Debug)]
pub struct SchedulerError {
    pub kind: ErrorKind,
    pub details: String,
}

/// `r` is an error of kind `k`.
pub open spec fn fails_with<T>(r: Result<T, SchedulerError>, k: ErrorKind) -> bool {
    r matches Err(e) && e.kind == k
}

/// The order of the phases: each operation may move the phase forward only.
pub open spec fn phase_rank(s: States) -> nat {
    match s {
        States::NoState => 0,
        States::Init => 1,
        States::Continuous => 2,
        States::End => 3,
    }
}

impl SchedulerError {
    /// An error of kind `Other` with the given message.
    pub fn new(msg: &str) -> (r: SchedulerError)
        ensures
            r.kind == ErrorKind::Other,
            r.details@ == msg@,
    {
        SchedulerError { kind: ErrorKind::Other, details: msg.to_string() }
    }

    /// An error of the given kind with the given message.
    pub fn with_kind(kind: ErrorKind, msg: &str) -> (r: SchedulerError)
        ensures
            r.kind == kind,
            r.details@ == msg@,
    {
        SchedulerError { kind, details: msg.to_string() }
    }

    /// The message of this error.
    pub fn message(&self) -> (r: String)
        ensures
            r@ == self.details@,
    {
        self.details.clone()
    }
}

impl Item {
    /// A new item under a fresh random id, with the initial Elo rating.
    pub fn new(name: String, location: String, description: String) -> (r: Item)
        ensures
            r.name == name,
            r.location == location,
            r.description == description,
            r.score_bits == INITIAL_ELO_BITS,
            r.id@.len() == 36,
    {
        Item { id: fresh_id(), name, location, description, score_bits: INITIAL_ELO_BITS }
    }

    /// An item with every field given.
    pub fn from_parts(
        id: String,
        name: String,
        location: String,
        description: String,
        score_bits: u64,
    ) -> (r: Item)
        ensures
            r == (Item { id, name, location, description, score_bits }),
    {
        Item { id, name, location, description, score_bits }
    }

    /// An exact copy of this item.
    pub fn copied(&self) -> (r: Item)
        ensures
            r == *self,
    {
        Item {
            id: self.id.clone(),
            name: self.name.clone(),
            location: self.location.clone(),
            description: self.description.clone(),
            score_bits: self.score_bits,
        }
    }
}

impl Judge {
    /// A new judge under a fresh random id.
    pub fn new(email: String) -> (r: Judge)
        ensures
            r.email == email,
            r.id@.len() == 36,
    {
        Judge { id: fresh_id(), email }
    }

    /// A judge with the given identity and id.
    pub fn from_id(email: String, id: String) -> (r: Judge)
        ensures
            r == (Judge { id, email }),
    {
        Judge { id, email }
    }

    /// An exact copy of this judge.
    pub fn copied(&self) -> (r: Judge)
        ensures
            r == *self,
    {
        Judge { id: self.id.clone(), email: self.email.clone() }
    }
}

impl PartialEq for Judge {
    fn eq(&self, other: &Judge) -> (r: bool) {
        self.id == other.id
    }
}

impl vstd::std_specs::cmp::PartialEqSpecImpl for Judge {
    open spec fn obeys_eq_spec() -> bool {
        true
    }

    open spec fn eq_spec(&self, other: &Judge) -> bool {
        self.id@ == other.id@
    }
}

impl MatchPair {
    /// An exact copy of this match pair.
    pub fn copied(&self) -> (r: MatchPair)
        ensures
            r == *self,
    {
        let judge_id = match &self.judge_id {
            Some(j) => Some(j.clone()),
            None => None,
        };
        MatchPair {
            match_pair_id: self.match_pair_id.clone(),
            i1: self.i1.clone(),
            i2: self.i2.clone(),
            visit_count: self.visit_count,
            winner: self.winner,
            judge_id,
        }
    }
}

} // verus!
