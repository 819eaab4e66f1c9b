//! A small filter-query language for kanban-style cards.
//!
//! The crate compiles a search string such as `list:todo "some words" OR urgent`
//! into a boolean predicate tree ([`filter::Expression`]) that decides whether a
//! single card matches.  Compilation resolves `list:<name>` predicates through a
//! caller-supplied name-to-identifier map and reports position-accurate errors;
//! evaluation is a pure function of the expression tree and the card.

use vstd::prelude::*;

pub mod filter;
pub mod text;

verus! {

/// An opaque 128-bit identifier for boards, lists and cards.
///
/// Only equality is ever observed; the host application decides how
/// identifiers are generated and rendered.
#[derive(Clone, Copy, PartialEq, Eq, Structural, Debug, Hash)]
pub struct Id(pub u128);

/// The entity being matched: a card has a title and belongs to one list.
#[derive(Debug)]
pub struct Card {
    pub id: Id,
    pub title: String,
    pub list: Id,
}

/// Mathematical model of a [`Card`]: the title as a character sequence.
pub struct CardModel {
    pub id: Id,
    pub title: Seq<char>,
    pub list: Id,
}

impl View for Card {
    type V = CardModel;

    open spec fn view(&self) -> CardModel {
        CardModel { id: self.id, title: self.title@, list: self.list }
    }
}

} // verus!
