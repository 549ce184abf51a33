//! The narrator of the game: the year, the story so far, a hand of ten card
//! slots, a deck and a discard pile, and the letter-transition chain used to
//! name characters. The turn logic itself (playing, discarding and searching
//! cards) is not implemented by the game.

use vstd::prelude::*;

use crate::card::Card;
use crate::name_generator::MarkovChain;

verus! {

/// The state of one game session.
#[derive(Debug)]
pub struct Narrator {
    year: u32,
    history: String,
    hand: Vec<Option<Card>>,
    discarded: Vec<Card>,
    deck: Vec<Card>,
    pub chain: MarkovChain,
}

impl Narrator {
    pub closed spec fn year_spec(&self) -> u32 {
        self.year
    }

    pub closed spec fn history_spec(&self) -> Seq<char> {
        self.history@
    }

    pub closed spec fn hand_spec(&self) -> Seq<Option<Card>> {
        self.hand@
    }

    pub closed spec fn deck_spec(&self) -> Seq<Card> {
        self.deck@
    }

    pub closed spec fn discarded_spec(&self) -> Seq<Card> {
        self.discarded@
    }

    pub closed spec fn chain_spec(&self) -> MarkovChain {
        self.chain
    }

    /// The hand always has exactly ten slots.
    pub open spec fn wf(&self) -> bool {
        self.hand_spec().len() == 10
    }

    /// A fresh narrator: year zero, no history, ten empty hand slots, empty
    /// deck and discard pile, and the given naming chain.
    pub fn new(chain: MarkovChain) -> (r: Narrator)
        ensures
            r.wf(),
            r.year_spec() == 0,
            r.history_spec() == Seq::<char>::empty(),
            forall|i: int| 0 <= i < 10 ==> r.hand_spec()[i] is None,
            r.deck_spec() == Seq::<Card>::empty(),
            r.discarded_spec() == Seq::<Card>::empty(),
            r.chain_spec() == chain,
    {
        let mut hand: Vec<Option<Card>> = Vec::new();
        let mut i: usize = 0;
        while i < 10
            invariant
                i <= 10,
                hand@.len() == i,
                forall|k: int| 0 <= k < i ==> hand@[k] is None,
            decreases 10 - i,
        {
            hand.push(None);
            i += 1;
        }
        Narrator { year: 0, history: String::new(), hand, discarded: Vec::new(), deck: Vec::new(), chain }
    }
}

} // verus!
