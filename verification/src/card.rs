//! Cards of the game: a concrete card or a template read from a
//! configuration document, with the closed set of card types.

use vstd::prelude::*;

use crate::template::TemplateInfo;
use crate::text::str_eq;

verus! {

/// A card: either a concrete card of the game or a template for one.
#[derive(Debug, PartialEq)]
pub enum Card {
    Card(CardInfo),
    Template(TemplateInfo),
}

/// The closed set of card types.
#[derive(Debug, PartialEq, Eq, Structural, Clone, Copy)]
pub enum CardType {
    Artifact,
    Chaos,
    Event,
    Faction,
    Hero,
    Wonder,
}

/// A name that denotes no card type.
#[derive(Debug)]
pub struct CardTypeError;

/// The card type a name denotes, if any.
pub open spec fn card_type_of(s: Seq<char>) -> Option<CardType> {
    if s == "Artifact"@ {
        Some(CardType::Artifact)
    } else if s == "Chaos"@ {
        Some(CardType::Chaos)
    } else if s == "Event"@ {
        Some(CardType::Event)
    } else if s == "Faction"@ {
        Some(CardType::Faction)
    } else if s == "Hero"@ {
        Some(CardType::Hero)
    } else if s == "Wonder"@ {
        Some(CardType::Wonder)
    } else {
        None
    }
}

impl CardType {
    /// The card type named by `s`, or an error for any other name.
    pub fn from_str(s: &str) -> (r: Result<CardType, CardTypeError>)
        ensures
            match card_type_of(s@) {
                Some(t) => r matches Ok(t2) && t2 == t,
                None => r is Err,
            },
    {
        if str_eq(s, "Artifact") {
            Ok(CardType::Artifact)
        } else if str_eq(s, "Chaos") {
            Ok(CardType::Chaos)
        } else if str_eq(s, "Event") {
            Ok(CardType::Event)
        } else if str_eq(s, "Faction") {
            Ok(CardType::Faction)
        } else if str_eq(s, "Hero") {
            Ok(CardType::Hero)
        } else if str_eq(s, "Wonder") {
            Ok(CardType::Wonder)
        } else {
            Err(CardTypeError)
        }
    }
}

/// The fields of a concrete card.
#[derive(Debug, PartialEq)]
pub struct CardInfo {
    pub card_type: CardType,
    pub year: u32,
    pub name: String,
    pub desc: String,
}

} // verus!
