//! Building a card template out of a parsed configuration document: the
//! document must carry `title`, `description` and `type` keys, each holding a
//! string, and the `type` string must name a card type.

use vstd::prelude::*;

use crate::card::{card_type_of, CardType};
use crate::toml::{table_keys_unique, table_model, toml_get, TomlData, TomlType};

verus! {

/// A card template: the named fields the record-building step reads out of a
/// parsed document.
#[derive(Debug, PartialEq)]
pub struct TemplateInfo {
    pub card_type: CardType,
    pub title: String,
    pub desc: String,
}

/// A document with a missing field or one of the wrong type.
#[derive(Debug)]
pub struct TemplateError;

impl TemplateError {
    /// The diagnostic text of this error.
    pub fn message(&self) -> (r: String)
        ensures
            r@ == "Error in template: Missing field(s) or wrong type(s)."@,
    {
        "Error in template: Missing field(s) or wrong type(s).".to_owned()
    }
}

/// The template a parsed document describes, if its `title`, `description`
/// and `type` keys all hold strings and the `type` string names a card type.
pub open spec fn template_of(m: Map<Seq<char>, TomlData>) -> Option<(CardType, Seq<char>, Seq<
    char,
>)> {
    if m.contains_key("title"@) && m["title"@] is Str && m.contains_key("description"@)
        && m["description"@] is Str && m.contains_key("type"@) && m["type"@] is Str
        && card_type_of(m["type"@]->Str_0) is Some {
        Some(
            (
                card_type_of(m["type"@]->Str_0)->Some_0,
                m["title"@]->Str_0,
                m["description"@]->Str_0,
            ),
        )
    } else {
        None
    }
}

impl TemplateInfo {
    /// Read the template fields out of a parsed document.
    pub fn try_from(table: &Vec<(String, TomlType)>) -> (r: Result<TemplateInfo, TemplateError>)
        requires
            table_keys_unique(table@),
        ensures
            match template_of(table_model(table@)) {
                Some(t) => r matches Ok(info) && info.card_type == t.0 && info.title@ == t.1
                    && info.desc@ == t.2,
                None => r is Err,
            },
    {
        let title = match toml_get(table, "title") {
            Some(TomlType::String(t)) => t.clone(),
            _ => {
                return Err(TemplateError);
            },
        };
        let desc = match toml_get(table, "description") {
            Some(TomlType::String(t)) => t.clone(),
            _ => {
                return Err(TemplateError);
            },
        };
        let kind_name = match toml_get(table, "type") {
            Some(TomlType::String(t)) => t.clone(),
            _ => {
                return Err(TemplateError);
            },
        };
        let card_type = match CardType::from_str(kind_name.as_str()) {
            Ok(t) => t,
            Err(_) => {
                return Err(TemplateError);
            },
        };
        Ok(TemplateInfo { card_type, title, desc })
    }
}

} // verus!
