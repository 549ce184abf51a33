//! A small configuration-text library: a parser for a simplified, TOML-like
//! format (flat and sectioned key/value documents with scalar, string, array
//! and inline-table values), together with the card and name-generator types
//! that consume parsed documents.

mod card;
mod iterator;
mod laws;
mod name_generator;
mod narrator;
mod serialize;
mod template;
mod text;
mod toml;

pub use crate::card::{Card, CardInfo, CardType, CardTypeError};
pub use crate::iterator::{PairMatcher, TomlItem, TomlIterator};
pub use crate::laws::{
    dec_repr, lemma_comment_skipping, lemma_duplicate_key, lemma_duplicate_key_rejected,
    lemma_roundtrip_float, lemma_roundtrip_integer, lemma_section_scoping,
    lemma_unterminated_value, plain_char, plain_key, yields_key,
};
pub use crate::name_generator::{generate_character_name, parse_markov_file, MarkovChain};
pub use crate::narrator::Narrator;
pub use crate::serialize::{
    doc_serializable, lemma_serialize_roundtrip, scalar_ok, ser_doc, ser_value,
    serialize_document, serialize_value,
};
pub use crate::template::{TemplateError, TemplateInfo};
pub use crate::text::{chars_of, str_eq, string_from_chars};
pub use crate::toml::{
    parse_multiline_str, parse_toml, parse_toml_table_entry, parse_toml_value, toml_get, TomlError,
    TomlType,
};
