//! The value/table builder of the TOML-like format: typed values, the
//! mathematical model of a parsed document, and the value grammar that
//! interprets one raw value span.

use vstd::prelude::*;

use crate::iterator::{line_end, pm_step, triple_at, PairMatcher, TomlItem, TomlIterator};
use crate::text::{is_digit, is_line_ws, trim_spec};
use crate::text::{digit_char, lemma_trim_len, line_ws_char, push_range, string_from_chars, subvec, trim_vec};

verus! {

/// The two failure kinds a parse can report: `InvalidToml` for structural
/// violations (unmatched delimiters, a line without `=`, duplicate keys,
/// malformed quoting, integer overflow) and `ParsingError` for a value text
/// that matches none of the supported scalar or compound forms.
#[derive(Debug, Clone, Copy, PartialEq, Eq, Structural)]
pub enum TomlError {
    InvalidToml,
    ParsingError,
}

impl TomlError {
    /// The diagnostic text of this error.
    pub fn message(&self) -> (r: String)
        ensures
            r@ == "Error in TOML: wrong syntax or unimplemented features."@,
    {
        "Error in TOML: wrong syntax or unimplemented features.".to_owned()
    }
}

/// A typed value of the format. `Boolean` is reserved: the data model has the
/// tag, but no path of the value grammar currently produces it. A `Float`
/// carries the literal text that was recognised as a floating-point literal;
/// the text is kept verbatim so that no precision is lost. A `Table` holds
/// its entries as a vector of pairs whose keys are unique.
#[derive(Debug, PartialEq)]
pub enum TomlType {
    String(String),
    Boolean(bool),
    Array(Vec<TomlType>),
    Table(Vec<(String, TomlType)>),
    Integer(i64),
    Float(String),
}

/// The mathematical model of a value: strings as character sequences, arrays
/// as sequences, tables as maps from key to model.
#[verifier::ext_equal]
pub enum TomlData {
    Str(Seq<char>),
    Boolean(bool),
    Arr(Seq<TomlData>),
    Tbl(Map<Seq<char>, TomlData>),
    Int(int),
    Float(Seq<char>),
}

impl TomlType {
    /// The model of this value.
    pub open spec fn model(self) -> TomlData
        decreases self,
    {
        match self {
            TomlType::String(s) => TomlData::Str(s@),
            TomlType::Boolean(b) => TomlData::Boolean(b),
            TomlType::Array(v) => TomlData::Arr(seq_model(v@)),
            TomlType::Table(t) => TomlData::Tbl(table_model(t@)),
            TomlType::Integer(n) => TomlData::Int(n as int),
            TomlType::Float(f) => TomlData::Float(f@),
        }
    }

    /// Well-formedness: every table, at any depth, has pairwise distinct keys.
    pub open spec fn wf(self) -> bool
        decreases self,
    {
        match self {
            TomlType::Array(v) => seq_wf(v@),
            TomlType::Table(t) => table_keys_unique(t@) && entries_wf(t@),
            _ => true,
        }
    }
}

/// All elements of an array are well-formed.
pub open spec fn seq_wf(elems: Seq<TomlType>) -> bool
    decreases elems,
{
    elems.len() == 0 || (seq_wf(elems.drop_last()) && elems.last().wf())
}

/// All values of a table's entry list are well-formed.
pub open spec fn entries_wf(entries: Seq<(String, TomlType)>) -> bool
    decreases entries,
{
    entries.len() == 0 || (entries_wf(entries.drop_last()) && entries.last().1.wf())
}

pub proof fn lemma_seq_wf_iff(elems: Seq<TomlType>)
    ensures
        seq_wf(elems) <==> forall|k: int| 0 <= k < elems.len() ==> #[trigger] elems[k].wf(),
    decreases elems.len(),
{
    if elems.len() > 0 {
        lemma_seq_wf_iff(elems.drop_last());
        if forall|k: int| 0 <= k < elems.len() ==> #[trigger] elems[k].wf() {
            assert forall|k: int|
                0 <= k < elems.len() - 1 implies #[trigger] elems.drop_last()[k].wf() by {
                assert(elems.drop_last()[k] == elems[k]);
            }
            assert(elems[elems.len() - 1].wf());
            assert(seq_wf(elems));
        }
        if seq_wf(elems) {
            assert(elems.last().wf());
            assert forall|k: int| 0 <= k < elems.len() implies #[trigger] elems[k].wf() by {
                if k < elems.len() - 1 {
                    assert(elems.drop_last()[k].wf());
                    assert(elems.drop_last()[k] == elems[k]);
                } else {
                    assert(elems[k] == elems.last());
                }
            }
        }
    }
}

pub proof fn lemma_entries_wf_iff(entries: Seq<(String, TomlType)>)
    ensures
        entries_wf(entries) <==> forall|k: int|
            0 <= k < entries.len() ==> #[trigger] entries[k].1.wf(),
    decreases entries.len(),
{
    if entries.len() > 0 {
        lemma_entries_wf_iff(entries.drop_last());
        if forall|k: int| 0 <= k < entries.len() ==> #[trigger] entries[k].1.wf() {
            assert forall|k: int|
                0 <= k < entries.len() - 1 implies #[trigger] entries.drop_last()[k].1.wf() by {
                assert(entries.drop_last()[k] == entries[k]);
            }
            assert(entries[entries.len() - 1].1.wf());
            assert(entries_wf(entries));
        }
        if entries_wf(entries) {
            assert(entries.last().1.wf());
            assert forall|k: int| 0 <= k < entries.len() implies #[trigger] entries[k].1.wf() by {
                if k < entries.len() - 1 {
                    assert(entries.drop_last()[k].1.wf());
                    assert(entries.drop_last()[k] == entries[k]);
                } else {
                    assert(entries[k] == entries.last());
                }
            }
        }
    }
}

pub proof fn lemma_array_wf(v: Vec<TomlType>)
    requires
        forall|j: int| 0 <= j < v@.len() ==> #[trigger] v@[j].wf(),
    ensures
        TomlType::Array(v).wf(),
{
    lemma_seq_wf_iff(v@);
}

pub proof fn lemma_table_wf(t: Vec<(String, TomlType)>)
    requires
        table_keys_unique(t@),
        forall|j: int| 0 <= j < t@.len() ==> #[trigger] t@[j].1.wf(),
    ensures
        TomlType::Table(t).wf(),
{
    lemma_entries_wf_iff(t@);
}

/// The models of an array's elements, in order.
pub open spec fn seq_model(elems: Seq<TomlType>) -> Seq<TomlData>
    decreases elems,
{
    if elems.len() == 0 {
        Seq::empty()
    } else {
        seq_model(elems.drop_last()).push(elems.last().model())
    }
}

/// The map described by a table's entry list; a later entry for the same key
/// would win, but well-formed tables have unique keys.
pub open spec fn table_model(entries: Seq<(String, TomlType)>) -> Map<Seq<char>, TomlData>
    decreases entries,
{
    if entries.len() == 0 {
        Map::empty()
    } else {
        table_model(entries.drop_last()).insert(entries.last().0@, entries.last().1.model())
    }
}

pub open spec fn table_keys_unique(entries: Seq<(String, TomlType)>) -> bool {
    forall|i: int, j: int| 0 <= i < j < entries.len() ==> entries[i].0@ != entries[j].0@
}

// ---------------------------------------------------------------------------
// Scalar literal grammars
// ---------------------------------------------------------------------------
pub open spec fn all_digits(s: Seq<char>) -> bool {
    forall|k: int| 0 <= k < s.len() ==> is_digit(#[trigger] s[k])
}

/// Numeric value of a digit string.
pub open spec fn digits_val(s: Seq<char>) -> int
    decreases s.len(),
{
    if s.len() == 0 {
        0
    } else {
        digits_val(s.drop_last()) * 10 + (s.last() as int - '0' as int)
    }
}

/// A numeric literal with an optional leading minus sign removed.
pub open spec fn unsigned_part(s: Seq<char>) -> Seq<char> {
    if s.len() > 0 && s[0] == '-' {
        s.drop_first()
    } else {
        s
    }
}

/// A base-10 signed integer literal: an optional leading `-`, then digits,
/// with no leading `+`, no underscores, and no leading zero beyond the
/// literal `0` itself.
pub open spec fn is_int_literal(s: Seq<char>) -> bool {
    let d = unsigned_part(s);
    d.len() > 0 && all_digits(d) && (d.len() == 1 || d[0] != '0')
}

/// The value of an integer literal.
pub open spec fn int_literal_val(s: Seq<char>) -> int {
    if s.len() > 0 && s[0] == '-' {
        -digits_val(s.drop_first())
    } else {
        digits_val(s)
    }
}

/// The unsigned part `d` splits at position `p` into digits, a decimal
/// point, and digits.
pub open spec fn float_split_at(d: Seq<char>, p: int) -> bool {
    &&& 1 <= p <= d.len() - 2
    &&& d[p] == '.'
    &&& all_digits(d.subrange(0, p))
    &&& all_digits(d.subrange(p + 1, d.len() as int))
}

/// A base-10 floating-point literal: an optional leading `-`, then one or
/// more digits, a decimal point, and one or more digits. No `inf`/`nan`
/// keywords, no exponent, and the decimal point is required.
pub open spec fn is_float_literal(s: Seq<char>) -> bool {
    exists|p: int| #[trigger] float_split_at(unsigned_part(s), p)
}

pub open spec fn has_newline(s: Seq<char>) -> bool {
    exists|k: int| 0 <= k < s.len() && #[trigger] s[k] == '\n'
}

// ---------------------------------------------------------------------------
// Multi-line string reconstruction
// ---------------------------------------------------------------------------
/// Leading line whitespace (indentation) of one line removed.
pub open spec fn ltrim_line(s: Seq<char>) -> Seq<char>
    decreases s.len(),
{
    if s.len() > 0 && is_line_ws(s[0]) {
        ltrim_line(s.drop_first())
    } else {
        s
    }
}

/// The newline directly after the opening `"""` and the newline directly
/// before the closing `"""` belong to the delimiters, not to the content.
pub open spec fn strip_newline_edges(s: Seq<char>) -> Seq<char> {
    let a = if s.len() > 0 && s[0] == '\n' {
        s.drop_first()
    } else {
        s
    };
    if a.len() > 0 && a.last() == '\n' {
        a.drop_last()
    } else {
        a
    }
}

/// Join the lines of a triple-quoted interior, beginning with the line that
/// starts at position `i`: each line loses its leading indentation; a line
/// that ends in a backslash is a continuation (the backslash is removed and
/// no newline is inserted); any other line is followed by a newline, except
/// the final one.
pub open spec fn join_lines(s: Seq<char>, i: int) -> Seq<char>
    decreases s.len() - i,
    via join_lines_decreases
{
    if !(0 <= i <= s.len()) {
        Seq::empty()
    } else {
        let e = line_end(s, i);
        let line = ltrim_line(s.subrange(i, e));
        if e >= s.len() {
            if line.len() > 0 && line.last() == '\\' {
                line.drop_last()
            } else {
                line
            }
        } else {
            let rest = join_lines(s, e + 1);
            if line.len() > 0 && line.last() == '\\' {
                line.drop_last() + rest
            } else {
                line + seq!['\n'] + rest
            }
        }
    }
}

#[via_fn]
proof fn join_lines_decreases(s: Seq<char>, i: int) {
    if 0 <= i <= s.len() {
        crate::iterator::lemma_line_end_bounds(s, i);
    }
}

/// The content of a `"""..."""` value, given the text between the delimiters.
pub open spec fn multiline_val(interior: Seq<char>) -> Seq<char> {
    join_lines(strip_newline_edges(interior), 0)
}

// ---------------------------------------------------------------------------
// Splitting on top-level commas
// ---------------------------------------------------------------------------
/// Split `s[start..]` on the commas that occur outside any open delimiter,
/// scanning from position `i` with the given balance state. `None` means the
/// delimiter discipline failed (a mismatched closer, or an unclosed delimiter
/// at the end of the text).
pub open spec fn split_top(
    s: Seq<char>,
    i: int,
    start: int,
    stack: Seq<char>,
    triple: bool,
) -> Option<Seq<Seq<char>>>
    decreases s.len() - i,
{
    if i < 0 || i >= s.len() {
        if !triple && stack.len() == 0 {
            Some(seq![s.subrange(start, s.len() as int)])
        } else {
            None
        }
    } else if triple {
        if triple_at(s, i) {
            split_top(s, i + 3, start, stack, false)
        } else {
            split_top(s, i + 1, start, stack, true)
        }
    } else if stack.len() == 0 && s[i] == ',' {
        match split_top(s, i + 1, i + 1, stack, false) {
            None => None,
            Some(rest) => Some(seq![s.subrange(start, i)] + rest),
        }
    } else if (stack.len() == 0 || stack.last() != '"') && triple_at(s, i) {
        split_top(s, i + 3, start, stack, true)
    } else {
        match pm_step(stack, s[i]) {
            Some(st) => split_top(s, i + 1, start, st, false),
            None => None,
        }
    }
}

/// Termination measure for a piece list: total characters plus piece count.
pub open spec fn pieces_measure(pieces: Seq<Seq<char>>) -> int
    decreases pieces.len(),
{
    if pieces.len() == 0 {
        0
    } else {
        pieces[0].len() + 1 + pieces_measure(pieces.drop_first())
    }
}

pub proof fn lemma_pieces_measure_nonneg(pieces: Seq<Seq<char>>)
    ensures
        pieces_measure(pieces) >= 0,
    decreases pieces.len(),
{
    if pieces.len() > 0 {
        lemma_pieces_measure_nonneg(pieces.drop_first());
    }
}

pub proof fn lemma_split_top_measure(
    s: Seq<char>,
    i: int,
    start: int,
    stack: Seq<char>,
    triple: bool,
)
    requires
        0 <= start <= i <= s.len(),
        split_top(s, i, start, stack, triple) is Some,
    ensures
        pieces_measure(split_top(s, i, start, stack, triple)->Some_0) <= s.len() - start + 1,
    decreases s.len() - i,
{
    if i >= s.len() {
        let pieces = seq![s.subrange(start, s.len() as int)];
        assert(pieces.drop_first() =~= Seq::<Seq<char>>::empty());
        assert(pieces_measure(Seq::<Seq<char>>::empty()) == 0);
        assert(pieces_measure(pieces) <= s.len() - start + 1);
    } else if triple {
        if triple_at(s, i) {
            lemma_split_top_measure(s, i + 3, start, stack, false);
        } else {
            lemma_split_top_measure(s, i + 1, start, stack, true);
        }
        assert(pieces_measure(split_top(s, i, start, stack, triple)->Some_0) <= s.len() - start
            + 1);
    } else if stack.len() == 0 && s[i] == ',' {
        match split_top(s, i + 1, i + 1, stack, false) {
            None => {},
            Some(rest) => {
                lemma_split_top_measure(s, i + 1, i + 1, stack, false);
                let whole = seq![s.subrange(start, i)] + rest;
                assert(whole.drop_first() =~= rest);
                assert(whole[0].len() == i - start);
                assert(pieces_measure(whole) <= s.len() - start + 1);
            },
        }
    } else if (stack.len() == 0 || stack.last() != '"') && triple_at(s, i) {
        lemma_split_top_measure(s, i + 3, start, stack, true);
        assert(pieces_measure(split_top(s, i, start, stack, triple)->Some_0) <= s.len() - start
            + 1);
    } else {
        match pm_step(stack, s[i]) {
            Some(st) => {
                lemma_split_top_measure(s, i + 1, start, st, false);
                assert(pieces_measure(split_top(s, i, start, stack, triple)->Some_0) <= s.len()
                    - start + 1);
            },
            None => {},
        }
    }
}

// ---------------------------------------------------------------------------
// The value grammar
// ---------------------------------------------------------------------------
/// Interpret one trimmed raw value span. The alternatives are tried in this
/// order, and the order is part of the contract: triple-quoted string, plain
/// quoted string, array, inline table, integer, float; anything else is a
/// `ParsingError`. An integer literal whose value does not fit in `i64`
/// fails with `InvalidToml` rather than wrapping.
pub open spec fn parse_value_spec(s: Seq<char>) -> Result<TomlData, TomlError>
    decreases s.len(),
    via parse_value_spec_decreases
{
    if s.len() >= 3 && s[0] == '"' && s[1] == '"' && s[2] == '"' {
        if s.len() >= 6 && s[s.len() - 3] == '"' && s[s.len() - 2] == '"' && s[s.len() - 1]
            == '"' {
            Ok(TomlData::Str(multiline_val(s.subrange(3, s.len() - 3))))
        } else {
            Err(TomlError::InvalidToml)
        }
    } else if s.len() >= 1 && s[0] == '"' {
        if s.len() >= 2 && s.last() == '"' && !has_newline(s) {
            Ok(TomlData::Str(s.subrange(1, s.len() - 1)))
        } else {
            Err(TomlError::InvalidToml)
        }
    } else if s.len() >= 1 && s[0] == '[' {
        if s.len() >= 2 && s.last() == ']' {
            let interior = s.subrange(1, s.len() - 1);
            if trim_spec(interior).len() == 0 {
                Ok(TomlData::Arr(Seq::empty()))
            } else {
                match split_top(interior, 0, 0, Seq::empty(), false) {
                    None => Err(TomlError::InvalidToml),
                    Some(pieces) => match parse_items(pieces) {
                        Ok(vs) => Ok(TomlData::Arr(vs)),
                        Err(e) => Err(e),
                    },
                }
            }
        } else {
            Err(TomlError::InvalidToml)
        }
    } else if s.len() >= 1 && s[0] == '{' {
        if s.len() >= 2 && s.last() == '}' {
            let interior = s.subrange(1, s.len() - 1);
            match split_top(interior, 0, 0, Seq::empty(), false) {
                None => Err(TomlError::InvalidToml),
                Some(pieces) => match parse_table_items(pieces, Map::empty()) {
                    Ok(m) => Ok(TomlData::Tbl(m)),
                    Err(e) => Err(e),
                },
            }
        } else {
            Err(TomlError::InvalidToml)
        }
    } else if is_int_literal(s) {
        if -0x8000_0000_0000_0000 <= int_literal_val(s) <= 0x7fff_ffff_ffff_ffff {
            Ok(TomlData::Int(int_literal_val(s)))
        } else {
            Err(TomlError::InvalidToml)
        }
    } else if is_float_literal(s) {
        Ok(TomlData::Float(s))
    } else {
        Err(TomlError::ParsingError)
    }
}

#[via_fn]
proof fn parse_value_spec_decreases(s: Seq<char>) {
    if s.len() >= 2 {
        let interior = s.subrange(1, s.len() - 1);
        if split_top(interior, 0, 0, Seq::empty(), false) is Some {
            lemma_split_top_measure(interior, 0, 0, Seq::empty(), false);
            lemma_pieces_measure_nonneg(split_top(interior, 0, 0, Seq::empty(), false)->Some_0);
        }
    }
}

/// The elements of an array: each piece trimmed and parsed in order; the
/// first failure wins.
pub open spec fn parse_items(pieces: Seq<Seq<char>>) -> Result<Seq<TomlData>, TomlError>
    decreases pieces_measure(pieces),
    via parse_items_decreases
{
    if pieces.len() == 0 {
        Ok(Seq::empty())
    } else {
        match parse_value_spec(trim_spec(pieces[0])) {
            Err(e) => Err(e),
            Ok(v) => match parse_items(pieces.drop_first()) {
                Err(e) => Err(e),
                Ok(rest) => Ok(seq![v] + rest),
            },
        }
    }
}

#[via_fn]
proof fn parse_items_decreases(pieces: Seq<Seq<char>>) {
    if pieces.len() > 0 {
        lemma_trim_len(pieces[0]);
        lemma_pieces_measure_nonneg(pieces.drop_first());
        lemma_pieces_measure_nonneg(pieces);
    }
}

/// The entries of an inline table: pieces that trim to nothing are skipped;
/// every other piece must contain an `=`; its key is the trimmed text before
/// the first `=` and its value the trimmed text after it, parsed through the
/// value grammar. A key already present in the same inline table fails with
/// `InvalidToml`.
pub open spec fn parse_table_items(
    pieces: Seq<Seq<char>>,
    acc: Map<Seq<char>, TomlData>,
) -> Result<Map<Seq<char>, TomlData>, TomlError>
    decreases pieces_measure(pieces),
    via parse_table_items_decreases
{
    if pieces.len() == 0 {
        Ok(acc)
    } else {
        let piece = pieces[0];
        if trim_spec(piece).len() == 0 {
            parse_table_items(pieces.drop_first(), acc)
        } else {
            match crate::iterator::find_eq(piece, 0, piece.len() as int) {
                None => Err(TomlError::InvalidToml),
                Some(e) => {
                    let key = trim_spec(piece.subrange(0, e));
                    match parse_value_spec(trim_spec(piece.subrange(e + 1, piece.len() as int))) {
                        Err(err) => Err(err),
                        Ok(v) => if acc.contains_key(key) {
                            Err(TomlError::InvalidToml)
                        } else {
                            parse_table_items(pieces.drop_first(), acc.insert(key, v))
                        },
                    }
                },
            }
        }
    }
}

#[via_fn]
proof fn parse_table_items_decreases(pieces: Seq<Seq<char>>, acc: Map<Seq<char>, TomlData>) {
    if pieces.len() > 0 {
        let piece = pieces[0];
        lemma_pieces_measure_nonneg(pieces.drop_first());
        lemma_pieces_measure_nonneg(pieces);
        match crate::iterator::find_eq(piece, 0, piece.len() as int) {
            None => {},
            Some(e) => {
                crate::iterator::lemma_find_eq_bounds(piece, 0, piece.len() as int);
                lemma_trim_len(piece.subrange(e + 1, piece.len() as int));
            },
        }
    }
}

// ---------------------------------------------------------------------------
// Whole-document parsing
// ---------------------------------------------------------------------------
/// Parse one scope of `s` starting at position `i`, extending the entries
/// already in `acc`. At the top level (`top`) a section header opens a fresh
/// scope for its body and the resulting table is inserted under the section
/// name beside the plain keys; the grammar has a single level of sectioning,
/// so inside a section body a header is malformed (by construction the body
/// text never contains one). A key already present in the same scope fails
/// with `InvalidToml`.
pub open spec fn parse_scope(
    s: Seq<char>,
    i: int,
    acc: Map<Seq<char>, TomlData>,
    top: bool,
) -> Result<Map<Seq<char>, TomlData>, TomlError>
    decreases s.len(), s.len() - i,
    via parse_scope_decreases
{
    if !(0 <= i <= s.len()) {
        Err(TomlError::InvalidToml)
    } else {
        match crate::iterator::seg_step(s, i) {
            crate::iterator::SegStep::Done => Ok(acc),
            crate::iterator::SegStep::Fail => Err(TomlError::InvalidToml),
            crate::iterator::SegStep::Entry { key, raw, next } => match parse_value_spec(raw) {
                Err(e) => Err(e),
                Ok(v) => if acc.contains_key(key) {
                    Err(TomlError::InvalidToml)
                } else {
                    parse_scope(s, next, acc.insert(key, v), top)
                },
            },
            crate::iterator::SegStep::Section { name, body, next } => if !top {
                Err(TomlError::InvalidToml)
            } else {
                match parse_scope(body, 0, Map::empty(), false) {
                    Err(e) => Err(e),
                    Ok(m) => if acc.contains_key(name) {
                        Err(TomlError::InvalidToml)
                    } else {
                        parse_scope(s, next, acc.insert(name, TomlData::Tbl(m)), top)
                    },
                }
            },
        }
    }
}

#[via_fn]
proof fn parse_scope_decreases(s: Seq<char>, i: int, acc: Map<Seq<char>, TomlData>, top: bool) {
    if 0 <= i <= s.len() {
        crate::iterator::lemma_seg_step_next(s, i);
    }
}

/// The model of a whole parse: the document text segmented and built from
/// position zero into an empty top-level scope.
pub open spec fn parse_toml_spec(s: Seq<char>) -> Result<Map<Seq<char>, TomlData>, TomlError> {
    parse_scope(s, 0, Map::empty(), true)
}

// ---------------------------------------------------------------------------
// Executable building blocks
// ---------------------------------------------------------------------------
fn contains_newline(v: &Vec<char>) -> (r: bool)
    ensures
        r == has_newline(v@),
{
    let n = v.len();
    let mut i: usize = 0;
    while i < n
        invariant
            i <= n == v@.len(),
            forall|k: int| 0 <= k < i ==> v@[k] != '\n',
        decreases n - i,
    {
        if v[i] == '\n' {
            return true;
        }
        i += 1;
    }
    false
}

pub proof fn lemma_ltrim_line_range(s: Seq<char>, lo: int)
    requires
        0 <= lo <= s.len(),
        forall|k: int| 0 <= k < lo ==> is_line_ws(s[k]),
        lo == s.len() || !is_line_ws(s[lo]),
    ensures
        ltrim_line(s) =~= s.subrange(lo, s.len() as int),
    decreases lo,
{
    if lo == 0 {
        if s.len() > 0 && is_line_ws(s[0]) {
            assert(false);
        }
    } else {
        lemma_ltrim_line_range(s.drop_first(), lo - 1);
        assert(s.drop_first().subrange(lo - 1, s.drop_first().len() as int) =~= s.subrange(
            lo,
            s.len() as int,
        ));
    }
}

/// Reconstruct the content of a triple-quoted string from the text between
/// its `"""` delimiters, line by line, as `multiline_val` describes.
pub fn parse_multiline_str(interior: &Vec<char>) -> (r: Vec<char>)
    ensures
        r@ == multiline_val(interior@),
{
    let n = interior.len();
    let lo: usize = if n > 0 && interior[0] == '\n' {
        1
    } else {
        0
    };
    let hi: usize = if n > lo && interior[n - 1] == '\n' {
        n - 1
    } else {
        n
    };
    let core = subvec(interior, lo, hi);
    proof {
        assert(core@ =~= strip_newline_edges(interior@));
    }
    let m = core.len();
    let mut out: Vec<char> = Vec::new();
    let mut i: usize = 0;
    loop
        invariant_except_break
            join_lines(core@, 0) == out@ + join_lines(core@, i as int),
        invariant
            i <= m == core@.len(),
        ensures
            out@ == join_lines(core@, 0),
        decreases m - i,
    {
        // end of the current line
        let mut e = i;
        while e < m && core[e] != '\n'
            invariant
                i <= e <= m == core@.len(),
                line_end(core@, i as int) == line_end(core@, e as int),
            decreases m - e,
        {
            e += 1;
        }
        proof {
            assert(line_end(core@, i as int) == e as int);
        }
        // leading indentation of the line
        let mut lt = i;
        while lt < e && line_ws_char(core[lt])
            invariant
                i <= lt <= e <= m == core@.len(),
                forall|k: int| i <= k < lt ==> is_line_ws(core@[k]),
            decreases e - lt,
        {
            lt += 1;
        }
        proof {
            let raw = core@.subrange(i as int, e as int);
            lemma_ltrim_line_range(raw, lt - i);
            assert(raw.subrange(lt - i, raw.len() as int) =~= core@.subrange(
                lt as int,
                e as int,
            ));
        }
        let ghost line = ltrim_line(core@.subrange(i as int, e as int));
        let ghost prev = out@;
        if e >= m {
            // the final line never receives a trailing newline
            if lt < e && core[e - 1] == '\\' {
                proof {
                    assert(line.drop_last() =~= core@.subrange(lt as int, e - 1));
                }
                push_range(&mut out, &core, lt, e - 1);
            } else {
                push_range(&mut out, &core, lt, e);
            }
            assert(out@ =~= prev + join_lines(core@, i as int));
            break ;
        } else {
            if lt < e && core[e - 1] == '\\' {
                // line continuation: drop the backslash, insert no newline
                proof {
                    assert(line.drop_last() =~= core@.subrange(lt as int, e - 1));
                }
                push_range(&mut out, &core, lt, e - 1);
                proof {
                    assert(prev + (line.drop_last() + join_lines(core@, e + 1)) =~= out@
                        + join_lines(core@, e + 1));
                }
            } else {
                push_range(&mut out, &core, lt, e);
                out.push('\n');
                proof {
                    assert(out@ =~= prev + line + seq!['\n']);
                    assert(prev + (line + seq!['\n'] + join_lines(core@, e + 1)) =~= out@
                        + join_lines(core@, e + 1));
                }
            }
            i = e + 1;
        }
    }
    out
}

// ---------------------------------------------------------------------------
// Scalar literal recognition
// ---------------------------------------------------------------------------
pub proof fn lemma_digits_val_nonneg(d: Seq<char>)
    requires
        all_digits(d),
    ensures
        digits_val(d) >= 0,
    decreases d.len(),
{
    if d.len() > 0 {
        assert(all_digits(d.drop_last())) by {
            assert(forall|k: int|
                0 <= k < d.len() - 1 ==> is_digit(#[trigger] d.drop_last()[k]) == is_digit(d[k]));
        }
        lemma_digits_val_nonneg(d.drop_last());
        assert(is_digit(d[d.len() - 1]));
    }
}

/// A digit string's value only grows as digits are appended.
pub proof fn lemma_digits_prefix_le(d: Seq<char>, k: int)
    requires
        all_digits(d),
        0 <= k <= d.len(),
    ensures
        digits_val(d.subrange(0, k)) <= digits_val(d),
    decreases d.len() - k,
{
    assert(all_digits(d.subrange(0, k)));
    if k == d.len() {
        assert(d.subrange(0, k) =~= d);
    } else {
        lemma_digits_prefix_le(d, k + 1);
        let a = d.subrange(0, k);
        let b = d.subrange(0, k + 1);
        assert(b.drop_last() =~= a);
        lemma_digits_val_nonneg(a);
        assert(is_digit(b.last()));
        assert(digits_val(b) == digits_val(a) * 10 + (b.last() as int - '0' as int));
    }
}

/// Whether the trimmed text is an integer literal of the value grammar.
#[verifier::loop_isolation(false)]
fn is_int_literal_exec(v: &Vec<char>) -> (r: bool)
    ensures
        r == is_int_literal(v@),
{
    let n = v.len();
    let start: usize = if n > 0 && v[0] == '-' {
        1
    } else {
        0
    };
    let ghost d = unsigned_part(v@);
    proof {
        assert(d =~= v@.subrange(start as int, n as int));
    }
    if n == start {
        return false;
    }
    let mut i: usize = start;
    while i < n
        invariant
            start <= i <= n == v@.len(),
            forall|k: int| start <= k < i ==> is_digit(#[trigger] v@[k]),
        decreases n - i,
    {
        if !digit_char(v[i]) {
            assert(!is_digit(d[i - start]));
            return false;
        }
        i += 1;
    }
    assert(all_digits(d));
    if n - start > 1 && v[start] == '0' {
        return false;
    }
    true
}

/// The value of an integer literal, if it fits in `i64`; `None` exactly when
/// it is out of range.
#[verifier::loop_isolation(false)]
fn int_value_exec(v: &Vec<char>) -> (r: Option<i64>)
    requires
        is_int_literal(v@),
    ensures
        match r {
            Some(x) => x as int == int_literal_val(v@),
            None => !(-0x8000_0000_0000_0000 <= int_literal_val(v@) <= 0x7fff_ffff_ffff_ffff),
        },
{
    let n = v.len();
    let neg = v[0] == '-';
    let start: usize = if neg {
        1
    } else {
        0
    };
    let ghost d = unsigned_part(v@);
    proof {
        assert(d =~= v@.subrange(start as int, n as int));
    }
    let mut acc: u64 = 0;
    let mut i: usize = start;
    while i < n
        invariant
            start <= i <= n == v@.len(),
            d =~= v@.subrange(start as int, n as int),
            all_digits(d),
            n - start == d.len(),
            neg == (v@[0] == '-'),
            acc as int == digits_val(d.subrange(0, i - start)),
            acc <= 0x8000_0000_0000_0000u64,
        decreases n - i,
    {
        proof {
            assert(is_digit(d[i - start]));
            assert('0' <= v@[i as int] <= '9');
        }
        let dig: u64 = (v[i] as u32 - '0' as u32) as u64;
        proof {
            assert(dig <= 9);
            assert(dig as int == v@[i as int] as int - '0' as int);
        }
        if acc > 1_844_674_407_370_955_160u64 {
            // the value already exceeds the i64 range, and appending digits
            // only grows it
            proof {
                assert(d.subrange(0, i - start + 1).drop_last() =~= d.subrange(0, i - start));
                lemma_digits_val_nonneg(d.subrange(0, i - start));
                assert(digits_val(d.subrange(0, i - start + 1)) > 0x8000_0000_0000_0000);
                lemma_digits_prefix_le(d, i - start + 1);
                assert(d.subrange(0, d.len() as int) =~= d);
            }
            return None;
        }
        acc = acc * 10 + dig;
        proof {
            assert(d.subrange(0, i - start + 1).drop_last() =~= d.subrange(0, i - start));
            assert(acc as int == digits_val(d.subrange(0, i - start + 1)));
        }
        if acc > 0x8000_0000_0000_0000u64 {
            proof {
                lemma_digits_prefix_le(d, i - start + 1);
                assert(d.subrange(0, d.len() as int) =~= d);
            }
            return None;
        }
        i += 1;
    }
    proof {
        assert(d.subrange(0, d.len() as int) =~= d);
        assert(acc as int == digits_val(d));
    }
    if neg {
        if acc == 0x8000_0000_0000_0000u64 {
            Some(i64::MIN)
        } else {
            Some(-(acc as i64))
        }
    } else {
        if acc >= 0x8000_0000_0000_0000u64 {
            None
        } else {
            Some(acc as i64)
        }
    }
}

/// Whether the trimmed text is a floating-point literal of the value
/// grammar: optional `-`, digits, `.`, digits.
#[verifier::loop_isolation(false)]
fn is_float_literal_exec(v: &Vec<char>) -> (r: bool)
    ensures
        r == is_float_literal(v@),
{
    let n = v.len();
    let start: usize = if n > 0 && v[0] == '-' {
        1
    } else {
        0
    };
    let ghost d = unsigned_part(v@);
    proof {
        assert(d =~= v@.subrange(start as int, n as int));
    }
    let mut i: usize = start;
    while i < n && digit_char(v[i])
        invariant
            start <= i <= n == v@.len(),
            forall|k: int| start <= k < i ==> is_digit(#[trigger] v@[k]),
        decreases n - i,
    {
        i += 1;
    }
    if i == start {
        // no digit before the decimal point: no split position works
        proof {
            assert forall|p: int| !#[trigger] float_split_at(d, p) by {
                if float_split_at(d, p) {
                    assert(is_digit(d.subrange(0, p)[0]));
                }
            }
        }
        return false;
    }
    if i >= n || v[i] != '.' {
        // the character after the leading digit run is not a decimal point
        proof {
            assert forall|p: int| !#[trigger] float_split_at(d, p) by {
                let q = i - start;
                if float_split_at(d, p) {
                    // the digit run cannot contain the point, so p >= q; and
                    // if p > q, position q would have to be a digit
                    if p < q {
                        assert(is_digit(v@[start + p]));
                    } else if p > q {
                        assert(is_digit(d.subrange(0, p)[q]));
                        assert(false);
                    }
                }
            }
        }
        return false;
    }
    // the decimal point stands at i
    let p = i;
    i += 1;
    if i >= n {
        // nothing after the decimal point
        proof {
            assert forall|q: int| !#[trigger] float_split_at(d, q) by {
                let pr = p - start;
                if float_split_at(d, q) {
                    if q < pr {
                        assert(is_digit(v@[start + q]));
                    } else if q > pr {
                        assert(is_digit(d.subrange(0, q)[pr]));
                        assert(false);
                    }
                }
            }
        }
        return false;
    }
    while i < n
        invariant
            p < i <= n == v@.len(),
            start <= p,
            forall|k: int| start <= k < p ==> is_digit(#[trigger] v@[k]),
            forall|k: int| p < k < i ==> is_digit(#[trigger] v@[k]),
            v@[p as int] == '.',
            p + 1 < n,
            sign_offset(v@, start as int),
            d =~= v@.subrange(start as int, n as int),
        decreases n - i,
    {
        if !digit_char(v[i]) {
            // a non-digit after the decimal point: no split position works
            proof {
                let bad = i;
                assert forall|q: int| !#[trigger] float_split_at(d, q) by {
                    let pr = p - start;
                    if float_split_at(d, q) {
                        if q < pr {
                            assert(is_digit(v@[start + q]));
                        } else if q > pr {
                            assert(is_digit(d.subrange(0, q)[pr]));
                            assert(false);
                        } else {
                            assert(is_digit(d.subrange(q + 1, d.len() as int)[bad - start - q
                                - 1]));
                            assert(false);
                        }
                    }
                }
            }
            return false;
        }
        i += 1;
    }
    proof {
        let pr = p - start;
        assert(d[pr] == '.');
        assert(1 <= pr <= d.len() - 2);
        assert(all_digits(d.subrange(0, pr))) by {
            assert forall|k: int| 0 <= k < pr implies is_digit(#[trigger] d.subrange(0, pr)[k]) by {
                assert(d.subrange(0, pr)[k] == v@[start + k]);
            }
        }
        assert(all_digits(d.subrange(pr + 1, d.len() as int))) by {
            assert forall|k: int| 0 <= k < d.len() - pr - 1 implies is_digit(
                #[trigger] d.subrange(pr + 1, d.len() as int)[k],
            ) by {
                assert(d.subrange(pr + 1, d.len() as int)[k] == v@[start + pr + 1 + k]);
            }
        }
        assert(float_split_at(d, pr));
    }
    true
}

/// `start` is the scan offset that skips an optional leading minus sign.
pub open spec fn sign_offset(s: Seq<char>, start: int) -> bool {
    start == if s.len() > 0 && s[0] == '-' {
        1int
    } else {
        0int
    }
}

// ---------------------------------------------------------------------------
// Splitting and assembling compound values
// ---------------------------------------------------------------------------
/// The character sequences of a vector of pieces.
pub open spec fn pieces_view(ps: Seq<Vec<char>>) -> Seq<Seq<char>> {
    Seq::new(ps.len(), |k: int| ps[k]@)
}

/// Every piece of a split fits inside the text it was cut from.
pub proof fn lemma_piece_le_measure(ps: Seq<Seq<char>>, k: int)
    requires
        0 <= k < ps.len(),
    ensures
        ps[k].len() + 1 <= pieces_measure(ps),
    decreases k,
{
    lemma_pieces_measure_nonneg(ps.drop_first());
    if k > 0 {
        lemma_piece_le_measure(ps.drop_first(), k - 1);
        lemma_pieces_measure_nonneg(ps);
    }
}

/// Split the text on the commas that occur outside any open delimiter, as
/// `split_top` describes.
#[verifier::loop_isolation(false)]
fn split_exec(v: &Vec<char>) -> (r: Result<Vec<Vec<char>>, TomlError>)
    ensures
        match split_top(v@, 0, 0, Seq::empty(), false) {
            Some(ps) => r matches Ok(pieces) && pieces_view(pieces@) == ps,
            None => r matches Err(e) && e == TomlError::InvalidToml,
        },
{
    let n = v.len();
    let mut pm = PairMatcher::new();
    let mut triple = false;
    let mut i: usize = 0;
    let mut st: usize = 0;
    let mut pieces: Vec<Vec<char>> = Vec::new();
    loop
        invariant
            st <= i <= n,
            pm.wf(),
            match split_top(v@, i as int, st as int, pm.stack(), triple) {
                Some(rest) => split_top(v@, 0, 0, Seq::empty(), false) == Some(
                    pieces_view(pieces@) + rest,
                ),
                None => split_top(v@, 0, 0, Seq::empty(), false) is None,
            },
        decreases n - i,
    {
        if i >= n {
            if !triple && pm.valid() {
                let ghost w = pieces_view(pieces@);
                let piece = subvec(v, st, n);
                pieces.push(piece);
                proof {
                    assert(pieces_view(pieces@) =~= w + seq![v@.subrange(st as int, n as int)]);
                }
                return Ok(pieces);
            } else {
                return Err(TomlError::InvalidToml);
            }
        }
        let c = v[i];
        let is_triple = n - i >= 3 && c == '"' && v[i + 1] == '"' && v[i + 2] == '"';
        assert(is_triple == triple_at(v@, i as int));
        if triple {
            if is_triple {
                i += 3;
                triple = false;
            } else {
                i += 1;
            }
        } else if pm.valid() && c == ',' {
            let ghost w = pieces_view(pieces@);
            let piece = subvec(v, st, i);
            pieces.push(piece);
            proof {
                let x = v@.subrange(st as int, i as int);
                assert(pieces_view(pieces@) =~= w + seq![x]);
                match split_top(v@, i + 1, i + 1, pm.stack(), false) {
                    Some(rest2) => {
                        assert((w + seq![x]) + rest2 =~= w + (seq![x] + rest2));
                    },
                    None => {},
                }
            }
            i += 1;
            st = i;
        } else if !pm.in_string() && is_triple {
            i += 3;
            triple = true;
        } else {
            match pm.add_char(c) {
                Ok(()) => {
                    i += 1;
                },
                Err(e) => {
                    return Err(e);
                },
            }
        }
    }
}

/// Whether the key list of a table already holds `key`, and where.
pub proof fn lemma_table_model_contains(entries: Seq<(String, TomlType)>, key: Seq<char>)
    ensures
        table_model(entries).contains_key(key) <==> exists|i: int|
            0 <= i < entries.len() && #[trigger] entries[i].0@ == key,
    decreases entries.len(),
{
    if entries.len() > 0 {
        lemma_table_model_contains(entries.drop_last(), key);
        if table_model(entries).contains_key(key) {
            if entries.last().0@ != key {
                let i = choose|i: int|
                    0 <= i < entries.drop_last().len() && #[trigger] entries.drop_last()[i].0@
                        == key;
                assert(entries[i].0@ == key);
            }
        }
        if exists|i: int| 0 <= i < entries.len() && #[trigger] entries[i].0@ == key {
            let i = choose|i: int| 0 <= i < entries.len() && #[trigger] entries[i].0@ == key;
            if i < entries.len() - 1 {
                assert(entries.drop_last()[i].0@ == key);
            }
        }
    }
}

/// In a table with unique keys, the model maps each key to the model of its
/// entry's value.
pub proof fn lemma_table_model_at(entries: Seq<(String, TomlType)>, i: int)
    requires
        table_keys_unique(entries),
        0 <= i < entries.len(),
    ensures
        table_model(entries).contains_key(entries[i].0@),
        table_model(entries)[entries[i].0@] == entries[i].1.model(),
    decreases entries.len(),
{
    if i < entries.len() - 1 {
        lemma_table_model_at(entries.drop_last(), i);
        assert(entries.drop_last()[i] == entries[i]);
        assert(entries.last().0@ != entries[i].0@);
    }
}

/// Linear search of a table's entry list for a key.
#[verifier::loop_isolation(false)]
fn table_contains(entries: &Vec<(String, TomlType)>, key: &String) -> (r: bool)
    ensures
        r == table_model(entries@).contains_key(key@),
{
    let n = entries.len();
    let mut i: usize = 0;
    while i < n
        invariant
            i <= n,
            forall|j: int| 0 <= j < i ==> #[trigger] entries@[j].0@ != key@,
        decreases n - i,
    {
        if entries[i].0 == *key {
            proof {
                lemma_table_model_contains(entries@, key@);
            }
            return true;
        }
        i += 1;
    }
    proof {
        lemma_table_model_contains(entries@, key@);
    }
    false
}

/// First `=` anywhere in the piece, if any.
#[verifier::loop_isolation(false)]
fn find_eq_exec(v: &Vec<char>) -> (r: Option<usize>)
    ensures
        match r {
            Some(e) => crate::iterator::find_eq(v@, 0, v@.len() as int) == Some(e as int),
            None => crate::iterator::find_eq(v@, 0, v@.len() as int) is None,
        },
{
    let n = v.len();
    let mut i: usize = 0;
    while i < n
        invariant
            i <= n,
            crate::iterator::find_eq(v@, 0, n as int) == crate::iterator::find_eq(
                v@,
                i as int,
                n as int,
            ),
        decreases n - i,
    {
        if v[i] == '=' {
            return Some(i);
        }
        i += 1;
    }
    None
}

/// The elements of an array: each piece trimmed and parsed in order through
/// the value grammar; the first failure wins.
#[verifier::loop_isolation(false)]
fn parse_array_exec(pieces: Vec<Vec<char>>) -> (r: Result<Vec<TomlType>, TomlError>)
    ensures
        match parse_items(pieces_view(pieces@)) {
            Ok(vs) => r matches Ok(arr) && seq_model(arr@) == vs && (forall|j: int|
                0 <= j < arr@.len() ==> #[trigger] arr@[j].wf()),
            Err(e) => r matches Err(e2) && e2 == e,
        },
    decreases pieces_measure(pieces_view(pieces@)),
{
    let ghost ps = pieces_view(pieces@);
    proof {
        lemma_pieces_measure_nonneg(ps);
    }
    let mut arr: Vec<TomlType> = Vec::new();
    let mut k: usize = 0;
    let np = pieces.len();
    proof {
        assert(ps.skip(0) =~= ps);
        assert(seq_model(arr@) =~= Seq::<TomlData>::empty());
        match parse_items(ps) {
            Ok(rest) => {
                assert(seq_model(arr@) + rest =~= rest);
            },
            Err(_) => {},
        }
    }
    while k < np
        invariant
            k <= np,
            seq_model(arr@).len() == arr@.len() == k,
            forall|j: int| 0 <= j < k ==> #[trigger] arr@[j].wf(),
            match parse_items(ps.skip(k as int)) {
                Ok(rest) => parse_items(ps) == Ok::<_, TomlError>(seq_model(arr@) + rest),
                Err(e) => parse_items(ps) == Err::<Seq<TomlData>, _>(e),
            },
        decreases np - k,
    {
        let t = trim_vec(&pieces[k]);
        proof {
            lemma_piece_le_measure(ps, k as int);
            lemma_trim_len(ps[k as int]);
            assert(ps.skip(k as int)[0] == ps[k as int]);
        }
        match parse_toml_value(&t) {
            Err(e) => {
                proof {
                    assert(parse_items(ps.skip(k as int)) == Err::<Seq<TomlData>, _>(e));
                }
                return Err(e);
            },
            Ok(val) => {
                let ghost prev = arr@;
                arr.push(val);
                proof {
                    assert(arr@.drop_last() =~= prev);
                    assert(ps.skip(k as int).drop_first() =~= ps.skip(k + 1 as int));
                    match parse_items(ps.skip(k + 1 as int)) {
                        Ok(rest2) => {
                            assert(seq_model(prev) + (seq![val.model()] + rest2) =~= seq_model(
                                arr@,
                            ) + rest2);
                        },
                        Err(_) => {},
                    }
                }
                k += 1;
            },
        }
    }
    proof {
        assert(ps.skip(np as int) =~= Seq::<Seq<char>>::empty());
        assert(parse_items(ps) == Ok::<_, TomlError>(seq_model(arr@) + Seq::<TomlData>::empty()));
        assert(seq_model(arr@) + Seq::<TomlData>::empty() =~= seq_model(arr@));
    }
    Ok(arr)
}

/// The entries of an inline table: pieces that trim to nothing are skipped;
/// every other piece is split at its first `=` into a trimmed key and a
/// trimmed value text parsed through the value grammar; a duplicate key
/// within the same inline table is malformed.
#[verifier::loop_isolation(false)]
fn parse_inline_table_exec(pieces: Vec<Vec<char>>) -> (r: Result<
    Vec<(String, TomlType)>,
    TomlError,
>)
    ensures
        match parse_table_items(pieces_view(pieces@), Map::empty()) {
            Ok(m) => r matches Ok(tbl) && table_model(tbl@) == m && table_keys_unique(tbl@) && (
            forall|j: int| 0 <= j < tbl@.len() ==> #[trigger] tbl@[j].1.wf()),
            Err(e) => r matches Err(e2) && e2 == e,
        },
    decreases pieces_measure(pieces_view(pieces@)),
{
    let ghost ps = pieces_view(pieces@);
    proof {
        lemma_pieces_measure_nonneg(ps);
    }
    let mut tbl: Vec<(String, TomlType)> = Vec::new();
    let mut k: usize = 0;
    let np = pieces.len();
    proof {
        assert(ps.skip(0) =~= ps);
        assert(tbl@ =~= Seq::<(String, TomlType)>::empty());
        assert(table_model(tbl@) =~= Map::<Seq<char>, TomlData>::empty());
    }
    while k < np
        invariant
            k <= np,
            table_keys_unique(tbl@),
            forall|j: int| 0 <= j < tbl@.len() ==> #[trigger] tbl@[j].1.wf(),
            match parse_table_items(ps.skip(k as int), table_model(tbl@)) {
                Ok(m) => parse_table_items(ps, Map::empty()) == Ok::<_, TomlError>(m),
                Err(e) => parse_table_items(ps, Map::empty()) == Err::<
                    Map<Seq<char>, TomlData>,
                    _,
                >(e),
            },
        decreases np - k,
    {
        proof {
            lemma_piece_le_measure(ps, k as int);
            assert(ps.skip(k as int)[0] == ps[k as int]);
            assert(ps.skip(k as int).drop_first() =~= ps.skip(k + 1 as int));
        }
        let t = trim_vec(&pieces[k]);
        if t.len() == 0 {
            k += 1;
            continue ;
        }
        match find_eq_exec(&pieces[k]) {
            None => {
                return Err(TomlError::InvalidToml);
            },
            Some(e) => {
                proof {
                    crate::iterator::lemma_find_eq_bounds(ps[k as int], 0, ps[k as int].len() as int);
                }
                let piece_len = pieces[k].len();
                let key = trim_vec(&subvec(&pieces[k], 0, e));
                let valtext = trim_vec(&subvec(&pieces[k], e + 1, piece_len));
                proof {
                    lemma_trim_len(ps[k as int].subrange(e + 1, ps[k as int].len() as int));
                }
                match parse_toml_value(&valtext) {
                    Err(err) => {
                        return Err(err);
                    },
                    Ok(tv) => {
                        let key_string = string_from_chars(&key);
                        if table_contains(&tbl, &key_string) {
                            return Err(TomlError::InvalidToml);
                        }
                        let ghost prev = tbl@;
                        tbl.push((key_string, tv));
                        proof {
                            assert(tbl@.drop_last() =~= prev);
                            lemma_table_model_contains(prev, key@);
                            assert(table_keys_unique(tbl@)) by {
                                assert(forall|j: int|
                                    0 <= j < prev.len() ==> #[trigger] prev[j].0@ != key@);
                                assert(forall|j: int|
                                    0 <= j < prev.len() ==> tbl@[j] == prev[j]);
                            }
                        }
                        k += 1;
                    },
                }
            },
        }
    }
    proof {
        assert(ps.skip(np as int) =~= Seq::<Seq<char>>::empty());
    }
    Ok(tbl)
}

/// Interpret one trimmed raw value span through the value grammar, in its
/// priority order: triple-quoted string, plain quoted string, array, inline
/// table, integer (overflow is malformed, not wrapped), float; anything else
/// is a `ParsingError`.
#[verifier::loop_isolation(false)]
pub fn parse_toml_value(s: &Vec<char>) -> (r: Result<TomlType, TomlError>)
    ensures
        match parse_value_spec(s@) {
            Ok(d) => r matches Ok(t) && t.model() == d && t.wf(),
            Err(e) => r matches Err(e2) && e2 == e,
        },
    decreases s@.len(),
{
    let n = s.len();
    if n >= 3 && s[0] == '"' && s[1] == '"' && s[2] == '"' {
        if n >= 6 && s[n - 3] == '"' && s[n - 2] == '"' && s[n - 1] == '"' {
            let interior = subvec(s, 3, n - 3);
            let content = parse_multiline_str(&interior);
            Ok(TomlType::String(string_from_chars(&content)))
        } else {
            Err(TomlError::InvalidToml)
        }
    } else if n >= 1 && s[0] == '"' {
        if n >= 2 && s[n - 1] == '"' && !contains_newline(s) {
            let content = subvec(s, 1, n - 1);
            Ok(TomlType::String(string_from_chars(&content)))
        } else {
            Err(TomlError::InvalidToml)
        }
    } else if n >= 1 && s[0] == '[' {
        if n >= 2 && s[n - 1] == ']' {
            let interior = subvec(s, 1, n - 1);
            let trimmed = trim_vec(&interior);
            if trimmed.len() == 0 {
                proof {
                    assert(seq_model(Seq::<TomlType>::empty()) =~= Seq::<TomlData>::empty());
                }
                Ok(TomlType::Array(Vec::new()))
            } else {
                match split_exec(&interior) {
                    Err(e) => Err(e),
                    Ok(pieces) => {
                        let ghost pv = pieces_view(pieces@);
                        proof {
                            lemma_split_top_measure(interior@, 0, 0, Seq::empty(), false);
                            lemma_pieces_measure_nonneg(pieces_view(pieces@));
                        }
                        match parse_array_exec(pieces) {
                            Err(e) => Err(e),
                            Ok(arr) => {
                                proof {
                                    lemma_array_wf(arr);
                                }
                                Ok(TomlType::Array(arr))
                            },
                        }
                    },
                }
            }
        } else {
            Err(TomlError::InvalidToml)
        }
    } else if n >= 1 && s[0] == '{' {
        if n >= 2 && s[n - 1] == '}' {
            let interior = subvec(s, 1, n - 1);
            match split_exec(&interior) {
                Err(e) => Err(e),
                Ok(pieces) => {
                    proof {
                        lemma_split_top_measure(interior@, 0, 0, Seq::empty(), false);
                        lemma_pieces_measure_nonneg(pieces_view(pieces@));
                    }
                    match parse_inline_table_exec(pieces) {
                        Err(e) => Err(e),
                        Ok(tbl) => {
                            proof {
                                lemma_table_wf(tbl);
                            }
                            Ok(TomlType::Table(tbl))
                        },
                    }
                },
            }
        } else {
            Err(TomlError::InvalidToml)
        }
    } else if is_int_literal_exec(s) {
        match int_value_exec(s) {
            Some(x) => Ok(TomlType::Integer(x)),
            None => Err(TomlError::InvalidToml),
        }
    } else if is_float_literal_exec(s) {
        Ok(TomlType::Float(string_from_chars(s)))
    } else {
        Err(TomlError::ParsingError)
    }
}

/// Interpret one segmenter item: a key/value entry becomes the key with its
/// parsed value; a section header becomes the section name with the table
/// parsed from its body text, a fresh scope in which a further section
/// header or a duplicate key is malformed.
#[verifier::loop_isolation(false)]
pub fn parse_toml_table_entry(item: TomlItem) -> (r: Result<(String, TomlType), TomlError>)
    ensures
        match item {
            TomlItem::KeyValue(k, v) => match parse_value_spec(v@) {
                Ok(d) => r matches Ok(p) && p.0@ == k@ && p.1.model() == d && p.1.wf(),
                Err(e) => r matches Err(e2) && e2 == e,
            },
            TomlItem::Section(name, body) => match parse_scope(body@, 0, Map::empty(), false) {
                Ok(m) => r matches Ok(p) && p.0@ == name@ && p.1.model() == TomlData::Tbl(m)
                    && p.1.wf(),
                Err(e) => r matches Err(e2) && e2 == e,
            },
        },
{
    match item {
        TomlItem::KeyValue(k, v) => {
            let chars = crate::text::chars_of(v.as_str());
            match parse_toml_value(&chars) {
                Ok(val) => Ok((k, val)),
                Err(e) => Err(e),
            }
        },
        TomlItem::Section(name, body) => {
            let ghost bs = body@;
            let mut iter = TomlIterator::new(body.as_str());
            let mut values: Vec<(String, TomlType)> = Vec::new();
            proof {
                assert(values@ =~= Seq::<(String, TomlType)>::empty());
                assert(table_model(values@) =~= Map::<Seq<char>, TomlData>::empty());
            }
            loop
                invariant
                    iter.wf(),
                    iter.text_seq() == bs,
                    bs == body@,
                    0 <= iter.position() <= bs.len(),
                    table_keys_unique(values@),
                    forall|j: int| 0 <= j < values@.len() ==> #[trigger] values@[j].1.wf(),
                    match parse_scope(bs, iter.position(), table_model(values@), false) {
                        Ok(m) => parse_scope(bs, 0, Map::empty(), false) == Ok::<_, TomlError>(m),
                        Err(e) => parse_scope(bs, 0, Map::empty(), false) == Err::<
                            Map<Seq<char>, TomlData>,
                            _,
                        >(e),
                    },
                decreases bs.len() - iter.position(),
            {
                let ghost pos0 = iter.position();
                proof {
                    crate::iterator::lemma_seg_step_next(bs, pos0);
                }
                match iter.next() {
                    None => {
                        proof {
                            lemma_entries_wf_iff(values@);
                        }
                        return Ok((name, TomlType::Table(values)));
                    },
                    Some(Err(e)) => {
                        return Err(e);
                    },
                    Some(Ok(TomlItem::Section(_, _))) => {
                        return Err(TomlError::InvalidToml);
                    },
                    Some(Ok(TomlItem::KeyValue(k2, v2))) => {
                        let chars = crate::text::chars_of(v2.as_str());
                        match parse_toml_value(&chars) {
                            Err(e) => {
                                return Err(e);
                            },
                            Ok(val) => {
                                if table_contains(&values, &k2) {
                                    return Err(TomlError::InvalidToml);
                                }
                                let ghost prev = values@;
                                values.push((k2, val));
                                proof {
                                    assert(values@.drop_last() =~= prev);
                                    lemma_table_model_contains(prev, k2@);
                                    assert(table_keys_unique(values@)) by {
                                        assert(forall|j: int|
                                            0 <= j < prev.len() ==> #[trigger] prev[j].0@ != k2@);
                                        assert(forall|j: int|
                                            0 <= j < prev.len() ==> values@[j] == prev[j]);
                                    }
                                }
                            },
                        }
                    },
                }
            }
        },
    }
}

/// Parse a whole document: drive the segmenter to exhaustion and assemble
/// the top-level mapping; each section body becomes a nested table beside
/// the plain keys, and a duplicate key within one scope, a structural
/// failure, or an unrecognised value aborts the parse with its classified
/// error.
#[verifier::loop_isolation(false)]
pub fn parse_toml(content: &str) -> (r: Result<Vec<(String, TomlType)>, TomlError>)
    ensures
        match parse_toml_spec(content@) {
            Ok(m) => r matches Ok(t) && table_model(t@) == m && table_keys_unique(t@) && (forall|
                j: int,
            | 0 <= j < t@.len() ==> #[trigger] t@[j].1.wf()),
            Err(e) => r matches Err(e2) && e2 == e,
        },
{
    let ghost s = content@;
    let mut iter = TomlIterator::new(content);
    let mut values: Vec<(String, TomlType)> = Vec::new();
    proof {
        assert(values@ =~= Seq::<(String, TomlType)>::empty());
        assert(table_model(values@) =~= Map::<Seq<char>, TomlData>::empty());
    }
    loop
        invariant
            iter.wf(),
            iter.text_seq() == s,
            s == content@,
            0 <= iter.position() <= s.len(),
            table_keys_unique(values@),
            forall|j: int| 0 <= j < values@.len() ==> #[trigger] values@[j].1.wf(),
            match parse_scope(s, iter.position(), table_model(values@), true) {
                Ok(m) => parse_toml_spec(s) == Ok::<_, TomlError>(m),
                Err(e) => parse_toml_spec(s) == Err::<Map<Seq<char>, TomlData>, _>(e),
            },
        decreases s.len() - iter.position(),
    {
        let ghost pos0 = iter.position();
        proof {
            crate::iterator::lemma_seg_step_next(s, pos0);
        }
        match iter.next() {
            None => {
                return Ok(values);
            },
            Some(Err(e)) => {
                return Err(e);
            },
            Some(Ok(item)) => {
                match parse_toml_table_entry(item) {
                    Err(e) => {
                        return Err(e);
                    },
                    Ok((key, val)) => {
                        if table_contains(&values, &key) {
                            return Err(TomlError::InvalidToml);
                        }
                        let ghost prev = values@;
                        values.push((key, val));
                        proof {
                            assert(values@.drop_last() =~= prev);
                            lemma_table_model_contains(prev, key@);
                            assert(table_keys_unique(values@)) by {
                                assert(forall|j: int|
                                    0 <= j < prev.len() ==> #[trigger] prev[j].0@ != key@);
                                assert(forall|j: int|
                                    0 <= j < prev.len() ==> values@[j] == prev[j]);
                            }
                        }
                    },
                }
            },
        }
    }
}

/// Look a key up in a parsed table.
pub fn toml_get<'a>(table: &'a Vec<(String, TomlType)>, key: &str) -> (r: Option<&'a TomlType>)
    requires
        table_keys_unique(table@),
    ensures
        match r {
            Some(t) => table_model(table@).contains_key(key@) && t.model() == table_model(
                table@,
            )[key@],
            None => !table_model(table@).contains_key(key@),
        },
{
    let ks = key.to_owned();
    let n = table.len();
    let mut i: usize = 0;
    while i < n
        invariant
            i <= n == table@.len(),
            ks@ == key@,
            table_keys_unique(table@),
            forall|j: int| 0 <= j < i ==> #[trigger] table@[j].0@ != key@,
        decreases n - i,
    {
        if table[i].0 == ks {
            proof {
                lemma_table_model_at(table@, i as int);
            }
            return Some(&table[i].1);
        }
        i += 1;
    }
    proof {
        lemma_table_model_contains(table@, key@);
    }
    None
}

} // verus!
