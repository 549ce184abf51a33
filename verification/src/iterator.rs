//! The lexical segmenter: it walks the raw document text and yields, one at a
//! time, either a section header paired with its verbatim body text, or a
//! key/raw-value pair, skipping blank and comment lines. It is the only layer
//! that reasons about character positions; it tracks nested-delimiter balance
//! so that a value spanning a `{...}`, `[...]` or `"""..."""` region is not
//! split at an internal newline.

use vstd::prelude::*;

use crate::text::{is_line_ws, is_ws, line_ws_char, subvec, trim_spec, trim_vec, ws_char};
use crate::text::{chars_of, string_from_chars};
use crate::toml::TomlError;

verus! {

// ---------------------------------------------------------------------------
// Delimiter balance
// ---------------------------------------------------------------------------
/// One step of the delimiter-balance discipline: `stack` holds the currently
/// open delimiters (each `"`, `[` or `{`, innermost last). While a plain
/// quote is open every character is literal except the quote that closes it;
/// otherwise `"`, `[` and `{` open a frame, `]` and `}` close their matching
/// frame, and a closer that does not match the top of the stack is malformed
/// (`None`). All other characters leave the stack unchanged.
pub open spec fn pm_step(stack: Seq<char>, c: char) -> Option<Seq<char>> {
    if stack.len() > 0 && stack.last() == '"' {
        if c == '"' {
            Some(stack.drop_last())
        } else {
            Some(stack)
        }
    } else if c == '"' || c == '[' || c == '{' {
        Some(stack.push(c))
    } else if c == ']' {
        if stack.len() > 0 && stack.last() == '[' {
            Some(stack.drop_last())
        } else {
            None
        }
    } else if c == '}' {
        if stack.len() > 0 && stack.last() == '{' {
            Some(stack.drop_last())
        } else {
            None
        }
    } else {
        Some(stack)
    }
}

/// A `"""` sequence starts at position `i` of `s`.
pub open spec fn triple_at(s: Seq<char>, i: int) -> bool {
    &&& i + 3 <= s.len()
    &&& s[i] == '"'
    &&& s[i + 1] == '"'
    &&& s[i + 2] == '"'
}

/// Where the raw value span that starts at position `i` ends. The span runs
/// until a newline that occurs outside any open delimiter; a `"""` sequence
/// seen outside a plain quote switches triple-quoted mode on or off, and in
/// triple-quoted mode every character is literal. The result is the index of
/// the terminating newline (exclusive), or `s.len()` if the input ends while
/// balanced; `None` means a mismatched closer or an unterminated value.
pub open spec fn scan_span(s: Seq<char>, i: int, stack: Seq<char>, triple: bool) -> Option<int>
    decreases s.len() - i,
{
    if i < 0 || i >= s.len() {
        if !triple && stack.len() == 0 {
            Some(s.len() as int)
        } else {
            None
        }
    } else if triple {
        if triple_at(s, i) {
            scan_span(s, i + 3, stack, false)
        } else {
            scan_span(s, i + 1, stack, true)
        }
    } else if stack.len() == 0 && s[i] == '\n' {
        Some(i)
    } else if (stack.len() == 0 || stack.last() != '"') && triple_at(s, i) {
        scan_span(s, i + 3, stack, true)
    } else {
        match pm_step(stack, s[i]) {
            Some(st) => scan_span(s, i + 1, st, false),
            None => None,
        }
    }
}

pub proof fn lemma_scan_span_bounds(s: Seq<char>, i: int, stack: Seq<char>, triple: bool)
    requires
        0 <= i <= s.len(),
        scan_span(s, i, stack, triple) is Some,
    ensures
        i <= scan_span(s, i, stack, triple)->Some_0 <= s.len(),
    decreases s.len() - i,
{
    if i < s.len() {
        if triple {
            if triple_at(s, i) {
                lemma_scan_span_bounds(s, i + 3, stack, false);
            } else {
                lemma_scan_span_bounds(s, i + 1, stack, true);
            }
        } else if stack.len() == 0 && s[i] == '\n' {
        } else if (stack.len() == 0 || stack.last() != '"') && triple_at(s, i) {
            lemma_scan_span_bounds(s, i + 3, stack, true);
        } else {
            match pm_step(stack, s[i]) {
                Some(st) => lemma_scan_span_bounds(s, i + 1, st, false),
                None => {},
            }
        }
    }
}

// ---------------------------------------------------------------------------
// Line structure
// ---------------------------------------------------------------------------
/// Index of the next newline at or after `i`, or `s.len()` if there is none.
pub open spec fn line_end(s: Seq<char>, i: int) -> int
    decreases s.len() - i,
{
    if i < 0 || i >= s.len() {
        s.len() as int
    } else if s[i] == '\n' {
        i
    } else {
        line_end(s, i + 1)
    }
}

pub proof fn lemma_line_end_bounds(s: Seq<char>, i: int)
    requires
        0 <= i <= s.len(),
    ensures
        i <= line_end(s, i) <= s.len(),
        line_end(s, i) == s.len() || s[line_end(s, i)] == '\n',
        forall|k: int| i <= k < line_end(s, i) ==> s[k] != '\n',
    decreases s.len() - i,
{
    if i < s.len() && s[i] != '\n' {
        lemma_line_end_bounds(s, i + 1);
    }
}

/// First position at or after `i` whose character is not whitespace.
pub open spec fn skip_ws(s: Seq<char>, i: int) -> int
    decreases s.len() - i,
{
    if 0 <= i < s.len() && is_ws(s[i]) {
        skip_ws(s, i + 1)
    } else {
        i
    }
}

pub proof fn lemma_skip_ws_bounds(s: Seq<char>, i: int)
    requires
        0 <= i <= s.len(),
    ensures
        i <= skip_ws(s, i) <= s.len(),
        skip_ws(s, i) == s.len() || !is_ws(s[skip_ws(s, i)]),
        forall|k: int| i <= k < skip_ws(s, i) ==> is_ws(s[k]),
    decreases s.len() - i,
{
    if i < s.len() && is_ws(s[i]) {
        lemma_skip_ws_bounds(s, i + 1);
    }
}

/// Position of the next item: whitespace is skipped, and every line whose
/// first non-whitespace character is `#` is skipped whole.
pub open spec fn skip_blank(s: Seq<char>, i: int) -> int
    decreases s.len() - i,
    via skip_blank_decreases
{
    let j = skip_ws(s, i);
    if 0 <= i <= s.len() && j < s.len() && s[j] == '#' {
        skip_blank(s, line_end(s, j))
    } else {
        j
    }
}

#[via_fn]
proof fn skip_blank_decreases(s: Seq<char>, i: int) {
    if 0 <= i <= s.len() {
        lemma_skip_ws_bounds(s, i);
        let j = skip_ws(s, i);
        if j < s.len() && s[j] == '#' {
            lemma_line_end_bounds(s, j);
        }
    }
}

pub proof fn lemma_skip_blank_bounds(s: Seq<char>, i: int)
    requires
        0 <= i <= s.len(),
    ensures
        i <= skip_blank(s, i) <= s.len(),
        skip_blank(s, i) == s.len() || (!is_ws(s[skip_blank(s, i)]) && s[skip_blank(s, i)]
            != '#'),
    decreases s.len() - i,
{
    lemma_skip_ws_bounds(s, i);
    let j = skip_ws(s, i);
    if j < s.len() && s[j] == '#' {
        lemma_line_end_bounds(s, j);
        lemma_skip_blank_bounds(s, line_end(s, j));
    }
}

/// End of a section's raw body that starts at `i`: the start of the first
/// line at or after `i` whose first non-whitespace character is `[` (such a
/// line begins the next section header), or `s.len()` if there is none.
pub open spec fn find_section_end(s: Seq<char>, i: int) -> int
    decreases s.len() - i,
    via find_section_end_decreases
{
    if i < 0 || i >= s.len() {
        s.len() as int
    } else {
        let j = skip_line_ws(s, i);
        if j < s.len() && s[j] == '[' {
            i
        } else {
            let e = line_end(s, i);
            if e >= s.len() {
                s.len() as int
            } else {
                find_section_end(s, e + 1)
            }
        }
    }
}

#[via_fn]
proof fn find_section_end_decreases(s: Seq<char>, i: int) {
    if 0 <= i < s.len() {
        lemma_line_end_bounds(s, i);
    }
}

pub proof fn lemma_find_section_end_bounds(s: Seq<char>, i: int)
    requires
        0 <= i <= s.len(),
    ensures
        i <= find_section_end(s, i) <= s.len(),
    decreases s.len() - i,
{
    if i < s.len() {
        let j = skip_line_ws(s, i);
        if !(j < s.len() && s[j] == '[') {
            lemma_line_end_bounds(s, i);
            let e = line_end(s, i);
            if e < s.len() {
                lemma_find_section_end_bounds(s, e + 1);
            }
        }
    }
}

/// First position at or after `i` whose character is not line whitespace.
pub open spec fn skip_line_ws(s: Seq<char>, i: int) -> int
    decreases s.len() - i,
{
    if 0 <= i < s.len() && is_line_ws(s[i]) {
        skip_line_ws(s, i + 1)
    } else {
        i
    }
}

pub proof fn lemma_skip_line_ws_bounds(s: Seq<char>, i: int)
    requires
        0 <= i <= s.len(),
    ensures
        i <= skip_line_ws(s, i) <= s.len(),
        skip_line_ws(s, i) == s.len() || !is_line_ws(s[skip_line_ws(s, i)]),
        forall|k: int| i <= k < skip_line_ws(s, i) ==> is_line_ws(s[k]),
    decreases s.len() - i,
{
    if i < s.len() && is_line_ws(s[i]) {
        lemma_skip_line_ws_bounds(s, i + 1);
    }
}

/// First `=` at or after `from` and before `to`, if any.
pub open spec fn find_eq(s: Seq<char>, from: int, to: int) -> Option<int>
    decreases to - from,
{
    if from < 0 || from >= to || from >= s.len() {
        None
    } else if s[from] == '=' {
        Some(from)
    } else {
        find_eq(s, from + 1, to)
    }
}

pub proof fn lemma_find_eq_bounds(s: Seq<char>, from: int, to: int)
    requires
        0 <= from,
        to <= s.len(),
        find_eq(s, from, to) is Some,
    ensures
        from <= find_eq(s, from, to)->Some_0 < to,
        s[find_eq(s, from, to)->Some_0] == '=',
        forall|k: int| from <= k < find_eq(s, from, to)->Some_0 ==> s[k] != '=',
    decreases to - from,
{
    if from < to && from < s.len() && s[from] != '=' {
        lemma_find_eq_bounds(s, from + 1, to);
    }
}

// ---------------------------------------------------------------------------
// One segmentation step
// ---------------------------------------------------------------------------
/// What the segmenter yields next when positioned at `i`.
pub enum SegStep {
    /// Nothing but whitespace and comments remain.
    Done,
    /// Structurally malformed input: a header line that does not end in `]`,
    /// a key/value line without `=`, a mismatched closer, or an unterminated
    /// value at end of input.
    Fail,
    /// A key/value entry: trimmed identifier, trimmed raw value span, and the
    /// position at which segmentation continues.
    Entry { key: Seq<char>, raw: Seq<char>, next: int },
    /// A section header: its name (the text strictly between `[` and the `]`
    /// that ends the header line), the verbatim body text that belongs to the
    /// section, and the position at which segmentation continues.
    Section { name: Seq<char>, body: Seq<char>, next: int },
}

/// One step of segmentation from position `i`: skip blank and comment lines;
/// at a line whose first non-whitespace character is `[`, yield the section
/// header and its body (everything up to the next line that begins a section
/// header, or end of input); otherwise the line up to its first `=` is the
/// identifier and the raw value span is determined by delimiter-balance
/// scanning.
pub open spec fn seg_step(s: Seq<char>, i: int) -> SegStep {
    let j = skip_blank(s, i);
    if j >= s.len() {
        SegStep::Done
    } else if s[j] == '[' {
        let eol = line_end(s, j);
        let line = trim_spec(s.subrange(j, eol));
        if line.len() >= 2 && line.last() == ']' {
            let bstart = if eol < s.len() {
                eol + 1
            } else {
                eol
            };
            let bend = find_section_end(s, bstart);
            SegStep::Section {
                name: line.subrange(1, line.len() - 1),
                body: s.subrange(bstart, bend),
                next: bend,
            }
        } else {
            SegStep::Fail
        }
    } else {
        let eol = line_end(s, j);
        match find_eq(s, j, eol) {
            None => SegStep::Fail,
            Some(e) => match scan_span(s, e + 1, Seq::empty(), false) {
                None => SegStep::Fail,
                Some(end) => SegStep::Entry {
                    key: trim_spec(s.subrange(j, e)),
                    raw: trim_spec(s.subrange(e + 1, end)),
                    next: end,
                },
            },
        }
    }
}

// ---------------------------------------------------------------------------
// The delimiter-balance tracker
// ---------------------------------------------------------------------------
/// Number of open plain-quote contexts on a delimiter stack.
pub open spec fn quote_count(stack: Seq<char>) -> int
    decreases stack.len(),
{
    if stack.len() == 0 {
        0
    } else {
        quote_count(stack.drop_last()) + if stack.last() == '"' {
            1int
        } else {
            0int
        }
    }
}

pub proof fn lemma_quote_count_bounds(stack: Seq<char>)
    ensures
        0 <= quote_count(stack) <= stack.len(),
        stack.len() > 0 && stack.last() == '"' ==> quote_count(stack) >= 1,
    decreases stack.len(),
{
    if stack.len() > 0 {
        lemma_quote_count_bounds(stack.drop_last());
    }
}

/// Transient state used while scanning one raw value span: the stack of
/// currently open delimiters plus the count of currently open quote contexts.
/// Balanced when, and only when, the stack is empty (the quote count is then
/// zero as well); a closer that does not match the top of the stack signals
/// malformed input.
#[derive(Debug)]
pub struct PairMatcher {
    pairs_queue: Vec<char>,
    str_n: usize,
}

impl PairMatcher {
    /// The stack of currently open delimiters, innermost last.
    pub closed spec fn stack(&self) -> Seq<char> {
        self.pairs_queue@
    }

    pub closed spec fn wf(&self) -> bool {
        self.str_n as int == quote_count(self.pairs_queue@)
    }

    pub fn new() -> (r: Self)
        ensures
            r.wf(),
            r.stack() == Seq::<char>::empty(),
    {
        Self { pairs_queue: Vec::new(), str_n: 0 }
    }

    /// Whether the tracker is balanced: no open delimiter and no open quote.
    pub fn valid(&self) -> (r: bool)
        requires
            self.wf(),
        ensures
            r == (self.stack().len() == 0),
    {
        proof {
            lemma_quote_count_bounds(self.pairs_queue@);
        }
        self.pairs_queue.len() == 0 && self.str_n == 0
    }

    /// Whether the innermost open delimiter is a plain quote.
    pub fn in_string(&self) -> (r: bool)
        ensures
            r == (self.stack().len() > 0 && self.stack().last() == '"'),
    {
        let n = self.pairs_queue.len();
        n > 0 && self.pairs_queue[n - 1] == '"'
    }

    /// Feed one character to the tracker, as `pm_step` describes: opens and
    /// closes delimiter frames, errors on a closer that does not match the
    /// top of the stack, and leaves every other character alone.
    pub fn add_char(&mut self, c: char) -> (r: Result<(), TomlError>)
        requires
            old(self).wf(),
        ensures
            final(self).wf(),
            match pm_step(old(self).stack(), c) {
                Some(st) => r is Ok && final(self).stack() == st,
                None => r is Err && r->Err_0 == TomlError::InvalidToml && final(self).stack()
                    == old(self).stack(),
            },
    {
        proof {
            lemma_quote_count_bounds(self.pairs_queue@);
        }
        let n = self.pairs_queue.len();
        if n > 0 && self.pairs_queue[n - 1] == '"' {
            if c == '"' {
                self.pairs_queue.pop();
                self.str_n = self.str_n - 1;
                proof {
                    assert(old(self).pairs_queue@.drop_last() =~= self.pairs_queue@);
                }
            }
            Ok(())
        } else if c == '"' || c == '[' || c == '{' {
            self.pairs_queue.push(c);
            let m = self.pairs_queue.len();
            proof {
                assert(self.pairs_queue@.drop_last() =~= old(self).pairs_queue@);
                assert(self.str_n < m);
            }
            if c == '"' {
                self.str_n = self.str_n + 1;
            }
            Ok(())
        } else if c == ']' {
            if n > 0 && self.pairs_queue[n - 1] == '[' {
                self.pairs_queue.pop();
                proof {
                    assert(old(self).pairs_queue@.drop_last() =~= self.pairs_queue@);
                }
                Ok(())
            } else {
                Err(TomlError::InvalidToml)
            }
        } else if c == '}' {
            if n > 0 && self.pairs_queue[n - 1] == '{' {
                self.pairs_queue.pop();
                proof {
                    assert(old(self).pairs_queue@.drop_last() =~= self.pairs_queue@);
                }
                Ok(())
            } else {
                Err(TomlError::InvalidToml)
            }
        } else {
            Ok(())
        }
    }
}

// ---------------------------------------------------------------------------
// The segmenter
// ---------------------------------------------------------------------------
/// One item the segmenter yields: a key with the trimmed raw text of its
/// value, or a section name with the verbatim text of the section's body.
#[derive(Debug)]
pub enum TomlItem {
    KeyValue(String, String),
    Section(String, String),
}

/// A single-pass cursor over one document's text. Each call of [`Self::next`]
/// yields the next entry or section, or the classified failure.
pub struct TomlIterator {
    text: Vec<char>,
    pos: usize,
}

impl TomlIterator {
    /// The full text being segmented (it never changes).
    pub closed spec fn text_seq(&self) -> Seq<char> {
        self.text@
    }

    /// The current scan position.
    pub closed spec fn position(&self) -> int {
        self.pos as int
    }

    pub closed spec fn wf(&self) -> bool {
        self.pos <= self.text@.len()
    }

    pub fn new(s: &str) -> (r: Self)
        ensures
            r.wf(),
            r.text_seq() == s@,
            r.position() == 0,
    {
        TomlIterator { text: chars_of(s), pos: 0 }
    }

    /// Move the cursor past any whitespace.
    #[verifier::loop_isolation(false)]
    fn skip_ws_exec(&mut self)
        requires
            old(self).wf(),
        ensures
            final(self).wf(),
            final(self).text_seq() == old(self).text_seq(),
            final(self).position() == skip_ws(old(self).text_seq(), old(self).position()),
    {
        let ghost s = self.text@;
        let n = self.text.len();
        while self.pos < n && ws_char(self.text[self.pos])
            invariant
                self.pos <= n,
                self.text@ == s,
                skip_ws(s, old(self).pos as int) == skip_ws(s, self.pos as int),
            decreases n - self.pos,
        {
            self.pos = self.pos + 1;
        }
    }

    /// Move the cursor to the end of the current line (the next newline, or
    /// the end of the text).
    #[verifier::loop_isolation(false)]
    fn skip_to_eol(&mut self)
        requires
            old(self).wf(),
        ensures
            final(self).wf(),
            final(self).text_seq() == old(self).text_seq(),
            final(self).position() == line_end(old(self).text_seq(), old(self).position()),
    {
        let ghost s = self.text@;
        let n = self.text.len();
        while self.pos < n && self.text[self.pos] != '\n'
            invariant
                self.pos <= n,
                self.text@ == s,
                line_end(s, old(self).pos as int) == line_end(s, self.pos as int),
            decreases n - self.pos,
        {
            self.pos = self.pos + 1;
        }
    }

    /// Skip whitespace and every line whose first non-whitespace character
    /// is `#`.
    #[verifier::loop_isolation(false)]
    fn skip_comments(&mut self)
        requires
            old(self).wf(),
        ensures
            final(self).wf(),
            final(self).text_seq() == old(self).text_seq(),
            final(self).position() == skip_blank(old(self).text_seq(), old(self).position()),
    {
        let ghost s = self.text@;
        let n = self.text.len();
        self.skip_ws_exec();
        proof {
            lemma_skip_ws_bounds(s, old(self).pos as int);
        }
        while self.pos < n && self.text[self.pos] == '#'
            invariant
                self.pos <= n,
                self.text@ == s,
                skip_blank(s, old(self).pos as int) == skip_blank(s, self.pos as int),
                skip_ws(s, self.pos as int) == self.pos as int,
            decreases n - self.pos,
        {
            let ghost j = self.pos as int;
            proof {
                lemma_line_end_bounds(s, j);
                assert(skip_blank(s, j) == skip_blank(s, line_end(s, j)));
            }
            self.skip_to_eol();
            // the comment character is not a newline, so the line end is
            // strictly past it and the position advances
            assert(self.pos as int > j);
            let ghost m = self.pos as int;
            self.skip_ws_exec();
            proof {
                lemma_skip_ws_bounds(s, m);
                assert(skip_ws(s, self.pos as int) == self.pos as int);
                assert(skip_blank(s, m) == skip_blank(s, self.pos as int));
            }
        }
        assert(skip_blank(s, self.pos as int) == self.pos as int);
    }

    /// Scan the raw value span that starts at the current position, as
    /// `scan_span` describes, and return it trimmed. On success the cursor
    /// stands on the newline that ended the span (or at the end of the
    /// text); a mismatched closer or an unterminated value is a failure.
    fn get_value(&mut self) -> (r: Result<Vec<char>, TomlError>)
        requires
            old(self).wf(),
        ensures
            final(self).wf(),
            final(self).text_seq() == old(self).text_seq(),
            match scan_span(old(self).text_seq(), old(self).position(), Seq::empty(), false) {
                Some(end) => r matches Ok(v) && v@ == trim_spec(
                    old(self).text_seq().subrange(old(self).position(), end),
                ) && final(self).position() == end,
                None => r matches Err(e) && e == TomlError::InvalidToml,
            },
    {
        let ghost s = self.text@;
        let start = self.pos;
        let n = self.text.len();
        let mut pm = PairMatcher::new();
        let mut triple = false;
        loop
            invariant
                s == old(self).text_seq(),
                start as int == old(self).position(),
                n == s.len(),
                self.pos <= n,
                self.text@ == s,
                start <= self.pos,
                pm.wf(),
                scan_span(s, start as int, Seq::empty(), false) == scan_span(
                    s,
                    self.pos as int,
                    pm.stack(),
                    triple,
                ),
            ensures
                s == old(self).text_seq(),
                start as int == old(self).position(),
                n == s.len(),
                self.text@ == s,
                start <= self.pos <= n,
                scan_span(s, start as int, Seq::empty(), false) == Some(self.pos as int),
            decreases n - self.pos,
        {
            if self.pos >= n {
                if !triple && pm.valid() {
                    break ;
                } else {
                    return Err(TomlError::InvalidToml);
                }
            }
            let c = self.text[self.pos];
            let is_triple = n - self.pos >= 3 && c == '"' && self.text[self.pos + 1] == '"'
                && self.text[self.pos + 2] == '"';
            assert(is_triple == triple_at(s, self.pos as int));
            if triple {
                if is_triple {
                    self.pos = self.pos + 3;
                    triple = false;
                } else {
                    self.pos = self.pos + 1;
                }
            } else if pm.valid() && c == '\n' {
                break ;
            } else if !pm.in_string() && is_triple {
                self.pos = self.pos + 3;
                triple = true;
            } else {
                match pm.add_char(c) {
                    Ok(()) => {
                        self.pos = self.pos + 1;
                    },
                    Err(e) => {
                        return Err(e);
                    },
                }
            }
        }
        // balanced end: either end of text, or a newline outside all delimiters
        let piece = subvec(&self.text, start, self.pos);
        Ok(trim_vec(&piece))
    }

    /// Read a section header at the current position (a line whose first
    /// non-whitespace character is `[`): the name is the text strictly
    /// between the `[` and the `]` that ends the header line, and the body is
    /// everything up to the next line that begins a section header, or the
    /// end of the text. A header line that does not end in `]` is malformed.
    fn get_section(&mut self) -> (r: Result<(Vec<char>, Vec<char>), TomlError>)
        requires
            old(self).wf(),
        ensures
            final(self).wf(),
            final(self).text_seq() == old(self).text_seq(),
            ({
                let s = old(self).text_seq();
                let j = old(self).position();
                let eol = line_end(s, j);
                let line = trim_spec(s.subrange(j, eol));
                if line.len() >= 2 && line.last() == ']' {
                    let bstart = if eol < s.len() {
                        eol + 1
                    } else {
                        eol
                    };
                    let bend = find_section_end(s, bstart);
                    r matches Ok(p) && p.0@ == line.subrange(1, line.len() - 1) && p.1@
                        == s.subrange(bstart, bend) && final(self).position() == bend
                } else {
                    r matches Err(e) && e == TomlError::InvalidToml
                }
            }),
    {
        let ghost s = self.text@;
        let ghost j = self.pos as int;
        let n = self.text.len();
        let hstart = self.pos;
        self.skip_to_eol();
        let eol = self.pos;
        proof {
            lemma_line_end_bounds(s, j);
        }
        let rawline = subvec(&self.text, hstart, eol);
        let line = trim_vec(&rawline);
        let ll = line.len();
        if !(ll >= 2 && line[ll - 1] == ']') {
            return Err(TomlError::InvalidToml);
        }
        let name = subvec(&line, 1, ll - 1);
        let bstart = if eol < n {
            eol + 1
        } else {
            eol
        };
        self.pos = bstart;
        loop
            invariant
                n == s.len(),
                self.text@ == s,
                self.pos <= n,
                find_section_end(s, bstart as int) == find_section_end(s, self.pos as int),
            ensures
                n == s.len(),
                self.text@ == s,
                self.pos <= n,
                find_section_end(s, bstart as int) == self.pos as int,
            decreases n - self.pos,
        {
            if self.pos >= n {
                break ;
            }
            let mut k = self.pos;
            while k < n && line_ws_char(self.text[k])
                invariant
                    n == s.len(),
                    self.text@ == s,
                    self.pos <= k <= n,
                    skip_line_ws(s, self.pos as int) == skip_line_ws(s, k as int),
                decreases n - k,
            {
                k = k + 1;
            }
            assert(k as int == skip_line_ws(s, self.pos as int));
            if k < n && self.text[k] == '[' {
                break ;
            }
            let ghost cur = self.pos as int;
            self.skip_to_eol();
            proof {
                lemma_line_end_bounds(s, cur);
            }
            if self.pos >= n {
                break ;
            }
            self.pos = self.pos + 1;
        }
        let bend = self.pos;
        proof {
            lemma_find_section_end_bounds(s, bstart as int);
        }
        let body = subvec(&self.text, bstart, bend);
        Ok((name, body))
    }

    /// The next item of the document, if any: a key/value entry, a section
    /// with its body text, or the classified failure, exactly as one step of
    /// segmentation (`seg_step`) describes it.
    pub fn next(&mut self) -> (r: Option<Result<TomlItem, TomlError>>)
        requires
            old(self).wf(),
        ensures
            final(self).wf(),
            final(self).text_seq() == old(self).text_seq(),
            ({
                let step = seg_step(old(self).text_seq(), old(self).position());
                &&& (step is Done ==> r is None)
                &&& (step is Fail ==> (r matches Some(Err(e)) && e == TomlError::InvalidToml))
                &&& (step matches SegStep::Entry { key, raw, next } ==> (r matches Some(
                    Ok(TomlItem::KeyValue(k, v)),
                ) && k@ == key && v@ == raw && final(self).position() == next))
                &&& (step matches SegStep::Section { name, body, next } ==> (r matches Some(
                    Ok(TomlItem::Section(nm, bd)),
                ) && nm@ == name && bd@ == body && final(self).position() == next))
            }),
    {
        let ghost s = self.text@;
        self.skip_comments();
        let n = self.text.len();
        if self.pos >= n {
            return None;
        }
        let ghost j = self.pos as int;
        if self.text[self.pos] == '[' {
            match self.get_section() {
                Ok((name, body)) => Some(
                    Ok(TomlItem::Section(string_from_chars(&name), string_from_chars(&body))),
                ),
                Err(e) => Some(Err(e)),
            }
        } else {
            proof {
                lemma_line_end_bounds(s, j);
            }
            let ghost eol = line_end(s, j);
            let mut k = self.pos;
            while k < n && self.text[k] != '\n' && self.text[k] != '='
                invariant
                    n == s.len(),
                    self.text@ == s,
                    j <= k <= n,
                    line_end(s, j) == line_end(s, k as int),
                    find_eq(s, j, eol) == find_eq(s, k as int, eol),
                    eol == line_end(s, j),
                decreases n - k,
            {
                proof {
                    lemma_line_end_bounds(s, k as int);
                }
                k = k + 1;
            }
            proof {
                lemma_line_end_bounds(s, k as int);
            }
            if k < n && self.text[k] == '=' {
                assert(find_eq(s, j, eol) == Some(k as int));
                let key = trim_vec(&subvec(&self.text, self.pos, k));
                self.pos = k + 1;
                match self.get_value() {
                    Ok(raw) => Some(
                        Ok(TomlItem::KeyValue(string_from_chars(&key), string_from_chars(&raw))),
                    ),
                    Err(err) => Some(Err(err)),
                }
            } else {
                assert(find_eq(s, j, eol) is None);
                Some(Err(TomlError::InvalidToml))
            }
        }
    }
}

/// Bounds used for termination: a yielded item always moves the position
/// strictly forward, and a section body is strictly shorter than the text it
/// was cut from.
pub proof fn lemma_seg_step_next(s: Seq<char>, i: int)
    requires
        0 <= i <= s.len(),
    ensures
        seg_step(s, i) matches SegStep::Entry { next, .. } ==> i < next <= s.len(),
        seg_step(s, i) matches SegStep::Section { next, body, .. } ==> i < next <= s.len()
            && body.len() < s.len(),
{
    lemma_skip_blank_bounds(s, i);
    let j = skip_blank(s, i);
    if j < s.len() {
        lemma_line_end_bounds(s, j);
        let eol = line_end(s, j);
        if s[j] == '[' {
            let bstart = if eol < s.len() {
                eol + 1
            } else {
                eol
            };
            assert(j < bstart);
            lemma_find_section_end_bounds(s, bstart);
        } else {
            match find_eq(s, j, eol) {
                None => {},
                Some(e) => {
                    lemma_find_eq_bounds(s, j, eol);
                    match scan_span(s, e + 1, Seq::empty(), false) {
                        None => {},
                        Some(end) => {
                            lemma_scan_span_bounds(s, e + 1, Seq::empty(), false);
                        },
                    }
                },
            }
        }
    }
}

} // verus!
