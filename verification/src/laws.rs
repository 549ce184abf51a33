//! Laws of the parser, stated and proved against the document grammar: what
//! one plain `key = value` line segments into, the round trip of integer and
//! float scalars, the rejection of duplicate keys within one scope, the
//! rejection of a value left unterminated at the end of the input, the
//! independence of a section's scope from the top level, and the skipping of
//! comment lines.

use vstd::prelude::*;

use crate::iterator::{
    find_eq, lemma_seg_step_next, line_end, scan_span, seg_step, skip_blank, skip_ws, SegStep,
};
use crate::text::{is_digit, is_ws, trim_spec};
use crate::text::{lemma_trim_end_range, lemma_trim_start_range};
use crate::toml::{
    all_digits, digits_val, int_literal_val, is_float_literal, is_int_literal, parse_scope,
    parse_toml_spec, parse_value_spec, unsigned_part, TomlData, TomlError,
};

verus! {

// ---------------------------------------------------------------------------
// Plain text fragments and how the segmenter treats them
// ---------------------------------------------------------------------------
/// A character that the delimiter-balance scanner passes over: no newline,
/// no quote, no bracket, no brace.
pub open spec fn plain_char(c: char) -> bool {
    c != '\n' && c != '"' && c != '[' && c != ']' && c != '{' && c != '}'
}

pub proof fn lemma_line_end_value(s: Seq<char>, i: int, e: int)
    requires
        0 <= i <= e <= s.len(),
        forall|k: int| i <= k < e ==> s[k] != '\n',
        e == s.len() || s[e] == '\n',
    ensures
        line_end(s, i) == e,
    decreases e - i,
{
    if i < e {
        lemma_line_end_value(s, i + 1, e);
    }
}

pub proof fn lemma_find_eq_value(s: Seq<char>, i: int, eq: int, to: int)
    requires
        0 <= i <= eq < to <= s.len(),
        forall|k: int| i <= k < eq ==> s[k] != '=',
        s[eq] == '=',
    ensures
        find_eq(s, i, to) == Some(eq),
    decreases eq - i,
{
    if i < eq {
        lemma_find_eq_value(s, i + 1, eq, to);
    }
}

/// Over plain characters the scanner stays balanced, and the span ends at
/// the next newline, or at the end of the text.
pub proof fn lemma_scan_plain(s: Seq<char>, j: int, e: int)
    requires
        0 <= j <= e <= s.len(),
        forall|k: int| j <= k < e ==> plain_char(#[trigger] s[k]),
        e == s.len() || s[e] == '\n',
    ensures
        scan_span(s, j, Seq::empty(), false) == Some(e),
    decreases e - j,
{
    if j == e {
        if e < s.len() {
            assert(scan_span(s, j, Seq::empty(), false) == Some(e));
        }
    } else {
        assert(plain_char(s[j]));
        assert(!crate::iterator::triple_at(s, j));
        assert(crate::iterator::pm_step(Seq::empty(), s[j]) == Some(Seq::<char>::empty()));
        lemma_scan_plain(s, j + 1, e);
    }
}

/// One segmentation step on a plain `key = value` line: the identifier is
/// the trimmed text left of the first `=`, the raw value the trimmed text
/// right of it up to the line's end, and segmentation continues at that end.
pub proof fn lemma_seg_step_plain_line(s: Seq<char>, i: int, eqpos: int, e: int)
    requires
        0 <= i <= eqpos < e <= s.len(),
        !is_ws(s[i]),
        s[i] != '#',
        s[i] != '[',
        forall|k: int| i <= k < eqpos ==> s[k] != '=' && s[k] != '\n',
        s[eqpos] == '=',
        forall|k: int| eqpos < k < e ==> plain_char(#[trigger] s[k]),
        e == s.len() || s[e] == '\n',
    ensures
        seg_step(s, i) == (SegStep::Entry {
            key: trim_spec(s.subrange(i, eqpos)),
            raw: trim_spec(s.subrange(eqpos + 1, e)),
            next: e,
        }),
{
    assert(skip_ws(s, i) == i);
    assert(skip_blank(s, i) == i);
    assert forall|k: int| i <= k < e implies s[k] != '\n' by {
        if k < eqpos {
        } else if k == eqpos {
        } else {
            assert(plain_char(s[k]));
        }
    }
    lemma_line_end_value(s, i, e);
    lemma_find_eq_value(s, i, eqpos, e);
    lemma_scan_plain(s, eqpos + 1, e);
}

/// Trimming a word with non-blank edges and one trailing space gives the
/// word back.
pub proof fn lemma_trim_word_space(w: Seq<char>)
    requires
        w.len() > 0,
        !is_ws(w[0]),
        !is_ws(w.last()),
    ensures
        trim_spec(w + seq![' ']) == w,
{
    let s = w + seq![' '];
    lemma_trim_start_range(s, 0);
    assert(crate::text::trim_start_spec(s) =~= s);
    lemma_trim_end_range(s, w.len() as int);
    assert(s.subrange(0, w.len() as int) =~= w);
}

/// Trimming a word with non-blank edges and one leading space gives the
/// word back.
pub proof fn lemma_trim_space_word(w: Seq<char>)
    requires
        w.len() > 0,
        !is_ws(w[0]),
        !is_ws(w.last()),
    ensures
        trim_spec(seq![' '] + w) == w,
{
    let s = seq![' '] + w;
    lemma_trim_start_range(s, 1);
    let t = s.subrange(1, s.len() as int);
    assert(t =~= w);
    lemma_trim_end_range(t, t.len() as int);
    assert(t.subrange(0, t.len() as int) =~= w);
}

// ---------------------------------------------------------------------------
// Decimal representations
// ---------------------------------------------------------------------------
/// The decimal digits of a non-negative integer, most significant first.
pub open spec fn dec_u(m: nat) -> Seq<char>
    decreases m,
{
    if m < 10 {
        seq![((48 + m) as char)]
    } else {
        dec_u(m / 10).push(((48 + m % 10) as char))
    }
}

/// The decimal representation of an integer, with a leading `-` when it is
/// negative.
pub open spec fn dec_repr(n: int) -> Seq<char> {
    if n < 0 {
        seq!['-'] + dec_u((-n) as nat)
    } else {
        dec_u(n as nat)
    }
}

pub proof fn lemma_dec_u(m: nat)
    ensures
        dec_u(m).len() >= 1,
        all_digits(dec_u(m)),
        m >= 1 ==> dec_u(m)[0] != '0',
        m < 10 ==> dec_u(m).len() == 1,
        digits_val(dec_u(m)) == m,
    decreases m,
{
    if m < 10 {
        let c = (48 + m) as char;
        assert(c as int == 48 + m);
        assert(is_digit(c));
        assert(dec_u(m) =~= seq![c]);
        assert(dec_u(m).drop_last() =~= Seq::<char>::empty());
        assert(digits_val(Seq::<char>::empty()) == 0);
        assert(dec_u(m).last() == c);
        assert(digits_val(dec_u(m)) == c as int - 48);
    } else {
        lemma_dec_u(m / 10);
        let c = (48 + m % 10) as char;
        assert(c as int == 48 + m % 10);
        assert(is_digit(c));
        let d = dec_u(m);
        assert(d == dec_u(m / 10).push(c));
        assert(d.drop_last() =~= dec_u(m / 10));
        assert(d.last() == c);
        assert(all_digits(d)) by {
            assert forall|k: int| 0 <= k < d.len() implies is_digit(#[trigger] d[k]) by {
                if k < d.len() - 1 {
                    assert(d[k] == dec_u(m / 10)[k]);
                }
            }
        }
        assert(d[0] == dec_u(m / 10)[0]);
        assert(digits_val(d) == digits_val(dec_u(m / 10)) * 10 + (c as int - 48));
        assert(digits_val(d) == (m / 10) * 10 + m % 10);
    }
}

/// The decimal representation of an integer is an integer literal of the
/// grammar, with that integer as its value, and every character of it is a
/// digit or the sign.
pub proof fn lemma_dec_repr(n: int)
    ensures
        is_int_literal(dec_repr(n)),
        int_literal_val(dec_repr(n)) == n,
        dec_repr(n).len() >= 1,
        dec_repr(n)[0] == '-' || is_digit(dec_repr(n)[0]),
        dec_repr(n)[0] != '"' && dec_repr(n)[0] != '[' && dec_repr(n)[0] != '{',
        forall|k: int|
            0 <= k < dec_repr(n).len() ==> (plain_char(#[trigger] dec_repr(n)[k]) && !is_ws(
                dec_repr(n)[k],
            ) && dec_repr(n)[k] != '='),
{
    let s = dec_repr(n);
    if n < 0 {
        lemma_dec_u((-n) as nat);
        assert(s[0] == '-');
        assert(s.drop_first() =~= dec_u((-n) as nat));
        assert(unsigned_part(s) == dec_u((-n) as nat));
        assert(is_int_literal(s));
        assert(int_literal_val(s) == -digits_val(dec_u((-n) as nat)));
        assert forall|k: int|
            0 <= k < s.len() implies (plain_char(#[trigger] s[k]) && !is_ws(s[k]) && s[k]
            != '=') by {
            if k > 0 {
                assert(s[k] == dec_u((-n) as nat)[k - 1]);
                assert(is_digit(s[k]));
            }
        }
    } else {
        lemma_dec_u(n as nat);
        assert(s == dec_u(n as nat));
        assert(s[0] != '-') by {
            assert(is_digit(s[0]));
        }
        assert(unsigned_part(s) == s);
        assert forall|k: int|
            0 <= k < s.len() implies (plain_char(#[trigger] s[k]) && !is_ws(s[k]) && s[k]
            != '=') by {
            assert(is_digit(s[k]));
        }
    }
}

// ---------------------------------------------------------------------------
// The laws
// ---------------------------------------------------------------------------
/// A key fit for a plain `key = value` line: non-empty, no whitespace, none
/// of the characters that would change how the line is read.
pub open spec fn plain_key(key: Seq<char>) -> bool {
    &&& key.len() > 0
    &&& key[0] != '#'
    &&& key[0] != '['
    &&& forall|k: int|
        0 <= k < key.len() ==> (!is_ws(#[trigger] key[k]) && key[k] != '=' && plain_char(key[k]))
}

/// Round-trip of integer scalars: for any integer `n` that fits in the
/// signed 64-bit range, parsing the single line `key = <decimal n>` yields
/// exactly the mapping `{key: Int(n)}`.
pub proof fn lemma_roundtrip_integer(key: Seq<char>, n: int)
    requires
        plain_key(key),
        -0x8000_0000_0000_0000 <= n <= 0x7fff_ffff_ffff_ffff,
    ensures
        parse_toml_spec(key + seq![' ', '=', ' '] + dec_repr(n)) == Ok::<_, TomlError>(
            Map::<Seq<char>, TomlData>::empty().insert(key, TomlData::Int(n)),
        ),
{
    let lit = dec_repr(n);
    lemma_dec_repr(n);
    let s = key + seq![' ', '=', ' '] + lit;
    let eqpos = key.len() as int + 1;
    let e = s.len() as int;
    assert forall|k: int| 0 <= k < eqpos implies s[k] != '=' && s[k] != '\n' by {
        if k < key.len() {
            assert(s[k] == key[k]);
        } else {
            assert(s[k] == ' ');
        }
    }
    assert(s[0] == key[0]);
    assert(s[eqpos as int] == '=');
    assert forall|k: int| eqpos < k < e implies plain_char(#[trigger] s[k]) by {
        if k == eqpos + 1 {
            assert(s[k] == ' ');
        } else {
            assert(s[k] == lit[k - eqpos - 2]);
        }
    }
    lemma_seg_step_plain_line(s, 0, eqpos as int, e);
    assert(s.subrange(0, eqpos as int) =~= key + seq![' ']);
    lemma_trim_word_space(key);
    assert(s.subrange(eqpos + 1, e) =~= seq![' '] + lit);
    lemma_trim_space_word(lit);
    // the raw value parses as the integer
    assert(parse_value_spec(lit) == Ok::<_, TomlError>(TomlData::Int(n))) by {
        assert(lit[0] != '"' && lit[0] != '[' && lit[0] != '{');
        assert(!(lit.len() >= 3 && lit[0] == '"' && lit[1] == '"' && lit[2] == '"'));
        assert(is_int_literal(lit));
        assert(int_literal_val(lit) == n);
    }
    // one entry step, then the end of the document
    let acc = Map::<Seq<char>, TomlData>::empty().insert(key, TomlData::Int(n));
    assert(seg_step(s, e) is Done) by {
        assert(skip_ws(s, e) == e);
        assert(skip_blank(s, e) == e);
    }
    assert(parse_scope(s, e, acc, true) == Ok::<_, TomlError>(acc));
    assert(parse_toml_spec(s) == Ok::<_, TomlError>(acc));
}

/// Round-trip of float scalars: parsing `key = <float literal>` yields
/// exactly the mapping `{key: Float(<the literal text>)}`.
pub proof fn lemma_roundtrip_float(key: Seq<char>, lit: Seq<char>)
    requires
        plain_key(key),
        is_float_literal(lit),
        forall|k: int| 0 <= k < lit.len() ==> (!is_ws(#[trigger] lit[k]) && plain_char(lit[k])),
        lit[0] != '#',
    ensures
        parse_toml_spec(key + seq![' ', '=', ' '] + lit) == Ok::<_, TomlError>(
            Map::<Seq<char>, TomlData>::empty().insert(key, TomlData::Float(lit)),
        ),
{
    let s = key + seq![' ', '=', ' '] + lit;
    let eqpos = key.len() as int + 1;
    let e = s.len() as int;
    let p = choose|p: int| #[trigger]
        crate::toml::float_split_at(unsigned_part(lit), p);
    assert(unsigned_part(lit).len() >= 3);
    assert(lit.len() >= 3);
    assert forall|k: int| 0 <= k < eqpos implies s[k] != '=' && s[k] != '\n' by {
        if k < key.len() {
            assert(s[k] == key[k]);
        } else {
            assert(s[k] == ' ');
        }
    }
    assert(s[0] == key[0]);
    assert(s[eqpos as int] == '=');
    assert forall|k: int| eqpos < k < e implies plain_char(#[trigger] s[k]) by {
        if k == eqpos + 1 {
            assert(s[k] == ' ');
        } else {
            assert(s[k] == lit[k - eqpos - 2]);
        }
    }
    lemma_seg_step_plain_line(s, 0, eqpos as int, e);
    assert(s.subrange(0, eqpos as int) =~= key + seq![' ']);
    lemma_trim_word_space(key);
    assert(s.subrange(eqpos + 1, e) =~= seq![' '] + lit);
    lemma_trim_space_word(lit);
    // a float literal is no string, array, table or integer, so the float
    // alternative applies
    assert(parse_value_spec(lit) == Ok::<_, TomlError>(TomlData::Float(lit))) by {
        assert(plain_char(lit[0]));
        assert(!is_int_literal(lit)) by {
            let d = unsigned_part(lit);
            assert(d[p] == '.');
            assert(!is_digit('.'));
        }
    }
    let acc = Map::<Seq<char>, TomlData>::empty().insert(key, TomlData::Float(lit));
    assert(seg_step(s, e) is Done) by {
        assert(skip_ws(s, e) == e);
        assert(skip_blank(s, e) == e);
    }
    assert(parse_scope(s, e, acc, true) == Ok::<_, TomlError>(acc));
}

/// Whether segmentation from position `i` eventually yields an entry or a
/// section under the given key.
pub open spec fn yields_key(s: Seq<char>, i: int, key: Seq<char>) -> bool
    decreases s.len() - i,
    via yields_key_decreases
{
    if !(0 <= i <= s.len()) {
        false
    } else {
        match seg_step(s, i) {
            SegStep::Done => false,
            SegStep::Fail => false,
            SegStep::Entry { key: k, next, .. } => k == key || yields_key(s, next, key),
            SegStep::Section { name, next, .. } => name == key || yields_key(s, next, key),
        }
    }
}

#[via_fn]
proof fn yields_key_decreases(s: Seq<char>, i: int, key: Seq<char>) {
    if 0 <= i <= s.len() {
        lemma_seg_step_next(s, i);
    }
}

/// Duplicate keys within one scope are rejected: once a key stands in the
/// scope's accumulated mapping, a parse whose remaining segmentation yields
/// that key again cannot succeed.
pub proof fn lemma_duplicate_key_rejected(
    s: Seq<char>,
    i: int,
    acc: Map<Seq<char>, TomlData>,
    top: bool,
    key: Seq<char>,
)
    requires
        0 <= i <= s.len(),
        acc.contains_key(key),
        yields_key(s, i, key),
    ensures
        parse_scope(s, i, acc, top) is Err,
    decreases s.len() - i,
{
    lemma_seg_step_next(s, i);
    match seg_step(s, i) {
        SegStep::Done => {},
        SegStep::Fail => {},
        SegStep::Entry { key: k, raw, next } => {
            match parse_value_spec(raw) {
                Err(_) => {},
                Ok(v) => {
                    if !acc.contains_key(k) {
                        assert(k != key);
                        lemma_duplicate_key_rejected(s, next, acc.insert(k, v), top, key);
                    }
                },
            }
        },
        SegStep::Section { name, body, next } => {
            if top {
                match parse_scope(body, 0, Map::empty(), false) {
                    Err(_) => {},
                    Ok(m) => {
                        if !acc.contains_key(name) {
                            assert(name != key);
                            lemma_duplicate_key_rejected(
                                s,
                                next,
                                acc.insert(name, TomlData::Tbl(m)),
                                top,
                                key,
                            );
                        }
                    },
                }
            }
        },
    }
}

/// Two `key = value` lines for one key in the same scope fail with
/// `InvalidToml`, provided both values are recognised by the value grammar
/// (a value the grammar rejects fails first, with its own error).
pub proof fn lemma_duplicate_key(key: Seq<char>, v1: Seq<char>, v2: Seq<char>)
    requires
        plain_key(key),
        v1.len() > 0,
        v2.len() > 0,
        forall|k: int| 0 <= k < v1.len() ==> (!is_ws(#[trigger] v1[k]) && plain_char(v1[k])),
        forall|k: int| 0 <= k < v2.len() ==> (!is_ws(#[trigger] v2[k]) && plain_char(v2[k])),
        parse_value_spec(v1) is Ok,
        parse_value_spec(v2) is Ok,
    ensures
        parse_toml_spec(key + seq![' ', '=', ' '] + v1 + seq!['\n'] + key + seq![' ', '=', ' ']
            + v2) == Err::<Map<Seq<char>, TomlData>, _>(TomlError::InvalidToml),
{
    let s = key + seq![' ', '=', ' '] + v1 + seq!['\n'] + key + seq![' ', '=', ' '] + v2;
    let klen = key.len() as int;
    let eq1 = klen + 1;
    let e1 = klen + 3 + v1.len();
    let start2 = e1 + 1;
    let eq2 = start2 + klen + 1;
    let e2 = s.len() as int;
    // the first line
    assert forall|k: int| 0 <= k < eq1 implies s[k] != '=' && s[k] != '\n' by {
        if k < klen {
            assert(s[k] == key[k]);
        } else {
            assert(s[k] == ' ');
        }
    }
    assert(s[0] == key[0]);
    assert(s[eq1] == '=');
    assert forall|k: int| eq1 < k < e1 implies plain_char(#[trigger] s[k]) by {
        if k == eq1 + 1 {
            assert(s[k] == ' ');
        } else {
            assert(s[k] == v1[k - eq1 - 2]);
        }
    }
    assert(s[e1] == '\n');
    lemma_seg_step_plain_line(s, 0, eq1, e1);
    assert(s.subrange(0, eq1) =~= key + seq![' ']);
    lemma_trim_word_space(key);
    assert(s.subrange(eq1 + 1, e1) =~= seq![' '] + v1);
    lemma_trim_space_word(v1);
    // the second line
    assert forall|k: int| start2 <= k < eq2 implies s[k] != '=' && s[k] != '\n' by {
        if k < start2 + klen {
            assert(s[k] == key[k - start2]);
        } else {
            assert(s[k] == ' ');
        }
    }
    assert(s[start2] == key[0]);
    assert(s[eq2] == '=');
    assert forall|k: int| eq2 < k < e2 implies plain_char(#[trigger] s[k]) by {
        if k == eq2 + 1 {
            assert(s[k] == ' ');
        } else {
            assert(s[k] == v2[k - eq2 - 2]);
        }
    }
    lemma_seg_step_plain_line(s, start2, eq2, e2);
    assert(s.subrange(start2, eq2) =~= key + seq![' ']);
    assert(s.subrange(eq2 + 1, e2) =~= seq![' '] + v2);
    lemma_trim_space_word(v2);
    // segmentation resumes at the newline and lands on the second line
    assert(skip_ws(s, start2) == start2);
    assert(skip_ws(s, e1) == start2);
    assert(skip_blank(s, e1) == start2);
    assert(skip_blank(s, start2) == start2);
    assert(seg_step(s, e1) == seg_step(s, start2));
    // the first step inserts the key, the second finds it present
    let v = parse_value_spec(v1)->Ok_0;
    let acc1 = Map::<Seq<char>, TomlData>::empty().insert(key, v);
    assert(acc1.contains_key(key));
    assert(parse_scope(s, e1, acc1, true) == Err::<Map<Seq<char>, TomlData>, _>(
        TomlError::InvalidToml,
    ));
}

/// Scanning inside a quote that never closes reaches the end of the input
/// unbalanced.
proof fn lemma_scan_unterminated(s: Seq<char>, k: int)
    requires
        0 <= k <= s.len(),
        forall|i: int| k <= i < s.len() ==> s[i] != '"',
    ensures
        scan_span(s, k, seq!['"'], false) is None,
    decreases s.len() - k,
{
    let stack = seq!['"'];
    assert(stack.last() == '"');
    if k < s.len() {
        assert(s[k] != '"');
        assert(crate::iterator::pm_step(stack, s[k]) == Some(stack));
        lemma_scan_unterminated(s, k + 1);
    }
}

/// Unterminated value rejection: a value whose opening quote is never closed
/// before the end of the input fails with `InvalidToml`, whatever follows
/// the quote.
pub proof fn lemma_unterminated_value(key: Seq<char>, tail: Seq<char>)
    requires
        plain_key(key),
        forall|k: int| 0 <= k < tail.len() ==> #[trigger] tail[k] != '"',
    ensures
        parse_toml_spec(key + seq![' ', '=', ' ', '"'] + tail) == Err::<
            Map<Seq<char>, TomlData>,
            _,
        >(TomlError::InvalidToml),
{
    let s = key + seq![' ', '=', ' ', '"'] + tail;
    let klen = key.len() as int;
    let eqpos = klen + 1;
    assert(s[0] == key[0]);
    assert(skip_ws(s, 0) == 0);
    assert(skip_blank(s, 0) == 0);
    assert(s[eqpos] == '=');
    let eol = line_end(s, 0);
    crate::iterator::lemma_line_end_bounds(s, 0);
    assert forall|k: int| 0 <= k < eqpos implies s[k] != '=' && s[k] != '\n' by {
        if k < klen {
            assert(s[k] == key[k]);
        } else {
            assert(s[k] == ' ');
        }
    }
    assert(eol > eqpos) by {
        if eol <= eqpos {
            assert(s[eol] == '\n');
        }
    }
    lemma_find_eq_value(s, 0, eqpos, eol);
    // the scan opens the quote and never closes it
    assert(crate::iterator::pm_step(Seq::empty(), ' ') == Some(Seq::<char>::empty()));
    assert(s[eqpos + 1] == ' ');
    assert(s[eqpos + 2] == '"');
    assert(!crate::iterator::triple_at(s, eqpos + 1));
    assert(!crate::iterator::triple_at(s, eqpos + 2)) by {
        if eqpos + 5 <= s.len() {
            assert(s[eqpos + 3] == tail[0]);
        } else if eqpos + 4 <= s.len() {
            assert(s[eqpos + 3] == tail[0]);
        }
    }
    assert(crate::iterator::pm_step(Seq::empty(), '"') == Some(seq!['"']));
    assert forall|i: int| eqpos + 3 <= i < s.len() implies s[i] != '"' by {
        assert(s[i] == tail[i - eqpos - 3]);
    }
    lemma_scan_unterminated(s, eqpos + 3);
    assert(scan_span(s, eqpos + 2, Seq::empty(), false) == scan_span(s, eqpos + 3, seq!['"'], false));
    assert(scan_span(s, eqpos + 1, Seq::empty(), false) == scan_span(s, eqpos + 2, Seq::empty(), false));
    assert(scan_span(s, eqpos + 1, Seq::empty(), false) is None);
    assert(seg_step(s, 0) is Fail);
}

/// Without a line that begins a section header, a section body runs to the
/// end of the text.
pub proof fn lemma_find_section_end_none(s: Seq<char>, i: int)
    requires
        0 <= i <= s.len(),
        forall|k: int| i <= k < s.len() ==> s[k] != '[',
    ensures
        crate::iterator::find_section_end(s, i) == s.len(),
    decreases s.len() - i,
{
    if i < s.len() {
        crate::iterator::lemma_skip_line_ws_bounds(s, i);
        crate::iterator::lemma_line_end_bounds(s, i);
        let e = line_end(s, i);
        if e < s.len() {
            lemma_find_section_end_none(s, e + 1);
        }
    }
}

/// One segmentation step on a `[name]` header line: the section's name is
/// the text strictly between the brackets, its body everything up to the
/// next line that begins a section header (or the end of the text), and
/// segmentation continues at the body's end.
pub proof fn lemma_seg_step_section(s: Seq<char>, i: int, e: int)
    requires
        0 <= i < e <= s.len(),
        e - i >= 2,
        s[i] == '[',
        s[e - 1] == ']',
        forall|k: int| i <= k < e ==> s[k] != '\n',
        e == s.len() || s[e] == '\n',
    ensures
        seg_step(s, i) == (SegStep::Section {
            name: s.subrange(i + 1, e - 1),
            body: s.subrange(
                if e < s.len() {
                    e + 1
                } else {
                    e
                },
                crate::iterator::find_section_end(
                    s,
                    if e < s.len() {
                        e + 1
                    } else {
                        e
                    },
                ),
            ),
            next: crate::iterator::find_section_end(
                s,
                if e < s.len() {
                    e + 1
                } else {
                    e
                },
            ),
        }),
{
    assert(skip_ws(s, i) == i);
    assert(skip_blank(s, i) == i);
    lemma_line_end_value(s, i, e);
    let line = s.subrange(i, e);
    lemma_trim_start_range(line, 0);
    assert(crate::text::trim_start_spec(line) =~= line);
    lemma_trim_end_range(line, line.len() as int);
    assert(trim_spec(line) =~= line);
    assert(line.len() >= 2);
    assert(line.last() == ']');
    assert(line.subrange(1, line.len() - 1) =~= s.subrange(i + 1, e - 1));
}

/// Parsing steps over a newline exactly as from the position after it.
pub proof fn lemma_scope_over_newline(
    s: Seq<char>,
    e: int,
    acc: Map<Seq<char>, TomlData>,
    top: bool,
)
    requires
        0 <= e < s.len(),
        s[e] == '\n',
    ensures
        parse_scope(s, e, acc, top) == parse_scope(s, e + 1, acc, top),
{
    assert(skip_ws(s, e) == skip_ws(s, e + 1));
    assert(skip_blank(s, e) == skip_blank(s, e + 1));
    assert(seg_step(s, e) == seg_step(s, e + 1));
}

/// Section scoping: a section's body is a scope of its own, and a key inside
/// the section never collides with a key at the top level. For plain
/// single-line entries, parsing `k1 = v1`, then a `[name]` header, then
/// `k2 = v2` yields the top-level entry beside the section's table — also
/// when the two keys are the same.
#[verifier::rlimit(50)]
pub proof fn lemma_section_scoping(
    k1: Seq<char>,
    v1: Seq<char>,
    name: Seq<char>,
    k2: Seq<char>,
    v2: Seq<char>,
)
    requires
        plain_key(k1),
        plain_key(k2),
        plain_key(name),
        k1 != name,
        v1.len() > 0,
        v2.len() > 0,
        forall|k: int| 0 <= k < v1.len() ==> (!is_ws(#[trigger] v1[k]) && plain_char(v1[k])),
        forall|k: int| 0 <= k < v2.len() ==> (!is_ws(#[trigger] v2[k]) && plain_char(v2[k])),
        parse_value_spec(v1) is Ok,
        parse_value_spec(v2) is Ok,
    ensures
        parse_toml_spec(
            k1 + seq![' ', '=', ' '] + v1 + seq!['\n', '['] + name + seq![']', '\n'] + k2 + seq![
                ' ',
                '=',
                ' ',
            ] + v2,
        ) == Ok::<_, TomlError>(
            Map::<Seq<char>, TomlData>::empty().insert(k1, parse_value_spec(v1)->Ok_0).insert(
                name,
                TomlData::Tbl(
                    Map::<Seq<char>, TomlData>::empty().insert(k2, parse_value_spec(v2)->Ok_0),
                ),
            ),
        ),
{
    let s = k1 + seq![' ', '=', ' '] + v1 + seq!['\n', '['] + name + seq![']', '\n'] + k2 + seq![
        ' ',
        '=',
        ' ',
    ] + v2;
    let kl1 = k1.len() as int;
    let eq1 = kl1 + 1;
    let e1 = kl1 + 3 + v1.len();  // the first newline
    let h = e1 + 1;  // the opening bracket
    let nstart = h + 1;
    let hb_end = nstart + name.len();  // the closing bracket
    let e2 = hb_end + 1;  // the newline after the header
    let bstart = e2 + 1;  // start of the section body
    let eq2 = bstart + k2.len() + 1;
    let e3 = s.len() as int;
    // the first line
    assert forall|k: int| 0 <= k < eq1 implies s[k] != '=' && s[k] != '\n' by {
        if k < kl1 {
            assert(s[k] == k1[k]);
        } else {
            assert(s[k] == ' ');
        }
    }
    assert(s[0] == k1[0]);
    assert(s[eq1] == '=');
    assert forall|k: int| eq1 < k < e1 implies plain_char(#[trigger] s[k]) by {
        if k == eq1 + 1 {
            assert(s[k] == ' ');
        } else {
            assert(s[k] == v1[k - eq1 - 2]);
        }
    }
    assert(s[e1] == '\n');
    lemma_seg_step_plain_line(s, 0, eq1, e1);
    assert(s.subrange(0, eq1) =~= k1 + seq![' ']);
    lemma_trim_word_space(k1);
    assert(s.subrange(eq1 + 1, e1) =~= seq![' '] + v1);
    lemma_trim_space_word(v1);
    // over the newline to the header line
    assert(s[h] == '[');
    assert(skip_ws(s, h) == h);
    assert(skip_ws(s, e1) == h);
    assert(skip_blank(s, e1) == h);
    assert(skip_blank(s, h) == h);
    assert(seg_step(s, e1) == seg_step(s, h));
    // the header line
    assert(s[hb_end] == ']');
    assert forall|k: int| h <= k < e2 implies s[k] != '\n' by {
        if k > h && k < hb_end {
            assert(s[k] == name[k - nstart]);
            assert(plain_char(name[k - nstart]));
        }
    }
    assert(s[e2] == '\n');
    lemma_seg_step_section(s, h, e2);
    assert(s.subrange(h + 1, e2 - 1) =~= name);
    // nothing after the header begins another section
    assert forall|k: int| bstart <= k < e3 implies s[k] != '[' by {
        if k < bstart + k2.len() {
            assert(s[k] == k2[k - bstart]);
            assert(plain_char(k2[k - bstart]));
        } else if k < eq2 + 2 {
            assert(s[k] == seq![' ', '=', ' '][k - bstart - k2.len()]);
        } else {
            assert(s[k] == v2[k - eq2 - 2]);
            assert(plain_char(v2[k - eq2 - 2]));
        }
    }
    lemma_find_section_end_none(s, bstart);
    let body = s.subrange(bstart, e3);
    // the body is the single plain line `k2 = v2`
    assert(body =~= k2 + seq![' ', '=', ' '] + v2);
    let beq = k2.len() as int + 1;
    let bend = body.len() as int;
    assert forall|k: int| 0 <= k < beq implies body[k] != '=' && body[k] != '\n' by {
        if k < k2.len() {
            assert(body[k] == k2[k]);
        } else {
            assert(body[k] == ' ');
        }
    }
    assert(body[0] == k2[0]);
    assert(body[beq] == '=');
    assert forall|k: int| beq < k < bend implies plain_char(#[trigger] body[k]) by {
        if k == beq + 1 {
            assert(body[k] == ' ');
        } else {
            assert(body[k] == v2[k - beq - 2]);
        }
    }
    lemma_seg_step_plain_line(body, 0, beq, bend);
    assert(body.subrange(0, beq) =~= k2 + seq![' ']);
    lemma_trim_word_space(k2);
    assert(body.subrange(beq + 1, bend) =~= seq![' '] + v2);
    lemma_trim_space_word(v2);
    // the section body parses into its own one-entry scope
    let inner = Map::<Seq<char>, TomlData>::empty().insert(k2, parse_value_spec(v2)->Ok_0);
    assert(seg_step(body, bend) is Done) by {
        assert(skip_ws(body, bend) == bend);
        assert(skip_blank(body, bend) == bend);
    }
    assert(parse_scope(body, bend, inner, false) == Ok::<_, TomlError>(inner));
    assert(parse_scope(body, 0, Map::empty(), false) == Ok::<_, TomlError>(inner));
    // the section's table stands beside the top-level key
    let acc1 = Map::<Seq<char>, TomlData>::empty().insert(k1, parse_value_spec(v1)->Ok_0);
    assert(!acc1.contains_key(name));
    let acc2 = acc1.insert(name, TomlData::Tbl(inner));
    assert(seg_step(s, e3) is Done) by {
        assert(skip_ws(s, e3) == e3);
        assert(skip_blank(s, e3) == e3);
    }
    assert(parse_scope(s, e3, acc2, true) == Ok::<_, TomlError>(acc2));
    assert(parse_scope(s, h, acc1, true) == Ok::<_, TomlError>(acc2));
    assert(parse_scope(s, e1, acc1, true) == Ok::<_, TomlError>(acc2));
}

/// Comment skipping: at a line whose first non-whitespace character is `#`,
/// the parse continues exactly as from the end of that line, whatever the
/// line holds; the comment contributes no entry and causes no error.
pub proof fn lemma_comment_skipping(
    s: Seq<char>,
    i: int,
    acc: Map<Seq<char>, TomlData>,
    top: bool,
)
    requires
        0 <= i <= s.len(),
        skip_ws(s, i) < s.len(),
        s[skip_ws(s, i)] == '#',
    ensures
        parse_scope(s, i, acc, top) == parse_scope(s, line_end(s, skip_ws(s, i)), acc, top),
{
    let j = skip_ws(s, i);
    crate::iterator::lemma_skip_ws_bounds(s, i);
    crate::iterator::lemma_line_end_bounds(s, j);
    let e = line_end(s, j);
    assert(skip_blank(s, i) == skip_blank(s, e));
    assert(seg_step(s, i) == seg_step(s, e));
}

} // verus!