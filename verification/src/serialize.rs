//! Re-serializing a parsed document into the text form: one `key = value`
//! line per entry, tables written inline. Strings are written between plain
//! quotes (the format has no escape sequences, so only quote-free,
//! newline-free strings read back); integers in decimal; floats as the
//! literal text they were parsed from.

use vstd::prelude::*;

use crate::iterator::{scan_span, seg_step, skip_blank, skip_ws};
use crate::laws::{dec_repr, dec_u};
use crate::text::{chars_of, is_digit, is_ws, push_range, string_from_chars, trim_spec};
use crate::toml::{
    float_split_at, has_newline, int_literal_val, is_float_literal, is_int_literal, parse_scope,
    parse_value_spec, table_keys_unique, table_model, unsigned_part, TomlData, TomlError, TomlType,
};

verus! {

/// The text of one serialized value.
pub open spec fn ser_value(t: TomlType) -> Seq<char>
    decreases t,
{
    match t {
        TomlType::String(s) => seq!['"'] + s@ + seq!['"'],
        TomlType::Boolean(b) => if b {
            "true"@
        } else {
            "false"@
        },
        TomlType::Integer(n) => dec_repr(n as int),
        TomlType::Float(f) => f@,
        TomlType::Array(v) => seq!['['] + ser_items(v@) + seq![']'],
        TomlType::Table(tb) => seq!['{'] + ser_inline(tb@) + seq!['}'],
    }
}

/// The comma-separated elements of a serialized array.
pub open spec fn ser_items(elems: Seq<TomlType>) -> Seq<char>
    decreases elems,
{
    if elems.len() == 0 {
        Seq::empty()
    } else if elems.len() == 1 {
        ser_value(elems[0])
    } else {
        ser_value(elems[0]) + seq![',', ' '] + ser_items(elems.drop_first())
    }
}

/// The comma-separated entries of a serialized inline table.
pub open spec fn ser_inline(entries: Seq<(String, TomlType)>) -> Seq<char>
    decreases entries,
{
    if entries.len() == 0 {
        Seq::empty()
    } else if entries.len() == 1 {
        entries[0].0@ + seq![' ', '=', ' '] + ser_value(entries[0].1)
    } else {
        entries[0].0@ + seq![' ', '=', ' '] + ser_value(entries[0].1) + seq![',', ' ']
            + ser_inline(entries.drop_first())
    }
}

/// One serialized `key = value` line, newline included.
pub open spec fn ser_line(key: Seq<char>, t: TomlType) -> Seq<char> {
    key + seq![' ', '=', ' '] + ser_value(t) + seq!['\n']
}

/// The serialized document: one line per entry, in order.
pub open spec fn ser_doc(entries: Seq<(String, TomlType)>) -> Seq<char>
    decreases entries.len(),
{
    if entries.len() == 0 {
        Seq::empty()
    } else {
        ser_line(entries[0].0@, entries[0].1) + ser_doc(entries.drop_first())
    }
}

/// The decimal text of an integer.
#[verifier::loop_isolation(false)]
pub fn int_to_decimal(n: i64) -> (r: Vec<char>)
    ensures
        r@ == dec_repr(n as int),
{
    let neg = n < 0;
    let mag: u64 = if n < 0 {
        ((-(n + 1)) as u64) + 1
    } else {
        n as u64
    };
    let mut digits: Vec<char> = Vec::new();
    let mut m: u64 = mag;
    while m >= 10
        invariant
            dec_u(mag as nat) =~= dec_u(m as nat) + digits@,
        decreases m,
    {
        let d = (m % 10) as u8;
        let c = (48 + d) as char;
        proof {
            assert(dec_u(m as nat) =~= dec_u((m as nat) / 10).push(((48 + (m as nat) % 10) as char)));
            assert(c == ((48 + (m as nat) % 10) as char));
            assert(dec_u((m as nat) / 10) + (seq![c] + digits@) =~= (dec_u((m as nat) / 10).push(
                c,
            )) + digits@);
            assert((m / 10) as nat == (m as nat) / 10);
        }
        digits.insert(0, c);
        m = m / 10;
    }
    let d = (48 + (m % 10) as u8) as char;
    let ghost before = digits@;
    digits.insert(0, d);
    proof {
        assert(dec_u(m as nat) =~= seq![d]);
        assert(digits@ =~= seq![d] + before);
        assert(digits@ =~= dec_u(mag as nat));
    }
    if neg {
        let mut out: Vec<char> = Vec::new();
        out.push('-');
        push_range(&mut out, &digits, 0, digits.len());
        proof {
            assert(digits@.subrange(0, digits@.len() as int) =~= digits@);
            assert(out@ =~= seq!['-'] + dec_u(mag as nat));
            assert(mag as int == -(n as int));
        }
        out
    } else {
        proof {
            assert(mag as int == n as int);
        }
        digits
    }
}

/// The text of one value.
pub fn serialize_value(t: &TomlType) -> (r: Vec<char>)
    ensures
        r@ == ser_value(*t),
    decreases *t,
{
    match t {
        TomlType::String(s) => {
            let mut out: Vec<char> = Vec::new();
            out.push('"');
            let content = chars_of(s.as_str());
            push_range(&mut out, &content, 0, content.len());
            out.push('"');
            proof {
                assert(content@.subrange(0, content@.len() as int) =~= content@);
                assert(out@ =~= seq!['"'] + s@ + seq!['"']);
            }
            out
        },
        TomlType::Boolean(b) => {
            if *b {
                chars_of("true")
            } else {
                chars_of("false")
            }
        },
        TomlType::Integer(n) => int_to_decimal(*n),
        TomlType::Float(f) => chars_of(f.as_str()),
        TomlType::Array(v) => {
            let mut out: Vec<char> = Vec::new();
            out.push('[');
            let inner = serialize_items(v);
            push_range(&mut out, &inner, 0, inner.len());
            out.push(']');
            proof {
                assert(inner@.subrange(0, inner@.len() as int) =~= inner@);
                assert(out@ =~= seq!['['] + ser_items(v@) + seq![']']);
            }
            out
        },
        TomlType::Table(tb) => {
            let mut out: Vec<char> = Vec::new();
            out.push('{');
            let inner = serialize_inline(tb);
            push_range(&mut out, &inner, 0, inner.len());
            out.push('}');
            proof {
                assert(inner@.subrange(0, inner@.len() as int) =~= inner@);
                assert(out@ =~= seq!['{'] + ser_inline(tb@) + seq!['}']);
            }
            out
        },
    }
}

/// The comma-separated elements of an array.
#[verifier::loop_isolation(false)]
fn serialize_items(v: &Vec<TomlType>) -> (r: Vec<char>)
    ensures
        r@ == ser_items(v@),
    decreases v@,
{
    let mut out: Vec<char> = Vec::new();
    let n = v.len();
    let mut k: usize = 0;
    proof {
        assert(v@.skip(0) =~= v@);
        assert(out@ + ser_items(v@.skip(0)) =~= ser_items(v@.skip(0)));
    }
    while k < n
        invariant
            k <= n,
            ser_items(v@) =~= out@ + ser_items(v@.skip(k as int)),
        decreases n - k,
    {
        proof {
            assert(v@.skip(k as int)[0] == v@[k as int]);
            assert(v@.skip(k as int).drop_first() =~= v@.skip(k + 1 as int));
            assert(decreases_to!(v@ => v@[k as int]));
        }
        let piece = serialize_value(&v[k]);
        let ghost before = out@;
        push_range(&mut out, &piece, 0, piece.len());
        proof {
            assert(piece@.subrange(0, piece@.len() as int) =~= piece@);
        }
        if k + 1 < n {
            out.push(',');
            out.push(' ');
            proof {
                assert(out@ =~= before + ser_value(v@[k as int]) + seq![',', ' ']);
                assert(ser_items(v@.skip(k as int)) =~= ser_value(v@[k as int]) + seq![',', ' ']
                    + ser_items(v@.skip(k + 1 as int)));
                assert(out@ + ser_items(v@.skip(k + 1 as int)) =~= before + ser_items(
                    v@.skip(k as int),
                ));
            }
        } else {
            proof {
                assert(v@.skip(k as int).len() == 1);
                assert(ser_items(v@.skip(k as int)) =~= ser_value(v@[k as int]));
                assert(v@.skip(k + 1 as int) =~= Seq::<TomlType>::empty());
                assert(out@ + ser_items(v@.skip(k + 1 as int)) =~= before + ser_items(
                    v@.skip(k as int),
                ));
            }
        }
        k += 1;
    }
    proof {
        assert(v@.skip(n as int) =~= Seq::<TomlType>::empty());
        assert(out@ + ser_items(v@.skip(n as int)) =~= out@);
    }
    out
}

/// The comma-separated entries of an inline table.
#[verifier::loop_isolation(false)]
fn serialize_inline(tb: &Vec<(String, TomlType)>) -> (r: Vec<char>)
    ensures
        r@ == ser_inline(tb@),
    decreases tb@,
{
    let mut out: Vec<char> = Vec::new();
    let n = tb.len();
    let mut k: usize = 0;
    proof {
        assert(tb@.skip(0) =~= tb@);
        assert(out@ + ser_inline(tb@.skip(0)) =~= ser_inline(tb@.skip(0)));
    }
    while k < n
        invariant
            k <= n,
            ser_inline(tb@) =~= out@ + ser_inline(tb@.skip(k as int)),
        decreases n - k,
    {
        proof {
            assert(tb@.skip(k as int)[0] == tb@[k as int]);
            assert(tb@.skip(k as int).drop_first() =~= tb@.skip(k + 1 as int));
            assert(decreases_to!(tb@ => tb@[k as int]));
            assert(decreases_to!(tb@[k as int] => tb@[k as int].1));
        }
        let ghost before = out@;
        let key = chars_of(tb[k].0.as_str());
        push_range(&mut out, &key, 0, key.len());
        out.push(' ');
        out.push('=');
        out.push(' ');
        let piece = serialize_value(&tb[k].1);
        push_range(&mut out, &piece, 0, piece.len());
        proof {
            assert(key@.subrange(0, key@.len() as int) =~= key@);
            assert(piece@.subrange(0, piece@.len() as int) =~= piece@);
        }
        if k + 1 < n {
            out.push(',');
            out.push(' ');
            proof {
                assert(out@ =~= before + tb@[k as int].0@ + seq![' ', '=', ' '] + ser_value(
                    tb@[k as int].1,
                ) + seq![',', ' ']);
                assert(out@ + ser_inline(tb@.skip(k + 1 as int)) =~= before + ser_inline(
                    tb@.skip(k as int),
                ));
            }
        } else {
            proof {
                assert(tb@.skip(k as int).len() == 1);
                assert(out@ =~= before + tb@[k as int].0@ + seq![' ', '=', ' '] + ser_value(
                    tb@[k as int].1,
                ));
                assert(tb@.skip(k + 1 as int) =~= Seq::<(String, TomlType)>::empty());
                assert(out@ + ser_inline(tb@.skip(k + 1 as int)) =~= before + ser_inline(
                    tb@.skip(k as int),
                ));
            }
        }
        k += 1;
    }
    proof {
        assert(tb@.skip(n as int) =~= Seq::<(String, TomlType)>::empty());
        assert(out@ + ser_inline(tb@.skip(n as int)) =~= out@);
    }
    out
}

/// The serialized text of a whole document: one `key = value` line per
/// entry, in order.
#[verifier::loop_isolation(false)]
pub fn serialize_document(doc: &Vec<(String, TomlType)>) -> (r: String)
    ensures
        r@ == ser_doc(doc@),
{
    let mut out: Vec<char> = Vec::new();
    let n = doc.len();
    let mut k: usize = 0;
    proof {
        assert(doc@.skip(0) =~= doc@);
        assert(out@ + ser_doc(doc@.skip(0)) =~= ser_doc(doc@.skip(0)));
    }
    while k < n
        invariant
            k <= n,
            ser_doc(doc@) =~= out@ + ser_doc(doc@.skip(k as int)),
        decreases n - k,
    {
        proof {
            assert(doc@.skip(k as int)[0] == doc@[k as int]);
            assert(doc@.skip(k as int).drop_first() =~= doc@.skip(k + 1 as int));
        }
        let ghost before = out@;
        let key = chars_of(doc[k].0.as_str());
        push_range(&mut out, &key, 0, key.len());
        out.push(' ');
        out.push('=');
        out.push(' ');
        let piece = serialize_value(&doc[k].1);
        push_range(&mut out, &piece, 0, piece.len());
        out.push('\n');
        proof {
            assert(key@.subrange(0, key@.len() as int) =~= key@);
            assert(piece@.subrange(0, piece@.len() as int) =~= piece@);
            assert(out@ =~= before + ser_line(doc@[k as int].0@, doc@[k as int].1));
            assert(out@ + ser_doc(doc@.skip(k + 1 as int)) =~= before + ser_doc(
                doc@.skip(k as int),
            ));
        }
        k += 1;
    }
    proof {
        assert(doc@.skip(n as int) =~= Seq::<(String, TomlType)>::empty());
        assert(out@ + ser_doc(doc@.skip(n as int)) =~= out@);
    }
    string_from_chars(&out)
}

// ---------------------------------------------------------------------------
// The round trip of serialized documents
// ---------------------------------------------------------------------------
/// A value whose serialized text reads back: a string without quotes or
/// newlines, an integer, or a float literal. (The reserved `Boolean` has no
/// parse path, and compound values are out of the round trip's scope.)
pub open spec fn scalar_ok(t: TomlType) -> bool {
    match t {
        TomlType::String(s) => !has_newline(s@) && (forall|k: int|
            0 <= k < s@.len() ==> #[trigger] s@[k] != '"'),
        TomlType::Integer(_) => true,
        TomlType::Float(f) => is_float_literal(f@),
        _ => false,
    }
}

/// Every character of a float literal is a digit, the sign, or the decimal
/// point.
pub proof fn lemma_float_chars(lit: Seq<char>)
    requires
        is_float_literal(lit),
    ensures
        lit.len() >= 3,
        lit[0] == '-' || is_digit(lit[0]),
        lit[0] != '"' && lit[0] != '[' && lit[0] != '{',
        forall|k: int|
            0 <= k < lit.len() ==> (crate::laws::plain_char(#[trigger] lit[k]) && !is_ws(lit[k])),
    decreases 0int,
{
    let d = unsigned_part(lit);
    let p = choose|p: int| #[trigger] float_split_at(d, p);
    assert(1 <= p <= d.len() - 2);
    let off: int = if lit.len() > 0 && lit[0] == '-' {
        1
    } else {
        0
    };
    assert forall|k: int|
        0 <= k < lit.len() implies (crate::laws::plain_char(#[trigger] lit[k]) && !is_ws(
        lit[k],
    )) by {
        if k >= off {
            assert(lit[k] == d[k - off]);
            if k - off < p {
                assert(is_digit(d.subrange(0, p)[k - off]));
            } else if k - off > p {
                assert(is_digit(d.subrange(p + 1, d.len() as int)[k - off - p - 1]));
            }
        }
    }
    assert(lit[0] == '-' || lit[0] == d[0]);
    if lit[0] != '-' {
        assert(is_digit(d.subrange(0, p)[0]));
    }
}

/// Scanning inside an open plain quote: every character up to the closing
/// quote is literal.
proof fn lemma_scan_instring(s: Seq<char>, k: int, m: int)
    requires
        0 <= k <= m < s.len(),
        forall|i: int| k <= i < m ==> s[i] != '"',
        s[m] == '"',
    ensures
        scan_span(s, k, seq!['"'], false) == scan_span(s, m + 1, Seq::empty(), false),
    decreases m - k,
{
    let stack = seq!['"'];
    assert(stack.last() == '"');
    if k == m {
        assert(crate::iterator::pm_step(stack, s[m]) == Some(stack.drop_last()));
        assert(stack.drop_last() =~= Seq::<char>::empty());
    } else {
        assert(s[k] != '"');
        assert(crate::iterator::pm_step(stack, s[k]) == Some(stack));
        lemma_scan_instring(s, k + 1, m);
    }
}

/// The span of a quoted string value: the scanner opens the quote, passes
/// over the content, closes the quote, and the span ends at the newline or
/// the end of the text.
proof fn lemma_scan_quoted(s: Seq<char>, a: int, e: int)
    requires
        0 <= a,
        a + 2 <= e <= s.len(),
        s[a] == '"',
        s[e - 1] == '"',
        forall|k: int| a < k < e - 1 ==> (s[k] != '"' && s[k] != '\n'),
        e == s.len() || s[e] == '\n',
    ensures
        scan_span(s, a, Seq::empty(), false) == Some(e),
{
    // the opening quote does not begin a `"""` sequence
    assert(!crate::iterator::triple_at(s, a)) by {
        if a + 3 <= s.len() && s[a + 1] == '"' {
            assert(a + 1 >= e - 1);
            assert(a + 2 >= e);
            assert(s[a + 2] != '"');
        }
    }
    assert(crate::iterator::pm_step(Seq::empty(), '"') == Some(seq!['"']));
    lemma_scan_instring(s, a + 1, e - 1);
    if e < s.len() {
        assert(scan_span(s, e, Seq::empty(), false) == Some(e));
    }
}

/// What a scalar's serialized text looks like to the scanner and the trim.
pub proof fn lemma_ser_scalar_shape(t: TomlType)
    requires
        scalar_ok(t),
    ensures
        ser_value(t).len() >= 1,
        !is_ws(ser_value(t)[0]),
        !is_ws(ser_value(t).last()),
        ser_value(t)[0] != '#',
        forall|k: int| 0 <= k < ser_value(t).len() ==> #[trigger] ser_value(t)[k] != '\n',
{
    let v = ser_value(t);
    match t {
        TomlType::String(s) => {
            assert(v[0] == '"');
            assert(v.last() == '"');
            assert forall|k: int| 0 <= k < v.len() implies #[trigger] v[k] != '\n' by {
                if 0 < k < v.len() - 1 {
                    assert(v[k] == s@[k - 1]);
                    assert(!has_newline(s@));
                }
            }
        },
        TomlType::Integer(n) => {
            crate::laws::lemma_dec_repr(n as int);
        },
        TomlType::Float(f) => {
            lemma_float_chars(f@);
        },
        _ => {},
    }
}

/// The serialized text of a scalar parses back to exactly its model.
pub proof fn lemma_parse_ser_scalar(t: TomlType)
    requires
        scalar_ok(t),
    ensures
        parse_value_spec(ser_value(t)) == Ok::<TomlData, TomlError>(t.model()),
{
    let v = ser_value(t);
    match t {
        TomlType::String(s) => {
            assert(v.len() == s@.len() + 2);
            assert(v[0] == '"');
            assert(v.last() == '"');
            assert forall|k: int| 0 < k < v.len() - 1 implies #[trigger] v[k] == s@[k - 1] by {}
            assert(!(v.len() >= 3 && v[0] == '"' && v[1] == '"' && v[2] == '"')) by {
                if v.len() >= 3 && v[1] == '"' {
                    // the second quote can only be the closing one
                    assert(s@.len() >= 1);
                    assert(v[1] == s@[0]);
                }
            }
            assert(!has_newline(v)) by {
                if has_newline(v) {
                    let k = choose|k: int| 0 <= k < v.len() && #[trigger] v[k] == '\n';
                    assert(0 < k < v.len() - 1);
                    assert(s@[k - 1] == '\n');
                    assert(has_newline(s@));
                }
            }
            assert(v.subrange(1, v.len() - 1) =~= s@);
        },
        TomlType::Integer(n) => {
            crate::laws::lemma_dec_repr(n as int);
            assert(v[0] != '"' && v[0] != '[' && v[0] != '{');
            assert(!(v.len() >= 3 && v[0] == '"' && v[1] == '"' && v[2] == '"'));
            assert(is_int_literal(v));
            assert(int_literal_val(v) == n as int);
        },
        TomlType::Float(f) => {
            lemma_float_chars(f@);
            assert(!(v.len() >= 3 && v[0] == '"' && v[1] == '"' && v[2] == '"'));
            assert(!is_int_literal(v)) by {
                let d = unsigned_part(v);
                let p = choose|p: int| #[trigger] float_split_at(d, p);
                assert(d[p] == '.');
                assert(!is_digit('.'));
            }
        },
        _ => {},
    }
}

/// A document fit for the round trip: plain keys, pairwise distinct, each
/// value a scalar of the round trip's scope.
pub open spec fn doc_serializable(entries: Seq<(String, TomlType)>) -> bool {
    &&& table_keys_unique(entries)
    &&& forall|i: int| 0 <= i < entries.len() ==> crate::laws::plain_key(#[trigger] entries[i].0@)
    &&& forall|i: int| 0 <= i < entries.len() ==> scalar_ok((#[trigger] entries[i]).1)
}

/// The lines of a serialized document parse back one by one, each inserting
/// its entry into the scope.
proof fn lemma_roundtrip_lines(s: Seq<char>, i: int, entries: Seq<(String, TomlType)>, k: int)
    requires
        doc_serializable(entries),
        0 <= k <= entries.len(),
        0 <= i <= s.len(),
        s.subrange(i, s.len() as int) == ser_doc(entries.skip(k)),
    ensures
        parse_scope(s, i, table_model(entries.take(k)), true) == Ok::<_, TomlError>(
            table_model(entries),
        ),
    decreases entries.len() - k,
{
    let acc = table_model(entries.take(k));
    if k == entries.len() {
        assert(entries.skip(k) =~= Seq::<(String, TomlType)>::empty());
        assert(ser_doc(entries.skip(k)) == Seq::<char>::empty());
        assert(i == s.len());
        assert(skip_ws(s, i) == i);
        assert(skip_blank(s, i) == i);
        assert(seg_step(s, i) is Done);
        assert(entries.take(k) =~= entries);
    } else {
        let key = entries[k].0@;
        let t = entries[k].1;
        assert(entries.skip(k)[0] == entries[k]);
        assert(entries.skip(k).drop_first() =~= entries.skip(k + 1));
        let line = ser_line(key, t);
        let rest = ser_doc(entries.skip(k + 1));
        assert(s.subrange(i, s.len() as int) == line + rest);
        lemma_ser_scalar_shape(t);
        let sv = ser_value(t);
        let klen = key.len() as int;
        let eqpos = i + klen + 1;
        let e = i + line.len() - 1;
        assert(line.len() == klen + 3 + sv.len() + 1);
        // characters of the line, read off the subrange equality
        assert forall|off: int| 0 <= off < line.len() implies s[i + off] == #[trigger] line[off] by {
            assert(s.subrange(i, s.len() as int)[off] == s[i + off]);
            assert((line + rest)[off] == line[off]);
        }
        assert(crate::laws::plain_key(key));
        assert forall|k2: int| i <= k2 < eqpos implies s[k2] != '=' && s[k2] != '\n' by {
            assert(s[k2] == line[k2 - i]);
            if k2 - i < klen {
                assert(line[k2 - i] == key[k2 - i]);
            } else {
                assert(line[k2 - i] == ' ');
            }
        }
        assert(line[0] == key[0]);
        assert(s[i] == key[0]);
        assert(!is_ws(s[i]) && s[i] != '#' && s[i] != '[');
        assert(s[eqpos] == line[klen + 1]);
        assert(s[eqpos] == '=');
        assert(line[klen + 2] == ' ');
        assert(s[eqpos + 1] == ' ');
        assert forall|k2: int| eqpos + 2 <= k2 < e implies s[k2] == sv[k2 - eqpos - 2] by {
            assert(s[k2] == line[k2 - i]);
        }
        assert(s[e] == line[line.len() - 1]);
        assert(s[e] == '\n');
        // the raw value span runs to the newline
        assert(scan_span(s, eqpos + 1, Seq::empty(), false) == Some(e)) by {
            match t {
                TomlType::String(str_content) => {
                    let a = eqpos + 2;
                    assert(s[a] == sv[0]);
                    assert(sv[0] == '"');
                    assert(s[e - 1] == sv[sv.len() - 1]);
                    assert(sv.last() == '"');
                    assert forall|k2: int| a < k2 < e - 1 implies (s[k2] != '"' && s[k2]
                        != '\n') by {
                        assert(s[k2] == sv[k2 - a]);
                        assert(sv[k2 - a] == str_content@[k2 - a - 1]);
                        assert(str_content@[k2 - a - 1] != '"');
                        assert(!has_newline(str_content@));
                    }
                    assert(crate::iterator::pm_step(Seq::empty(), ' ') == Some(
                        Seq::<char>::empty(),
                    ));
                    assert(!crate::iterator::triple_at(s, eqpos + 1));
                    lemma_scan_quoted(s, a, e);
                },
                TomlType::Integer(n) => {
                    crate::laws::lemma_dec_repr(n as int);
                    assert forall|k2: int|
                        eqpos + 1 <= k2 < e implies crate::laws::plain_char(#[trigger] s[k2]) by {
                        if k2 > eqpos + 1 {
                            assert(s[k2] == sv[k2 - eqpos - 2]);
                        }
                    }
                    crate::laws::lemma_scan_plain(s, eqpos + 1, e);
                },
                TomlType::Float(f) => {
                    lemma_float_chars(f@);
                    assert forall|k2: int|
                        eqpos + 1 <= k2 < e implies crate::laws::plain_char(#[trigger] s[k2]) by {
                        if k2 > eqpos + 1 {
                            assert(s[k2] == sv[k2 - eqpos - 2]);
                        }
                    }
                    crate::laws::lemma_scan_plain(s, eqpos + 1, e);
                },
                _ => {},
            }
        }
        // one segmentation step yields the entry
        assert(skip_ws(s, i) == i);
        assert(skip_blank(s, i) == i);
        assert forall|k2: int| i <= k2 < e implies s[k2] != '\n' by {
            assert(s[k2] == line[k2 - i]);
            if k2 < eqpos {
            } else if k2 == eqpos {
            } else if k2 == eqpos + 1 {
            } else {
                assert(s[k2] == sv[k2 - eqpos - 2]);
            }
        }
        crate::laws::lemma_line_end_value(s, i, e);
        crate::laws::lemma_find_eq_value(s, i, eqpos, e);
        assert(seg_step(s, i) == (crate::iterator::SegStep::Entry {
            key: trim_spec(s.subrange(i, eqpos)),
            raw: trim_spec(s.subrange(eqpos + 1, e)),
            next: e,
        }));
        assert(s.subrange(i, eqpos) =~= key + seq![' ']);
        crate::laws::lemma_trim_word_space(key);
        assert(s.subrange(eqpos + 1, e) =~= seq![' '] + sv);
        crate::laws::lemma_trim_space_word(sv);
        // the value parses to the entry's model
        lemma_parse_ser_scalar(t);
        // the key is new to the scope
        crate::toml::lemma_table_model_contains(entries.take(k), key);
        assert(!acc.contains_key(key)) by {
            if acc.contains_key(key) {
                let j = choose|j: int|
                    0 <= j < entries.take(k).len() && #[trigger] entries.take(k)[j].0@ == key;
                assert(entries[j].0@ == entries[k].0@);
            }
        }
        // inserting it extends the prefix model
        assert(entries.take(k + 1).drop_last() =~= entries.take(k));
        assert(entries.take(k + 1).last() == entries[k]);
        assert(acc.insert(key, t.model()) == table_model(entries.take(k + 1)));
        // step over the newline and continue with the next line
        assert(s.len() - i == line.len() + rest.len());
        assert forall|off: int|
            0 <= off < rest.len() implies s[i + line.len() + off] == #[trigger] rest[off] by {
            assert(s.subrange(i, s.len() as int)[line.len() + off] == s[i + line.len() + off]);
            assert((line + rest)[line.len() + off] == rest[off]);
        }
        assert(s.subrange(e + 1, s.len() as int) =~= rest) by {
            assert forall|off: int|
                0 <= off < rest.len() implies s.subrange(e + 1, s.len() as int)[off]
                == #[trigger] rest[off] by {
                assert(s.subrange(e + 1, s.len() as int)[off] == s[e + 1 + off]);
                assert(s[i + line.len() + off] == rest[off]);
            }
        }
        crate::laws::lemma_scope_over_newline(s, e, acc.insert(key, t.model()), true);
        lemma_roundtrip_lines(s, e + 1, entries, k + 1);
    }
}

/// The round trip of structure: re-serializing a parsed document of scalar
/// values and parsing the text again yields a model deep-equal to the
/// original's.
pub proof fn lemma_serialize_roundtrip(entries: Seq<(String, TomlType)>)
    requires
        doc_serializable(entries),
    ensures
        crate::toml::parse_toml_spec(ser_doc(entries)) == Ok::<_, TomlError>(
            table_model(entries),
        ),
{
    let s = ser_doc(entries);
    assert(entries.skip(0) =~= entries);
    assert(entries.take(0) =~= Seq::<(String, TomlType)>::empty());
    assert(table_model(entries.take(0)) =~= Map::<Seq<char>, TomlData>::empty());
    assert(s.subrange(0, s.len() as int) =~= s);
    lemma_roundtrip_lines(s, 0, entries, 0);
}

} // verus!
