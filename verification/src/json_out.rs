//! Rendering a document as pretty-printed JSON.
//!
//! The output is an array of objects, one object per record and one record
//! per line, indented by two spaces; keys and values are JSON strings. An
//! empty document renders as `[]`. String escaping covers exactly what JSON
//! demands: the quote, the backslash, and the control bytes, the common
//! three by name and the rest as `\u00..`; every other byte passes through
//! unchanged. `json_unescape` reads such a string body back and inverts the
//! escaping, which is what makes field values round-trip byte for byte.

use crate::ascii::BACKSLASH;
use crate::ascii::COLON;
use crate::ascii::COMMA;
use crate::ascii::CR;
use crate::ascii::DIGIT_ZERO;
use crate::ascii::LBRACKET;
use crate::ascii::LF;
use crate::ascii::LOWER_A;
use crate::ascii::LOWER_N;
use crate::ascii::LOWER_R;
use crate::ascii::LOWER_T;
use crate::ascii::LOWER_U;
use crate::ascii::QUOTE;
use crate::ascii::RBRACKET;
use crate::ascii::SPACE;
use crate::ascii::TAB;
use crate::ascii::LBRACE;
use crate::ascii::RBRACE;
use crate::record::NamedValue;
use crate::record::document_view;
use crate::record::record_view;
use vstd::arithmetic::div_mod::lemma_fundamental_div_mod;
use vstd::prelude::*;

verus! {

/// The lower-case hex digit of a value below sixteen.
pub open spec fn hex_digit(n: int) -> u8 {
    if n < 10 {
        (DIGIT_ZERO + n) as u8
    } else {
        (LOWER_A + (n - 10)) as u8
    }
}

/// How one byte stands in a JSON string.
pub open spec fn escape_byte(b: u8) -> Seq<u8> {
    if b == QUOTE {
        seq![BACKSLASH, QUOTE]
    } else if b == BACKSLASH {
        seq![BACKSLASH, BACKSLASH]
    } else if b == LF {
        seq![BACKSLASH, LOWER_N]
    } else if b == CR {
        seq![BACKSLASH, LOWER_R]
    } else if b == TAB {
        seq![BACKSLASH, LOWER_T]
    } else if b < 32 {
        seq![
            BACKSLASH,
            LOWER_U,
            DIGIT_ZERO,
            DIGIT_ZERO,
            hex_digit(b as int / 16),
            hex_digit(b as int % 16),
        ]
    } else {
        seq![b]
    }
}

/// The body of the JSON string that carries a byte string.
pub open spec fn json_escape(s: Seq<u8>) -> Seq<u8>
    decreases s.len(),
{
    if s.len() == 0 {
        seq![]
    } else {
        json_escape(s.drop_last()) + escape_byte(s.last())
    }
}

/// One key-value pair of an object: `"key": "value"`.
pub open spec fn json_of_pair(p: (Seq<u8>, Seq<u8>)) -> Seq<u8> {
    seq![QUOTE] + json_escape(p.0) + seq![QUOTE, COLON, SPACE, QUOTE] + json_escape(p.1) + seq![
        QUOTE,
    ]
}

/// The pairs of an object, joined by `, `.
pub open spec fn json_pairs(rec: Seq<(Seq<u8>, Seq<u8>)>) -> Seq<u8>
    decreases rec.len(),
{
    if rec.len() == 0 {
        seq![]
    } else if rec.len() == 1 {
        json_of_pair(rec.last())
    } else {
        json_pairs(rec.drop_last()) + seq![COMMA, SPACE] + json_of_pair(rec.last())
    }
}

/// One record as a JSON object on a single line.
pub open spec fn json_of_record(rec: Seq<(Seq<u8>, Seq<u8>)>) -> Seq<u8> {
    seq![LBRACE] + json_pairs(rec) + seq![RBRACE]
}

/// The records of a document, each indented on a line of its own and
/// joined by `,`.
pub open spec fn json_records(doc: Seq<Seq<(Seq<u8>, Seq<u8>)>>) -> Seq<u8>
    decreases doc.len(),
{
    if doc.len() == 0 {
        seq![]
    } else if doc.len() == 1 {
        seq![SPACE, SPACE] + json_of_record(doc.last())
    } else {
        json_records(doc.drop_last()) + seq![COMMA, LF, SPACE, SPACE] + json_of_record(doc.last())
    }
}

/// A whole document as a pretty-printed JSON array of objects.
pub open spec fn json_of_document(doc: Seq<Seq<(Seq<u8>, Seq<u8>)>>) -> Seq<u8> {
    if doc.len() == 0 {
        seq![LBRACKET, RBRACKET]
    } else {
        seq![LBRACKET, LF] + json_records(doc) + seq![LF, RBRACKET]
    }
}

/// Appends the escaped form of one byte.
fn push_escaped_byte(out: &mut Vec<u8>, b: u8)
    ensures
        final(out)@ == old(out)@ + escape_byte(b),
{
    let ghost p = out@;
    if b == QUOTE {
        out.push(BACKSLASH);
        out.push(QUOTE);
    } else if b == BACKSLASH {
        out.push(BACKSLASH);
        out.push(BACKSLASH);
    } else if b == LF {
        out.push(BACKSLASH);
        out.push(LOWER_N);
    } else if b == CR {
        out.push(BACKSLASH);
        out.push(LOWER_R);
    } else if b == TAB {
        out.push(BACKSLASH);
        out.push(LOWER_T);
    } else if b < 32 {
        out.push(BACKSLASH);
        out.push(LOWER_U);
        out.push(DIGIT_ZERO);
        out.push(DIGIT_ZERO);
        let hi = b / 16;
        let lo = b % 16;
        out.push(if hi < 10 { DIGIT_ZERO + hi } else { LOWER_A + (hi - 10) });
        out.push(if lo < 10 { DIGIT_ZERO + lo } else { LOWER_A + (lo - 10) });
    } else {
        out.push(b);
    }
    proof {
        assert(out@ =~= p + escape_byte(b));
    }
}

/// Appends the escaped form of a byte string.
fn push_escaped(out: &mut Vec<u8>, s: &Vec<u8>)
    ensures
        final(out)@ == old(out)@ + json_escape(s@),
{
    let ghost p = out@;
    let mut i: usize = 0;
    proof {
        assert(out@ =~= p + json_escape(s@.take(0)));
    }
    while i < s.len()
        invariant
            i <= s.len(),
            out@ == p + json_escape(s@.take(i as int)),
        decreases s.len() - i,
    {
        proof {
            assert(s@.take(i as int + 1).drop_last() =~= s@.take(i as int));
            assert(s@.take(i as int + 1).last() == s@[i as int]);
        }
        push_escaped_byte(out, s[i]);
        proof {
            assert(p + json_escape(s@.take(i as int)) + escape_byte(s@[i as int]) =~= p
                + json_escape(s@.take(i as int + 1)));
        }
        i = i + 1;
    }
    proof {
        assert(s@.take(s@.len() as int) =~= s@);
    }
}

/// Appends one `"key": "value"` pair.
fn push_pair(out: &mut Vec<u8>, p: &NamedValue)
    ensures
        final(out)@ == old(out)@ + json_of_pair(p@),
{
    let ghost q = out@;
    out.push(QUOTE);
    push_escaped(out, &p.name);
    out.push(QUOTE);
    out.push(COLON);
    out.push(SPACE);
    out.push(QUOTE);
    push_escaped(out, &p.value);
    out.push(QUOTE);
    proof {
        assert(out@ =~= q + json_of_pair(p@));
    }
}

/// Appends one record as a JSON object.
fn push_record(out: &mut Vec<u8>, rec: &Vec<NamedValue>)
    ensures
        final(out)@ == old(out)@ + json_of_record(record_view(rec@)),
{
    let ghost q = out@;
    let ghost r = record_view(rec@);
    out.push(LBRACE);
    let mut j: usize = 0;
    proof {
        assert(out@ =~= q + seq![LBRACE] + json_pairs(r.take(0)));
    }
    while j < rec.len()
        invariant
            j <= rec@.len(),
            r == record_view(rec@),
            r.len() == rec@.len(),
            out@ == q + seq![LBRACE] + json_pairs(r.take(j as int)),
        decreases rec.len() - j,
    {
        if j > 0 {
            out.push(COMMA);
            out.push(SPACE);
        }
        push_pair(out, &rec[j]);
        proof {
            assert(r.take(j as int + 1).drop_last() =~= r.take(j as int));
            assert(r.take(j as int + 1).last() == r[j as int]);
            assert(r[j as int] == rec@[j as int]@);
            assert(out@ =~= q + seq![LBRACE] + json_pairs(r.take(j as int + 1)));
        }
        j = j + 1;
    }
    out.push(RBRACE);
    proof {
        assert(r.take(r.len() as int) =~= r);
        assert(out@ =~= q + json_of_record(r));
    }
}

/// Renders a document as pretty-printed JSON, exactly as
/// `json_of_document` lays it out.
pub fn render_document(doc: &Vec<Vec<NamedValue>>) -> (out: Vec<u8>)
    ensures
        out@ == json_of_document(document_view(doc@)),
{
    let ghost d = document_view(doc@);
    let mut out: Vec<u8> = Vec::new();
    if doc.len() == 0 {
        out.push(LBRACKET);
        out.push(RBRACKET);
        proof {
            assert(out@ =~= json_of_document(d));
        }
        return out;
    }
    out.push(LBRACKET);
    out.push(LF);
    let mut i: usize = 0;
    proof {
        assert(out@ =~= seq![LBRACKET, LF] + json_records(d.take(0)));
    }
    while i < doc.len()
        invariant
            i <= doc@.len(),
            d == document_view(doc@),
            d.len() == doc@.len(),
            out@ == seq![LBRACKET, LF] + json_records(d.take(i as int)),
        decreases doc.len() - i,
    {
        if i > 0 {
            out.push(COMMA);
            out.push(LF);
        }
        out.push(SPACE);
        out.push(SPACE);
        push_record(&mut out, &doc[i]);
        proof {
            assert(d.take(i as int + 1).drop_last() =~= d.take(i as int));
            assert(d.take(i as int + 1).last() == d[i as int]);
            assert(d[i as int] == record_view(doc@[i as int]@));
            assert(out@ =~= seq![LBRACKET, LF] + json_records(d.take(i as int + 1)));
        }
        i = i + 1;
    }
    out.push(LF);
    out.push(RBRACKET);
    proof {
        assert(d.take(d.len() as int) =~= d);
        assert(out@ =~= json_of_document(d));
    }
    out
}

/// Whether a byte is a lower-case hex digit.
pub open spec fn is_hex(b: u8) -> bool {
    (DIGIT_ZERO <= b <= DIGIT_ZERO + 9) || (LOWER_A <= b <= LOWER_A + 5)
}

/// The value of a lower-case hex digit.
pub open spec fn hex_val(b: u8) -> int {
    if b <= DIGIT_ZERO + 9 {
        b - DIGIT_ZERO
    } else {
        b - LOWER_A + 10
    }
}

/// Reads the body of a JSON string back to the bytes it stands for,
/// inverting `json_escape`: an escape sequence produced by `escape_byte`
/// becomes its byte again, any other backslash use, a bare quote or a bare
/// control byte is rejected, and every other byte stands for itself.
pub open spec fn json_unescape(t: Seq<u8>) -> Option<Seq<u8>>
    decreases t.len(),
{
    if t.len() == 0 {
        Some(seq![])
    } else if t[0] == BACKSLASH {
        if t.len() < 2 {
            None
        } else if t[1] == QUOTE || t[1] == BACKSLASH {
            match json_unescape(t.skip(2)) {
                Some(u) => Some(seq![t[1]] + u),
                None => None,
            }
        } else if t[1] == LOWER_N {
            match json_unescape(t.skip(2)) {
                Some(u) => Some(seq![LF] + u),
                None => None,
            }
        } else if t[1] == LOWER_R {
            match json_unescape(t.skip(2)) {
                Some(u) => Some(seq![CR] + u),
                None => None,
            }
        } else if t[1] == LOWER_T {
            match json_unescape(t.skip(2)) {
                Some(u) => Some(seq![TAB] + u),
                None => None,
            }
        } else if t[1] == LOWER_U {
            if t.len() < 6 {
                None
            } else if t[2] == DIGIT_ZERO && t[3] == DIGIT_ZERO && is_hex(t[4]) && is_hex(t[5]) {
                match json_unescape(t.skip(6)) {
                    Some(u) => Some(seq![(16 * hex_val(t[4]) + hex_val(t[5])) as u8] + u),
                    None => None,
                }
            } else {
                None
            }
        } else {
            None
        }
    } else if t[0] == QUOTE || t[0] < 32 {
        None
    } else {
        match json_unescape(t.skip(1)) {
            Some(u) => Some(seq![t[0]] + u),
            None => None,
        }
    }
}

proof fn lemma_unescape_one(b: u8, t: Seq<u8>, u: Seq<u8>)
    requires
        json_unescape(t) == Some(u),
    ensures
        json_unescape(escape_byte(b) + t) == Some(seq![b] + u),
{
    let e = escape_byte(b) + t;
    if b == QUOTE || b == BACKSLASH || b == LF || b == CR || b == TAB {
        assert(e.skip(2) =~= t);
    } else if b < 32 {
        assert(e.skip(6) =~= t);
        assert(is_hex(hex_digit(b as int / 16)));
        assert(is_hex(hex_digit(b as int % 16)));
        assert(hex_val(hex_digit(b as int / 16)) == b as int / 16);
        assert(hex_val(hex_digit(b as int % 16)) == b as int % 16);
        lemma_fundamental_div_mod(b as int, 16);
        assert(16 * hex_val(e[4]) + hex_val(e[5]) == b as int);
    } else {
        assert(e.skip(1) =~= t);
    }
}

proof fn lemma_unescape_escape_from(s: Seq<u8>, t: Seq<u8>, u: Seq<u8>)
    requires
        json_unescape(t) == Some(u),
    ensures
        json_unescape(json_escape(s) + t) == Some(s + u),
    decreases s.len(),
{
    if s.len() == 0 {
        assert(json_escape(s) + t =~= t);
        assert(s + u =~= u);
    } else {
        let b = s.last();
        lemma_unescape_one(b, t, u);
        lemma_unescape_escape_from(s.drop_last(), escape_byte(b) + t, seq![b] + u);
        assert(json_escape(s.drop_last()) + (escape_byte(b) + t) =~= json_escape(s) + t);
        assert(s.drop_last() + (seq![b] + u) =~= s + u);
    }
}

/// Escaping loses nothing: reading the escaped form of any byte string
/// back yields that byte string, so every field value survives the way to
/// the JSON output byte for byte.
pub proof fn lemma_escape_round_trip(s: Seq<u8>)
    ensures
        json_unescape(json_escape(s)) == Some(s),
{
    lemma_unescape_escape_from(s, seq![], seq![]);
    assert(json_escape(s) + Seq::<u8>::empty() =~= json_escape(s));
    assert(s + Seq::<u8>::empty() =~= s);
}

} // verus!
