//! The laws the formatter obeys, proved once and for all: the response
//! always carries the exact `Payload: ` label, and the rendering after
//! the label is lossless — parsing it yields exactly the value that was
//! rendered, shape, order and contents included.

use vstd::prelude::*;

use crate::model::JsonModel;
use crate::model::JsonValue;
use crate::parse::digit_val;
use crate::parse::digits_val;
use crate::parse::fits;
use crate::parse::fits_elems;
use crate::parse::fits_entries;
use crate::parse::is_digit;
use crate::parse::is_escape_code;
use crate::parse::lit_at;
use crate::parse::parse_elems;
use crate::parse::parse_entries;
use crate::parse::parse_rendering;
use crate::parse::parse_value;
use crate::parse::scan_digits;
use crate::parse::scan_text;
use crate::parse::unescape;
use crate::render::dec_rep;
use crate::render::digit_char;
use crate::render::escape_char;
use crate::render::quoted;
use crate::render::render_elems;
use crate::render::render_entries;
use crate::render::render_entry;
use crate::render::render_int;
use crate::render::render_model;
use crate::render::render_payload;
use crate::render::render_text;

verus! {

/// The characters of a matched stretch of text, one by one.
pub(crate) proof fn lemma_lit_chars(s: Seq<char>, i: int, lit: Seq<char>)
    requires
        0 <= i,
        i + lit.len() <= s.len(),
        s.subrange(i, i + lit.len() as int) == lit,
    ensures
        forall|q: int| 0 <= q < lit.len() ==> #[trigger] s[i + q] == lit[q],
{
    assert forall|q: int| 0 <= q < lit.len() implies #[trigger] s[i + q] == lit[q] by {
        assert(s.subrange(i, i + lit.len() as int)[q] == lit[q]);
    }
}

/// A literal stands at `i` when the text carries its characters there.
pub(crate) proof fn lemma_lit_intro(s: Seq<char>, i: int, lit: Seq<char>)
    requires
        0 <= i,
        i + lit.len() <= s.len(),
        forall|q: int| 0 <= q < lit.len() ==> #[trigger] s[i + q] == lit[q],
    ensures
        lit_at(s, i, lit),
{
    assert forall|q: int| 0 <= q < lit.len() implies s.subrange(i, i + lit.len() as int)[q]
        == lit[q] by {
        assert(s[i + q] == lit[q]);
    }
    assert(s.subrange(i, i + lit.len() as int) =~= lit);
}

/// A literal does not stand at `i` when the text differs from it at one
/// position.
pub(crate) proof fn lemma_not_lit(s: Seq<char>, i: int, lit: Seq<char>, q: int)
    requires
        0 <= q < lit.len(),
        0 <= i,
        i + q < s.len(),
        s[i + q] != lit[q],
    ensures
        !lit_at(s, i, lit),
{
    if lit_at(s, i, lit) {
        assert(s.subrange(i, i + lit.len() as int)[q] == lit[q]);
    }
}

/// A decimal rendering is non-empty, consists of digit characters, and
/// denotes the number it renders.
proof fn lemma_dec_rep(n: nat)
    ensures
        dec_rep(n).len() >= 1,
        forall|k: int| 0 <= k < dec_rep(n).len() ==> is_digit(#[trigger] dec_rep(n)[k]),
        digits_val(dec_rep(n)) == n,
    decreases n,
{
    if n < 10 {
        let d = dec_rep(n);
        assert(d == seq![digit_char(n as int)]);
        assert(d.drop_last() =~= Seq::<char>::empty());
        assert(digits_val(Seq::<char>::empty()) == 0);
        assert(is_digit(digit_char(n as int)));
        assert(digit_val(digit_char(n as int)) == n);
    } else {
        lemma_dec_rep(n / 10);
        let rec = dec_rep(n / 10);
        let d = dec_rep(n);
        assert(d == rec.push(digit_char((n % 10) as int)));
        assert(d.drop_last() =~= rec);
        assert(d.last() == digit_char((n % 10) as int));
        assert(digit_val(digit_char((n % 10) as int)) == n % 10);
        assert(digits_val(d) == digits_val(rec) * 10 + (n % 10) as int);
        assert((n / 10) * 10 + (n % 10) == n) by {
            vstd::arithmetic::div_mod::lemma_fundamental_div_mod(n as int, 10);
        }
        assert forall|k: int| 0 <= k < d.len() implies is_digit(#[trigger] d[k]) by {
            if k < rec.len() {
                assert(d[k] == rec[k]);
            }
        }
    }
}

/// A run of digit characters bounded by a non-digit scans to its end.
proof fn lemma_scan_digits(s: Seq<char>, i: int, e: int)
    requires
        0 <= i <= e < s.len(),
        forall|k: int| i <= k < e ==> is_digit(#[trigger] s[k]),
        !is_digit(s[e]),
    ensures
        scan_digits(s, i) == e,
    decreases e - i,
{
    if i < e {
        assert(is_digit(s[i]));
        lemma_scan_digits(s, i + 1, e);
    }
}

/// Scanning the escaped rendering of a string body, with the closing
/// quote after it, recovers exactly the body.
proof fn lemma_scan_text(s: Seq<char>, i: int, t: Seq<char>)
    requires
        0 <= i,
        i + render_text(t).len() + 1 <= s.len(),
        s.subrange(i, i + render_text(t).len() as int) == render_text(t),
        s[i + render_text(t).len()] == '"',
    ensures
        scan_text(s, i) == Some((t, i + render_text(t).len() + 1)),
    decreases t.len(),
{
    let rt = render_text(t);
    lemma_lit_chars(s, i, rt);
    if t.len() == 0 {
        assert(rt == Seq::<char>::empty());
        assert(s[i] == '"');
        assert(scan_text(s, i) == Some((Seq::<char>::empty(), i + 1)));
        assert(Seq::<char>::empty() =~= t);
    } else {
        let c = t[0];
        let e0 = escape_char(c);
        let rest = render_text(t.drop_first());
        assert(rt == e0 + rest);
        assert(t.drop_first().len() < t.len());
        if c == '"' || c == '\\' || c == '\n' || c == '\t' || c == '\r' {
            let x = e0[1];
            assert(e0.len() == 2);
            assert(rt[0] == '\\' && rt[1] == x);
            assert(s[i + 0] == '\\');
            assert(s[i + 1] == x);
            assert(is_escape_code(x));
            assert(unescape(x) == c);
            assert(s.subrange(i + 2, i + 2 + rest.len() as int) =~= rest) by {
                assert forall|q: int| 0 <= q < rest.len() implies s.subrange(
                    i + 2,
                    i + 2 + rest.len() as int,
                )[q] == rest[q] by {
                    assert(s[i + (q + 2)] == rt[q + 2]);
                    assert(rt[q + 2] == rest[q]);
                }
            }
            lemma_scan_text(s, i + 2, t.drop_first());
            assert(s[i] != '"');
            assert(scan_text(s, i) == Some(
                (seq![unescape(s[i + 1])] + t.drop_first(), i + rt.len() + 1),
            ));
            assert(seq![unescape(s[i + 1])] + t.drop_first() =~= t);
        } else {
            assert(e0 == seq![c]);
            assert(rt[0] == c);
            assert(s[i + 0] == c);
            assert(s[i] != '"' && s[i] != '\\');
            assert(s.subrange(i + 1, i + 1 + rest.len() as int) =~= rest) by {
                assert forall|q: int| 0 <= q < rest.len() implies s.subrange(
                    i + 1,
                    i + 1 + rest.len() as int,
                )[q] == rest[q] by {
                    assert(s[i + (q + 1)] == rt[q + 1]);
                    assert(rt[q + 1] == rest[q]);
                }
            }
            lemma_scan_text(s, i + 1, t.drop_first());
            assert(scan_text(s, i) == Some((seq![s[i]] + t.drop_first(), i + rt.len() + 1)));
            assert(seq![s[i + 0]] + t.drop_first() =~= t);
        }
    }
}

/// Every rendering is at least four characters long and opens with the
/// letter of its tag.
proof fn lemma_render_head(m: JsonModel)
    ensures
        render_model(m).len() >= 4,
        render_model(m)[0] == 'N' || render_model(m)[0] == 'B' || render_model(m)[0] == 'S'
            || render_model(m)[0] == 'A' || render_model(m)[0] == 'O',
{
    reveal_strlit("Null");
    reveal_strlit("Bool(true)");
    reveal_strlit("Bool(false)");
    reveal_strlit("Number(");
    reveal_strlit("String(");
    reveal_strlit("Array [");
    reveal_strlit("Object {");
    match m {
        JsonModel::Null => {
            assert(render_model(m)[0] == 'N');
        },
        JsonModel::Bool(b) => {
            assert(render_model(m)[0] == 'B');
        },
        JsonModel::Int(n) => {
            assert(render_model(m)[0] == 'N');
        },
        JsonModel::Str(t) => {
            assert(render_model(m)[0] == 'S');
        },
        JsonModel::Array(items) => {
            assert(render_model(m)[0] == 'A');
        },
        JsonModel::Object(entries) => {
            assert(render_model(m)[0] == 'O');
        },
    }
}

/// Parsing a rendered value, wherever it stands in a larger text,
/// recovers the value and stops exactly at the rendering's end.
pub proof fn lemma_parse_of_render(s: Seq<char>, i: int, m: JsonModel)
    requires
        0 <= i,
        i + render_model(m).len() <= s.len(),
        s.subrange(i, i + render_model(m).len() as int) == render_model(m),
    ensures
        parse_value(s, i) == Some((m, i + render_model(m).len() as int)),
    decreases m,
{
    let rm = render_model(m);
    lemma_lit_chars(s, i, rm);
    reveal_strlit("Null");
    reveal_strlit("Bool(true)");
    reveal_strlit("Bool(false)");
    reveal_strlit("Number(");
    reveal_strlit("String(");
    reveal_strlit("Array [");
    reveal_strlit("Object {");
    reveal_strlit(")");
    reveal_strlit("]");
    reveal_strlit("}");
    match m {
        JsonModel::Null => {
            assert(rm =~= seq!['N', 'u', 'l', 'l']);
            assert(lit_at(s, i, seq!['N', 'u', 'l', 'l']));
        },
        JsonModel::Bool(b) => {
            if b {
                assert(rm =~= seq!['B', 'o', 'o', 'l', '(', 't', 'r', 'u', 'e', ')']);
                assert(s[i + 0] == 'B');
                lemma_not_lit(s, i, seq!['N', 'u', 'l', 'l'], 0);
                assert(lit_at(s, i, seq!['B', 'o', 'o', 'l', '(', 't', 'r', 'u', 'e', ')']));
            } else {
                assert(rm =~= seq!['B', 'o', 'o', 'l', '(', 'f', 'a', 'l', 's', 'e', ')']);
                assert(s[i + 0] == 'B');
                assert(s[i + 5] == 'f');
                lemma_not_lit(s, i, seq!['N', 'u', 'l', 'l'], 0);
                lemma_not_lit(s, i, seq!['B', 'o', 'o', 'l', '(', 't', 'r', 'u', 'e', ')'], 5);
                assert(lit_at(s, i, seq!['B', 'o', 'o', 'l', '(', 'f', 'a', 'l', 's', 'e', ')']));
            }
        },
        JsonModel::Int(n) => {
            let ri = render_int(n);
            assert(rm == "Number("@ + ri + ")"@);
            assert(s[i + 0] == 'N');
            assert(s[i + 2] == 'm');
            lemma_not_lit(s, i, seq!['N', 'u', 'l', 'l'], 2);
            lemma_not_lit(s, i, seq!['B', 'o', 'o', 'l', '(', 't', 'r', 'u', 'e', ')'], 0);
            lemma_not_lit(s, i, seq!['B', 'o', 'o', 'l', '(', 'f', 'a', 'l', 's', 'e', ')'], 0);
            assert(s[i + 1] == 'u' && s[i + 3] == 'b' && s[i + 4] == 'e' && s[i + 5] == 'r' && s[i
                + 6] == '(');
            if n < 0 {
                let mag = (-n) as nat;
                lemma_dec_rep(mag);
                let d = dec_rep(mag);
                assert(ri == seq!['-'] + d);
                assert(rm.len() == 9 + d.len());
                assert(s[i + 7] == '-');
                lemma_lit_intro(s, i, seq!['N', 'u', 'm', 'b', 'e', 'r', '(', '-']);
                let e = i + 8 + d.len() as int;
                assert forall|k: int| i + 8 <= k < e implies is_digit(#[trigger] s[k]) by {
                    let q = k - i;
                    assert(s[i + q] == rm[q]);
                    assert(rm[q] == ri[q - 7]);
                    assert(ri[q - 7] == d[q - 8]);
                    assert(is_digit(dec_rep(mag)[q - 8]));
                }
                assert(s[i + (8 + d.len() as int)] == rm[8 + d.len() as int]);
                assert(rm[8 + d.len() as int] == ')');
                assert(!is_digit(')'));
                lemma_scan_digits(s, i + 8, e);
                assert(s.subrange(i + 8, e) =~= d) by {
                    assert forall|q: int| 0 <= q < d.len() implies s.subrange(i + 8, e)[q]
                        == d[q] by {
                        assert(s[i + (q + 8)] == rm[q + 8]);
                        assert(rm[q + 8] == ri[q + 1]);
                        assert(ri[q + 1] == d[q]);
                    }
                }
                assert(digits_val(s.subrange(i + 8, e)) == mag);
                assert(s[e] == ')');
                assert(parse_value(s, i) == Some((JsonModel::Int(-mag), e + 1)));
                assert(JsonModel::Int(-mag) == m);
                assert(e + 1 == i + rm.len());
            } else {
                let mag = n as nat;
                lemma_dec_rep(mag);
                let d = dec_rep(mag);
                assert(ri == d);
                assert(rm.len() == 8 + d.len());
                assert(s[i + 7] == rm[7]);
                assert(rm[7] == d[0]);
                assert(is_digit(s[i + 7]));
                assert(s[i + 7] != '-');
                lemma_not_lit(s, i, seq!['N', 'u', 'm', 'b', 'e', 'r', '(', '-'], 7);
                lemma_lit_intro(s, i, seq!['N', 'u', 'm', 'b', 'e', 'r', '(']);
                let e = i + 7 + d.len() as int;
                assert forall|k: int| i + 7 <= k < e implies is_digit(#[trigger] s[k]) by {
                    let q = k - i;
                    assert(s[i + q] == rm[q]);
                    assert(rm[q] == ri[q - 7]);
                    assert(is_digit(dec_rep(mag)[q - 7]));
                }
                assert(s[i + (7 + d.len() as int)] == rm[7 + d.len() as int]);
                assert(rm[7 + d.len() as int] == ')');
                assert(!is_digit(')'));
                lemma_scan_digits(s, i + 7, e);
                assert(s.subrange(i + 7, e) =~= d) by {
                    assert forall|q: int| 0 <= q < d.len() implies s.subrange(i + 7, e)[q]
                        == d[q] by {
                        assert(s[i + (q + 7)] == rm[q + 7]);
                        assert(rm[q + 7] == ri[q]);
                    }
                }
                assert(digits_val(s.subrange(i + 7, e)) == mag);
                assert(s[e] == ')');
                assert(parse_value(s, i) == Some((JsonModel::Int(mag as int), e + 1)));
                assert(JsonModel::Int(mag as int) == m);
                assert(e + 1 == i + rm.len());
            }
        },
        JsonModel::Str(t) => {
            let qt = quoted(t);
            let rt = render_text(t);
            assert(rm == "String("@ + qt + ")"@);
            assert(qt == seq!['"'] + rt + seq!['"']);
            assert(rm.len() == rt.len() + 10);
            assert(s[i + 0] == 'S');
            lemma_not_lit(s, i, seq!['N', 'u', 'l', 'l'], 0);
            lemma_not_lit(s, i, seq!['B', 'o', 'o', 'l', '(', 't', 'r', 'u', 'e', ')'], 0);
            lemma_not_lit(s, i, seq!['B', 'o', 'o', 'l', '(', 'f', 'a', 'l', 's', 'e', ')'], 0);
            lemma_not_lit(s, i, seq!['N', 'u', 'm', 'b', 'e', 'r', '(', '-'], 0);
            lemma_not_lit(s, i, seq!['N', 'u', 'm', 'b', 'e', 'r', '('], 0);
            assert(s[i + 1] == 't' && s[i + 2] == 'r' && s[i + 3] == 'i' && s[i + 4] == 'n' && s[i
                + 5] == 'g' && s[i + 6] == '(');
            assert(s[i + 7] == '"');
            lemma_lit_intro(s, i, seq!['S', 't', 'r', 'i', 'n', 'g', '(', '"']);
            assert(s.subrange(i + 8, i + 8 + rt.len() as int) =~= rt) by {
                assert forall|q: int| 0 <= q < rt.len() implies s.subrange(
                    i + 8,
                    i + 8 + rt.len() as int,
                )[q] == rt[q] by {
                    assert(s[i + (q + 8)] == rm[q + 8]);
                    assert(rm[q + 8] == qt[q + 1]);
                    assert(qt[q + 1] == rt[q]);
                }
            }
            assert(s[i + (8 + rt.len() as int)] == rm[8 + rt.len() as int]);
            assert(rm[8 + rt.len() as int] == qt[1 + rt.len() as int]);
            assert(qt[1 + rt.len() as int] == '"');
            lemma_scan_text(s, i + 8, t);
            let jt = i + 8 + rt.len() as int + 1;
            assert(scan_text(s, i + 8) == Some((t, jt)));
            assert(s[i + (9 + rt.len() as int)] == rm[9 + rt.len() as int]);
            assert(rm[9 + rt.len() as int] == ')');
            assert(s[jt] == ')');
            assert(parse_value(s, i) == Some((JsonModel::Str(t), jt + 1)));
            assert(jt + 1 == i + rm.len());
        },
        JsonModel::Array(items) => {
            let re = render_elems(items);
            assert(rm == "Array ["@ + re + "]"@);
            assert(s[i + 0] == 'A');
            lemma_not_lit(s, i, seq!['N', 'u', 'l', 'l'], 0);
            lemma_not_lit(s, i, seq!['B', 'o', 'o', 'l', '(', 't', 'r', 'u', 'e', ')'], 0);
            lemma_not_lit(s, i, seq!['B', 'o', 'o', 'l', '(', 'f', 'a', 'l', 's', 'e', ')'], 0);
            lemma_not_lit(s, i, seq!['N', 'u', 'm', 'b', 'e', 'r', '(', '-'], 0);
            lemma_not_lit(s, i, seq!['N', 'u', 'm', 'b', 'e', 'r', '('], 0);
            lemma_not_lit(s, i, seq!['S', 't', 'r', 'i', 'n', 'g', '(', '"'], 0);
            assert(s[i + 1] == 'r' && s[i + 2] == 'r' && s[i + 3] == 'a' && s[i + 4] == 'y' && s[i
                + 5] == ' ' && s[i + 6] == '[');
            if items.len() == 0 {
                assert(re == Seq::<char>::empty());
                assert(rm.len() == 8);
                assert(s[i + 7] == rm[7]);
                assert(rm[7] == ']');
                lemma_lit_intro(s, i, seq!['A', 'r', 'r', 'a', 'y', ' ', '[', ']']);
                assert(parse_value(s, i) == Some(
                    (JsonModel::Array(Seq::<JsonModel>::empty()), i + 8),
                ));
                assert(items =~= Seq::<JsonModel>::empty());
                assert(JsonModel::Array(Seq::<JsonModel>::empty()) == m);
            } else {
                lemma_render_head(items[0]);
                assert(re[0] == render_model(items[0])[0]);
                assert(s[i + 7] == rm[7]);
                assert(rm[7] == re[0]);
                assert(s[i + 7] != ']');
                lemma_not_lit(s, i, seq!['A', 'r', 'r', 'a', 'y', ' ', '[', ']'], 7);
                lemma_lit_intro(s, i, seq!['A', 'r', 'r', 'a', 'y', ' ', '[']);
                assert(s.subrange(i + 7, i + 7 + re.len() as int) =~= re) by {
                    assert forall|q: int| 0 <= q < re.len() implies s.subrange(
                        i + 7,
                        i + 7 + re.len() as int,
                    )[q] == re[q] by {
                        assert(s[i + (q + 7)] == rm[q + 7]);
                        assert(rm[q + 7] == re[q]);
                    }
                }
                assert(s[i + (7 + re.len() as int)] == rm[7 + re.len() as int]);
                assert(rm[7 + re.len() as int] == ']');
                assert((i + 7) + re.len() == i + (7 + re.len() as int));
                lemma_parse_elems_of_render(s, i + 7, items);
                assert(parse_value(s, i) == Some((JsonModel::Array(items), i + 7 + re.len() + 1)));
                assert(i + 7 + re.len() + 1 == i + rm.len());
            }
        },
        JsonModel::Object(entries) => {
            let re = render_entries(entries);
            assert(rm == "Object {"@ + re + "}"@);
            assert(s[i + 0] == 'O');
            lemma_not_lit(s, i, seq!['N', 'u', 'l', 'l'], 0);
            lemma_not_lit(s, i, seq!['B', 'o', 'o', 'l', '(', 't', 'r', 'u', 'e', ')'], 0);
            lemma_not_lit(s, i, seq!['B', 'o', 'o', 'l', '(', 'f', 'a', 'l', 's', 'e', ')'], 0);
            lemma_not_lit(s, i, seq!['N', 'u', 'm', 'b', 'e', 'r', '(', '-'], 0);
            lemma_not_lit(s, i, seq!['N', 'u', 'm', 'b', 'e', 'r', '('], 0);
            lemma_not_lit(s, i, seq!['S', 't', 'r', 'i', 'n', 'g', '(', '"'], 0);
            lemma_not_lit(s, i, seq!['A', 'r', 'r', 'a', 'y', ' ', '[', ']'], 0);
            lemma_not_lit(s, i, seq!['A', 'r', 'r', 'a', 'y', ' ', '['], 0);
            assert(s[i + 1] == 'b' && s[i + 2] == 'j' && s[i + 3] == 'e' && s[i + 4] == 'c' && s[i
                + 5] == 't' && s[i + 6] == ' ' && s[i + 7] == '{');
            if entries.len() == 0 {
                assert(re == Seq::<char>::empty());
                assert(rm.len() == 9);
                assert(s[i + 8] == rm[8]);
                assert(rm[8] == '}');
                lemma_lit_intro(s, i, seq!['O', 'b', 'j', 'e', 'c', 't', ' ', '{', '}']);
                assert(parse_value(s, i) == Some(
                    (JsonModel::Object(Seq::<(Seq<char>, JsonModel)>::empty()), i + 9),
                ));
                assert(entries =~= Seq::<(Seq<char>, JsonModel)>::empty());
                assert(JsonModel::Object(Seq::<(Seq<char>, JsonModel)>::empty()) == m);
            } else {
                let rent = render_entry(entries[0]);
                assert(re[0] == rent[0]);
                assert(rent[0] == quoted(entries[0].0)[0]);
                assert(quoted(entries[0].0)[0] == '"');
                assert(s[i + 8] == rm[8]);
                assert(rm[8] == re[0]);
                assert(s[i + 8] != '}');
                lemma_not_lit(s, i, seq!['O', 'b', 'j', 'e', 'c', 't', ' ', '{', '}'], 8);
                lemma_lit_intro(s, i, seq!['O', 'b', 'j', 'e', 'c', 't', ' ', '{']);
                assert(s.subrange(i + 8, i + 8 + re.len() as int) =~= re) by {
                    assert forall|q: int| 0 <= q < re.len() implies s.subrange(
                        i + 8,
                        i + 8 + re.len() as int,
                    )[q] == re[q] by {
                        assert(s[i + (q + 8)] == rm[q + 8]);
                        assert(rm[q + 8] == re[q]);
                    }
                }
                assert(s[i + (8 + re.len() as int)] == rm[8 + re.len() as int]);
                assert(rm[8 + re.len() as int] == '}');
                assert((i + 8) + re.len() == i + (8 + re.len() as int));
                lemma_parse_entries_of_render(s, i + 8, entries);
                assert(parse_value(s, i) == Some(
                    (JsonModel::Object(entries), i + 8 + re.len() + 1),
                ));
                assert(i + 8 + re.len() + 1 == i + rm.len());
            }
        },
    }
}

/// Parsing the rendered elements of a non-empty array, with the closing
/// bracket after them, recovers the elements in order.
proof fn lemma_parse_elems_of_render(s: Seq<char>, i: int, items: Seq<JsonModel>)
    requires
        0 <= i,
        items.len() >= 1,
        i + render_elems(items).len() + 1 <= s.len(),
        s.subrange(i, i + render_elems(items).len() as int) == render_elems(items),
        s[i + render_elems(items).len()] == ']',
    ensures
        parse_elems(s, i) == Some((items, i + render_elems(items).len() + 1)),
    decreases items,
{
    reveal_strlit(", ");
    let re = render_elems(items);
    lemma_lit_chars(s, i, re);
    let v0 = items[0];
    let rm0 = render_model(v0);
    lemma_render_head(v0);
    if items.len() == 1 {
        assert(re == rm0);
        lemma_parse_of_render(s, i, v0);
        let j = i + rm0.len() as int;
        assert(parse_value(s, i) == Some((v0, j)));
        assert(i < j && j < s.len());
        assert(s[j] == ']');
        assert(parse_elems(s, i) == Some((seq![v0], j + 1)));
        assert(seq![v0] =~= items);
    } else {
        let rest = items.drop_first();
        let rr = render_elems(rest);
        assert(re == rm0 + ", "@ + rr);
        assert(re.len() == rm0.len() + 2 + rr.len());
        assert(s.subrange(i, i + rm0.len() as int) =~= rm0) by {
            assert forall|q: int| 0 <= q < rm0.len() implies s.subrange(
                i,
                i + rm0.len() as int,
            )[q] == rm0[q] by {
                assert(s[i + q] == re[q]);
                assert(re[q] == rm0[q]);
            }
        }
        lemma_parse_of_render(s, i, v0);
        let j = i + rm0.len() as int;
        assert(parse_value(s, i) == Some((v0, j)));
        assert(s[i + (rm0.len() as int)] == re[rm0.len() as int]);
        assert(re[rm0.len() as int] == ',');
        assert(s[j] != ']');
        assert(s[i + (rm0.len() as int + 1)] == re[rm0.len() + 1 as int]);
        assert(re[rm0.len() + 1 as int] == ' ');
        assert(s[j + 0] == ',' && s[j + 1] == ' ');
        lemma_lit_intro(s, j, seq![',', ' ']);
        assert(s.subrange(j + 2, j + 2 + rr.len() as int) =~= rr) by {
            assert forall|q: int| 0 <= q < rr.len() implies s.subrange(
                j + 2,
                j + 2 + rr.len() as int,
            )[q] == rr[q] by {
                assert(s[i + (q + rm0.len() as int + 2)] == re[q + rm0.len() + 2]);
                assert(re[q + rm0.len() + 2] == rr[q]);
            }
        }
        assert((j + 2) + rr.len() == i + re.len());
        assert(s[(j + 2) + rr.len()] == ']');
        lemma_parse_elems_of_render(s, j + 2, rest);
        assert(parse_elems(s, j + 2) == Some((rest, j + 2 + rr.len() + 1)));
        assert(parse_elems(s, i) == Some((seq![v0] + rest, j + 2 + rr.len() + 1)));
        assert(seq![v0] + rest =~= items);
        assert(j + 2 + rr.len() + 1 == i + re.len() + 1);
    }
}

/// Parsing the rendered entries of a non-empty object, with the closing
/// brace after them, recovers the keys and values in order.
#[verifier::rlimit(60)]
proof fn lemma_parse_entries_of_render(s: Seq<char>, i: int, entries: Seq<(Seq<char>, JsonModel)>)
    requires
        0 <= i,
        entries.len() >= 1,
        i + render_entries(entries).len() + 1 <= s.len(),
        s.subrange(i, i + render_entries(entries).len() as int) == render_entries(entries),
        s[i + render_entries(entries).len()] == '}',
    ensures
        parse_entries(s, i) == Some((entries, i + render_entries(entries).len() + 1)),
    decreases entries,
{
    reveal_strlit(", ");
    reveal_strlit(": ");
    let re = render_entries(entries);
    lemma_lit_chars(s, i, re);
    let e0 = entries[0];
    let rent = render_entry(e0);
    let key = e0.0;
    let v0 = e0.1;
    let qk = quoted(key);
    let rtk = render_text(key);
    let rmv = render_model(v0);
    lemma_render_head(v0);
    assert(rent == qk + ": "@ + rmv);
    assert(qk == seq!['"'] + rtk + seq!['"']);
    assert(rent.len() == rtk.len() + 4 + rmv.len());
    if entries.len() == 1 {
        assert(re == rent);
    } else {
        assert(re == rent + ", "@ + render_entries(entries.drop_first()));
    }
    assert(s[i + 0] == re[0]);
    assert(re[0] == rent[0]);
    assert(rent[0] == '"');
    assert(s.subrange(i + 1, i + 1 + rtk.len() as int) =~= rtk) by {
        assert forall|q: int| 0 <= q < rtk.len() implies s.subrange(
            i + 1,
            i + 1 + rtk.len() as int,
        )[q] == rtk[q] by {
            assert(s[i + (q + 1)] == re[q + 1]);
            assert(re[q + 1] == rent[q + 1]);
            assert(rent[q + 1] == qk[q + 1]);
            assert(qk[q + 1] == rtk[q]);
        }
    }
    assert(s[i + (1 + rtk.len() as int)] == re[1 + rtk.len() as int]);
    assert(re[1 + rtk.len() as int] == rent[1 + rtk.len() as int]);
    assert(rent[1 + rtk.len() as int] == qk[1 + rtk.len() as int]);
    assert(qk[1 + rtk.len() as int] == '"');
    lemma_scan_text(s, i + 1, key);
    let jk = i + 1 + rtk.len() as int + 1;
    assert(scan_text(s, i + 1) == Some((key, jk)));
    assert(jk == i + qk.len());
    assert(s[i + (qk.len() as int)] == re[qk.len() as int]);
    assert(re[qk.len() as int] == rent[qk.len() as int]);
    assert(rent[qk.len() as int] == ':');
    assert(s[i + (qk.len() as int + 1)] == re[qk.len() + 1 as int]);
    assert(re[qk.len() + 1 as int] == rent[qk.len() + 1 as int]);
    assert(rent[qk.len() + 1 as int] == ' ');
    assert(s[jk + 0] == ':' && s[jk + 1] == ' ');
    lemma_lit_intro(s, jk, seq![':', ' ']);
    assert(s.subrange(jk + 2, jk + 2 + rmv.len() as int) =~= rmv) by {
        assert forall|q: int| 0 <= q < rmv.len() implies s.subrange(
            jk + 2,
            jk + 2 + rmv.len() as int,
        )[q] == rmv[q] by {
            assert(s[i + (q + qk.len() as int + 2)] == re[q + qk.len() + 2]);
            assert(re[q + qk.len() + 2] == rent[q + qk.len() + 2]);
            assert(rent[q + qk.len() + 2] == rmv[q]);
        }
    }
    lemma_parse_of_render(s, jk + 2, v0);
    let jv = jk + 2 + rmv.len() as int;
    assert(parse_value(s, jk + 2) == Some((v0, jv)));
    assert(jv == i + rent.len());
    if entries.len() == 1 {
        assert(s[jv] == '}');
        assert(parse_entries(s, i) == Some((seq![(key, v0)], jv + 1)));
        assert((key, v0) == e0);
        assert(seq![(key, v0)] =~= entries);
    } else {
        let rest = entries.drop_first();
        let rr = render_entries(rest);
        assert(re.len() == rent.len() + 2 + rr.len());
        assert(s[i + (rent.len() as int)] == re[rent.len() as int]);
        assert(re[rent.len() as int] == ',');
        assert(s[jv] != '}');
        assert(s[i + (rent.len() as int + 1)] == re[rent.len() + 1 as int]);
        assert(re[rent.len() + 1 as int] == ' ');
        assert(s[jv + 0] == ',' && s[jv + 1] == ' ');
        lemma_lit_intro(s, jv, seq![',', ' ']);
        assert(s.subrange(jv + 2, jv + 2 + rr.len() as int) =~= rr) by {
            assert forall|q: int| 0 <= q < rr.len() implies s.subrange(
                jv + 2,
                jv + 2 + rr.len() as int,
            )[q] == rr[q] by {
                assert(s[i + (q + rent.len() as int + 2)] == re[q + rent.len() + 2]);
                assert(re[q + rent.len() + 2] == rr[q]);
            }
        }
        assert((jv + 2) + rr.len() == i + re.len());
        assert(s[(jv + 2) + rr.len()] == '}');
        lemma_parse_entries_of_render(s, jv + 2, rest);
        assert(parse_entries(s, jv + 2) == Some((rest, jv + 2 + rr.len() + 1)));
        assert((key, v0) == e0);
        assert(parse_entries(s, i) == Some((seq![(key, v0)] + rest, jv + 2 + rr.len() + 1)));
        assert(seq![(key, v0)] + rest =~= entries);
        assert(jv + 2 + rr.len() + 1 == i + re.len() + 1);
    }
}

/// Every number in an executable value's model fits a signed 64-bit
/// integer, so a formatted payload can always be parsed back into an
/// executable value.
pub proof fn lemma_model_fits(v: JsonValue)
    ensures
        fits(v.model()),
    decreases v,
{
    broadcast use vstd::std_specs::vec::group_vec_axioms;

    match v {
        JsonValue::Array(items) => {
            assert(decreases_to!(v => items));
            assert(decreases_to!(items => items@));
            lemma_elems_fit(items@);
            assert(v.model()->Array_0 =~= JsonValue::models_of(items@));
        },
        JsonValue::Object(entries) => {
            assert(decreases_to!(v => entries));
            assert(decreases_to!(entries => entries@));
            lemma_entries_fit(entries@);
            assert(v.model()->Object_0 =~= JsonValue::entries_of(entries@));
        },
        _ => {},
    }
}

/// The element models of a sequence of executable values all fit.
proof fn lemma_elems_fit(vs: Seq<JsonValue>)
    ensures
        fits_elems(JsonValue::models_of(vs)),
    decreases vs,
{
    if vs.len() > 0 {
        lemma_model_fits(vs[0]);
        lemma_elems_fit(vs.drop_first());
        assert(JsonValue::models_of(vs)[0] == vs[0].model());
        assert(JsonValue::models_of(vs).drop_first() =~= JsonValue::models_of(vs.drop_first()));
    }
}

/// The entry models of a sequence of executable entries all fit.
proof fn lemma_entries_fit(vs: Seq<(String, JsonValue)>)
    ensures
        fits_entries(JsonValue::entries_of(vs)),
    decreases vs,
{
    if vs.len() > 0 {
        lemma_model_fits(vs[0].1);
        lemma_entries_fit(vs.drop_first());
        assert(JsonValue::entries_of(vs)[0].1 == vs[0].1.model());
        assert(JsonValue::entries_of(vs).drop_first() =~= JsonValue::entries_of(vs.drop_first()));
    }
}

/// Law: the rendering is lossless. Parsing the rendering of any value
/// yields exactly that value, consuming the whole text.
pub proof fn lemma_rendering_round_trip(m: JsonModel)
    ensures
        parse_rendering(render_model(m)) == Some(m),
{
    let rm = render_model(m);
    assert(rm.subrange(0, rm.len() as int) =~= rm);
    lemma_parse_of_render(rm, 0, m);
}

/// Law: the response always opens with the exact label `Payload: `, and
/// what follows the label is precisely the rendering of the event value.
pub proof fn lemma_payload_prefix(m: JsonModel)
    ensures
        render_payload(m).len() > 9,
        render_payload(m).subrange(0, 9) == "Payload: "@,
        render_payload(m).subrange(9, render_payload(m).len() as int) == render_model(m),
{
    reveal_strlit("Payload: ");
    lemma_render_head(m);
    assert(render_payload(m).subrange(0, 9) =~= "Payload: "@);
    assert(render_payload(m).subrange(9, render_payload(m).len() as int) =~= render_model(m));
}

/// Law: formatting a value and then parsing what stands after the label
/// recovers the original value.
pub proof fn lemma_payload_round_trip(m: JsonModel)
    ensures
        parse_rendering(render_payload(m).subrange(9, render_payload(m).len() as int)) == Some(m),
{
    lemma_payload_prefix(m);
    lemma_rendering_round_trip(m);
}

} // verus!
