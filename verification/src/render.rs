//! The rendering rules: how a structured value turns into its tagged
//! textual form, and the verified formatter that produces it.
//!
//! Every value renders as a tag followed by its contents: `Null`,
//! `Bool(true)`, `Number(42)`, `String("text")`, `Array [..]` with
//! elements separated by `", "`, and `Object {..}` with entries written
//! as `"key": value`. String bodies escape the quote, the backslash,
//! newline, tab and carriage return; every other character is literal.

use vstd::prelude::*;

use crate::model::JsonModel;
use crate::model::JsonValue;

verus! {

/// The character for one decimal digit.
pub open spec fn digit_char(d: int) -> char {
    if d == 0 {
        '0'
    } else if d == 1 {
        '1'
    } else if d == 2 {
        '2'
    } else if d == 3 {
        '3'
    } else if d == 4 {
        '4'
    } else if d == 5 {
        '5'
    } else if d == 6 {
        '6'
    } else if d == 7 {
        '7'
    } else if d == 8 {
        '8'
    } else {
        '9'
    }
}

/// Decimal rendering of a natural number, most significant digit first.
pub open spec fn dec_rep(n: nat) -> Seq<char>
    decreases n,
{
    if n < 10 {
        seq![digit_char(n as int)]
    } else {
        dec_rep(n / 10).push(digit_char((n % 10) as int))
    }
}

/// Decimal rendering of an integer: a minus sign before the magnitude
/// of a negative value.
pub open spec fn render_int(n: int) -> Seq<char> {
    if n < 0 {
        seq!['-'] + dec_rep((-n) as nat)
    } else {
        dec_rep(n as nat)
    }
}

/// How one character appears inside a quoted string body.
pub open spec fn escape_char(c: char) -> Seq<char> {
    if c == '"' {
        seq!['\\', '"']
    } else if c == '\\' {
        seq!['\\', '\\']
    } else if c == '\n' {
        seq!['\\', 'n']
    } else if c == '\t' {
        seq!['\\', 't']
    } else if c == '\r' {
        seq!['\\', 'r']
    } else {
        seq![c]
    }
}

/// The escaped body of a string, character by character.
pub open spec fn render_text(s: Seq<char>) -> Seq<char>
    decreases s.len(),
{
    if s.len() == 0 {
        Seq::empty()
    } else {
        escape_char(s[0]) + render_text(s.drop_first())
    }
}

/// A string in quotes, with its body escaped.
pub open spec fn quoted(s: Seq<char>) -> Seq<char> {
    seq!['"'] + render_text(s) + seq!['"']
}

/// The rendering of one structured value.
pub open spec fn render_model(m: JsonModel) -> Seq<char>
    decreases m,
{
    match m {
        JsonModel::Null => "Null"@,
        JsonModel::Bool(b) => if b {
            "Bool(true)"@
        } else {
            "Bool(false)"@
        },
        JsonModel::Int(n) => "Number("@ + render_int(n) + ")"@,
        JsonModel::Str(s) => "String("@ + quoted(s) + ")"@,
        JsonModel::Array(items) => "Array ["@ + render_elems(items) + "]"@,
        JsonModel::Object(entries) => "Object {"@ + render_entries(entries) + "}"@,
    }
}

/// Array elements in order, separated by `", "`.
pub open spec fn render_elems(items: Seq<JsonModel>) -> Seq<char>
    decreases items,
{
    if items.len() == 0 {
        Seq::empty()
    } else if items.len() == 1 {
        render_model(items[0])
    } else {
        render_model(items[0]) + ", "@ + render_elems(items.drop_first())
    }
}

/// One object entry: the quoted key, a colon and a space, the value.
pub open spec fn render_entry(e: (Seq<char>, JsonModel)) -> Seq<char>
    decreases e,
{
    quoted(e.0) + ": "@ + render_model(e.1)
}

/// Object entries in order, separated by `", "`.
pub open spec fn render_entries(entries: Seq<(Seq<char>, JsonModel)>) -> Seq<char>
    decreases entries,
{
    if entries.len() == 0 {
        Seq::empty()
    } else if entries.len() == 1 {
        render_entry(entries[0])
    } else {
        render_entry(entries[0]) + ", "@ + render_entries(entries.drop_first())
    }
}

/// The whole response for one invocation: the fixed label, then the
/// rendering of the event value.
pub open spec fn render_payload(m: JsonModel) -> Seq<char> {
    "Payload: "@ + render_model(m)
}

/// Relies on std's String::push: appends the given character at the end
/// of the string.
#[verifier::external_body]
pub(crate) fn push_char(out: &mut String, c: char)
    ensures
        final(out)@ == old(out)@ + seq![c],
{
    out.push(c);
}

/// The character for one digit, executably.
fn digit_char_exec(d: u64) -> (c: char)
    requires
        d < 10,
    ensures
        c == digit_char(d as int),
{
    if d == 0 {
        '0'
    } else if d == 1 {
        '1'
    } else if d == 2 {
        '2'
    } else if d == 3 {
        '3'
    } else if d == 4 {
        '4'
    } else if d == 5 {
        '5'
    } else if d == 6 {
        '6'
    } else if d == 7 {
        '7'
    } else if d == 8 {
        '8'
    } else {
        '9'
    }
}

/// Appends the decimal rendering of a natural number.
fn append_dec(out: &mut String, n: u64)
    ensures
        final(out)@ == old(out)@ + dec_rep(n as nat),
    decreases n,
{
    if n >= 10 {
        append_dec(out, n / 10);
    }
    let c = digit_char_exec(n % 10);
    push_char(out, c);
    proof {
        if n < 10 {
            assert(out@ =~= old(out)@ + dec_rep(n as nat));
        } else {
            assert((n / 10) as nat == (n as nat) / 10);
            assert((n % 10) as nat == (n as nat) % 10);
            assert(out@ =~= old(out)@ + dec_rep(n as nat));
        }
    }
}

/// Appends the decimal rendering of a signed integer.
fn append_int(out: &mut String, n: i64)
    ensures
        final(out)@ == old(out)@ + render_int(n as int),
{
    if n < 0 {
        push_char(out, '-');
        let wide: i128 = -(n as i128);
        assert(0 <= wide <= u64::MAX);
        append_dec(out, wide as u64);
        proof {
            assert(out@ =~= old(out)@ + render_int(n as int));
        }
    } else {
        append_dec(out, n as u64);
    }
}

/// Extending a string body by one character extends its escaped
/// rendering by that character's escape.
proof fn lemma_render_text_snoc(s: Seq<char>, c: char)
    ensures
        render_text(s.push(c)) == render_text(s) + escape_char(c),
    decreases s.len(),
{
    if s.len() == 0 {
        assert(s.push(c).drop_first() =~= Seq::<char>::empty());
        assert(s.push(c)[0] == c);
        assert(render_text(Seq::<char>::empty()) =~= Seq::<char>::empty());
        assert(render_text(s.push(c)) =~= render_text(s) + escape_char(c));
    } else {
        lemma_render_text_snoc(s.drop_first(), c);
        assert(s.push(c).drop_first() =~= s.drop_first().push(c));
        assert(s.push(c)[0] == s[0]);
        assert(render_text(s.push(c)) == escape_char(s[0]) + (render_text(s.drop_first())
            + escape_char(c)));
        assert(escape_char(s[0]) + (render_text(s.drop_first()) + escape_char(c)) =~= (escape_char(
            s[0],
        ) + render_text(s.drop_first())) + escape_char(c));
    }
}

/// Appends a string in quotes, with its body escaped.
fn append_quoted(out: &mut String, s: &String)
    ensures
        final(out)@ == old(out)@ + quoted(s@),
{
    push_char(out, '"');
    let n = s.as_str().unicode_len();
    let mut i: usize = 0;
    while i < n
        invariant
            n == s@.len(),
            i <= n,
            out@ == old(out)@ + seq!['"'] + render_text(s@.take(i as int)),
        decreases n - i,
    {
        let c = s.as_str().get_char(i);
        if c == '"' {
            push_char(out, '\\');
            push_char(out, '"');
        } else if c == '\\' {
            push_char(out, '\\');
            push_char(out, '\\');
        } else if c == '\n' {
            push_char(out, '\\');
            push_char(out, 'n');
        } else if c == '\t' {
            push_char(out, '\\');
            push_char(out, 't');
        } else if c == '\r' {
            push_char(out, '\\');
            push_char(out, 'r');
        } else {
            push_char(out, c);
        }
        proof {
            lemma_render_text_snoc(s@.take(i as int), s@[i as int]);
            assert(s@.take(i as int + 1) =~= s@.take(i as int).push(s@[i as int]));
            assert(out@ =~= old(out)@ + seq!['"'] + render_text(s@.take(i as int + 1)));
        }
        i = i + 1;
    }
    push_char(out, '"');
    proof {
        assert(s@.take(n as int) =~= s@);
        assert(out@ =~= old(out)@ + quoted(s@));
    }
}

/// Separating off the last of two or more elements splits their joint
/// rendering at the final `", "`.
proof fn lemma_render_elems_snoc(items: Seq<JsonModel>)
    requires
        items.len() >= 2,
    ensures
        render_elems(items) == render_elems(items.drop_last()) + ", "@ + render_model(
            items.last(),
        ),
    decreases items.len(),
{
    let t = items.drop_first();
    if items.len() == 2 {
        assert(t =~= seq![items[1]]);
        assert(items.drop_last() =~= seq![items[0]]);
        assert(render_elems(t) == render_model(items[1]));
        assert(render_elems(items.drop_last()) == render_model(items[0]));
        assert(items.last() == items[1]);
    } else {
        lemma_render_elems_snoc(t);
        let d = items.drop_last();
        assert(d.drop_first() =~= t.drop_last());
        assert(d.len() >= 2);
        assert(d[0] == items[0]);
        assert(t.last() == items.last());
        assert(render_elems(d) == render_model(items[0]) + ", "@ + render_elems(t.drop_last()));
        assert(render_elems(items) == render_model(items[0]) + ", "@ + ((render_elems(
            t.drop_last(),
        ) + ", "@) + render_model(items.last())));
        assert(render_model(items[0]) + ", "@ + ((render_elems(t.drop_last()) + ", "@)
            + render_model(items.last())) =~= ((render_model(items[0]) + ", "@ + render_elems(
            t.drop_last(),
        )) + ", "@) + render_model(items.last()));
    }
}

/// The same split for object entries.
proof fn lemma_render_entries_snoc(entries: Seq<(Seq<char>, JsonModel)>)
    requires
        entries.len() >= 2,
    ensures
        render_entries(entries) == render_entries(entries.drop_last()) + ", "@ + render_entry(
            entries.last(),
        ),
    decreases entries.len(),
{
    let t = entries.drop_first();
    if entries.len() == 2 {
        assert(t =~= seq![entries[1]]);
        assert(entries.drop_last() =~= seq![entries[0]]);
        assert(render_entries(t) == render_entry(entries[1]));
        assert(render_entries(entries.drop_last()) == render_entry(entries[0]));
        assert(entries.last() == entries[1]);
    } else {
        lemma_render_entries_snoc(t);
        let d = entries.drop_last();
        assert(d.drop_first() =~= t.drop_last());
        assert(d.len() >= 2);
        assert(d[0] == entries[0]);
        assert(t.last() == entries.last());
        assert(render_entries(d) == render_entry(entries[0]) + ", "@ + render_entries(
            t.drop_last(),
        ));
        assert(render_entries(entries) == render_entry(entries[0]) + ", "@ + ((render_entries(
            t.drop_last(),
        ) + ", "@) + render_entry(entries.last())));
        assert(render_entry(entries[0]) + ", "@ + ((render_entries(t.drop_last()) + ", "@)
            + render_entry(entries.last())) =~= ((render_entry(entries[0]) + ", "@
            + render_entries(t.drop_last())) + ", "@) + render_entry(entries.last()));
    }
}

/// Appends the rendering of one structured value.
#[verifier::loop_isolation(false)]
fn append_model(out: &mut String, v: &JsonValue)
    ensures
        final(out)@ == old(out)@ + render_model(v.model()),
    decreases v,
{
    match v {
        JsonValue::Null => {
            out.append("Null");
        },
        JsonValue::Bool(b) => {
            if *b {
                out.append("Bool(true)");
            } else {
                out.append("Bool(false)");
            }
        },
        JsonValue::Int(n) => {
            out.append("Number(");
            append_int(out, *n);
            out.append(")");
            proof {
                assert(out@ =~= old(out)@ + render_model(v.model()));
            }
        },
        JsonValue::Str(s) => {
            out.append("String(");
            append_quoted(out, s);
            out.append(")");
            proof {
                assert(out@ =~= old(out)@ + render_model(v.model()));
            }
        },
        JsonValue::Array(items) => {
            out.append("Array [");
            let ghost ms = Seq::new(
                items@.len(),
                |k: int|
                    if 0 <= k < items@.len() {
                        items@[k].model()
                    } else {
                        JsonModel::Null
                    },
            );
            proof {
                assert(v.model() is Array);
                assert(v.model()->Array_0 =~= ms);
                assert(v.model() =~= JsonModel::Array(ms));
            }
            let n = items.len();
            let mut i: usize = 0;
            while i < n
                invariant
                    n == items@.len(),
                    i <= n,
                    ms.len() == n,
                    forall|k: int| 0 <= k < n ==> ms[k] == items@[k].model(),
                    out@ == old(out)@ + "Array ["@ + render_elems(ms.take(i as int)),
                decreases n - i,
            {
                if i > 0 {
                    out.append(", ");
                }
                proof {
                    broadcast use vstd::std_specs::vec::group_vec_axioms;

                    assert(*v == JsonValue::Array(*items));
                    assert(decreases_to!(*v => *items));
                    assert(decreases_to!(*items => items@));
                    assert(decreases_to!(items@ => items@[i as int]));
                }
                append_model(out, &items[i]);
                proof {
                    let pre = ms.take(i as int);
                    let cur = ms.take(i as int + 1);
                    assert(cur =~= pre.push(ms[i as int]));
                    if i == 0 {
                        assert(cur =~= seq![ms[0]]);
                        assert(render_elems(cur) == render_model(ms[0]));
                    } else {
                        lemma_render_elems_snoc(cur);
                        assert(cur.drop_last() =~= pre);
                    }
                    assert(out@ =~= old(out)@ + "Array ["@ + render_elems(cur));
                }
                i = i + 1;
            }
            out.append("]");
            proof {
                assert(ms.take(n as int) =~= ms);
                assert(out@ =~= old(out)@ + render_model(v.model()));
            }
        },
        JsonValue::Object(entries) => {
            out.append("Object {");
            let ghost es = Seq::new(
                entries@.len(),
                |k: int|
                    if 0 <= k < entries@.len() {
                        (entries@[k].0@, entries@[k].1.model())
                    } else {
                        (Seq::<char>::empty(), JsonModel::Null)
                    },
            );
            proof {
                assert(v.model() is Object);
                assert(v.model()->Object_0 =~= es);
                assert(v.model() =~= JsonModel::Object(es));
            }
            let n = entries.len();
            let mut i: usize = 0;
            while i < n
                invariant
                    n == entries@.len(),
                    i <= n,
                    es.len() == n,
                    forall|k: int|
                        0 <= k < n ==> es[k] == (entries@[k].0@, entries@[k].1.model()),
                    out@ == old(out)@ + "Object {"@ + render_entries(es.take(i as int)),
                decreases n - i,
            {
                if i > 0 {
                    out.append(", ");
                }
                append_quoted(out, &entries[i].0);
                out.append(": ");
                proof {
                    broadcast use vstd::std_specs::vec::group_vec_axioms;

                    assert(*v == JsonValue::Object(*entries));
                    assert(decreases_to!(*v => *entries));
                    assert(decreases_to!(*entries => entries@));
                    assert(decreases_to!(entries@ => entries@[i as int]));
                    assert(decreases_to!(entries@[i as int] => entries@[i as int].1));
                }
                append_model(out, &entries[i].1);
                proof {
                    let pre = es.take(i as int);
                    let cur = es.take(i as int + 1);
                    assert(cur =~= pre.push(es[i as int]));
                    if i == 0 {
                        assert(cur =~= seq![es[0]]);
                        assert(render_entries(cur) == render_entry(es[0]));
                    } else {
                        lemma_render_entries_snoc(cur);
                        assert(cur.drop_last() =~= pre);
                    }
                    assert(out@ =~= old(out)@ + "Object {"@ + render_entries(cur));
                }
                i = i + 1;
            }
            out.append("}");
            proof {
                assert(es.take(n as int) =~= es);
                assert(out@ =~= old(out)@ + render_model(v.model()));
            }
        },
    }
}

/// Formats one invocation event: the fixed `Payload: ` label followed
/// by the rendering of the value. The result is determined by the event
/// value alone.
pub fn format_payload(v: &JsonValue) -> (r: String)
    ensures
        r@ == render_payload(v.model()),
{
    let mut out = String::new();
    out.append("Payload: ");
    append_model(&mut out, v);
    proof {
        assert(out@ =~= render_payload(v.model()));
    }
    out
}

} // verus!
