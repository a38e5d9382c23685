//! A parser for the rendering, defined over the same mathematical model.
//! It exists to state and prove that the rendering is lossless: parsing a
//! rendered value yields exactly the value that was rendered.

use vstd::prelude::*;

use crate::laws::lemma_lit_intro;
use crate::laws::lemma_not_lit;
use crate::model::JsonModel;
use crate::model::JsonValue;
use crate::render::push_char;

verus! {

/// Whether a character is a decimal digit.
pub open spec fn is_digit(c: char) -> bool {
    c == '0' || c == '1' || c == '2' || c == '3' || c == '4' || c == '5' || c == '6' || c == '7'
        || c == '8' || c == '9'
}

/// The value of one decimal digit character.
pub open spec fn digit_val(c: char) -> int {
    if c == '0' {
        0
    } else if c == '1' {
        1
    } else if c == '2' {
        2
    } else if c == '3' {
        3
    } else if c == '4' {
        4
    } else if c == '5' {
        5
    } else if c == '6' {
        6
    } else if c == '7' {
        7
    } else if c == '8' {
        8
    } else {
        9
    }
}

/// The end of the run of digits that starts at position `i`.
pub open spec fn scan_digits(s: Seq<char>, i: int) -> int
    decreases s.len() - i
        when 0 <= i <= s.len()
{
    if i < s.len() && is_digit(s[i]) {
        scan_digits(s, i + 1)
    } else {
        i
    }
}

/// The number a run of digit characters denotes.
pub open spec fn digits_val(d: Seq<char>) -> int
    decreases d.len(),
{
    if d.len() == 0 {
        0
    } else {
        digits_val(d.drop_last()) * 10 + digit_val(d.last())
    }
}

/// Whether a character may follow a backslash in a string body.
pub open spec fn is_escape_code(c: char) -> bool {
    c == '"' || c == '\\' || c == 'n' || c == 't' || c == 'r'
}

/// The character an escape code stands for.
pub open spec fn unescape(c: char) -> char {
    if c == '"' {
        '"'
    } else if c == '\\' {
        '\\'
    } else if c == 'n' {
        '\n'
    } else if c == 't' {
        '\t'
    } else {
        '\r'
    }
}

/// Reads a string body from position `i` up to and over its closing
/// quote: the characters it denotes, and the position after the quote.
pub open spec fn scan_text(s: Seq<char>, i: int) -> Option<(Seq<char>, int)>
    decreases s.len() - i
        when 0 <= i <= s.len()
{
    if i >= s.len() {
        None
    } else if s[i] == '"' {
        Some((Seq::empty(), i + 1))
    } else if s[i] == '\\' {
        if i + 1 < s.len() && is_escape_code(s[i + 1]) {
            match scan_text(s, i + 2) {
                Some((t, j)) => Some((seq![unescape(s[i + 1])] + t, j)),
                None => None,
            }
        } else {
            None
        }
    } else {
        match scan_text(s, i + 1) {
            Some((t, j)) => Some((seq![s[i]] + t, j)),
            None => None,
        }
    }
}

/// Whether the given literal stands in `s` at position `i`.
pub open spec fn lit_at(s: Seq<char>, i: int, lit: Seq<char>) -> bool {
    0 <= i && i + lit.len() <= s.len() && s.subrange(i, i + lit.len() as int) == lit
}

/// Parses one rendered value at position `i`: the value and the position
/// after its rendering.
pub open spec fn parse_value(s: Seq<char>, i: int) -> Option<(JsonModel, int)>
    decreases s.len() - i, 0int
        when 0 <= i <= s.len()
{
    if lit_at(s, i, seq!['N', 'u', 'l', 'l']) {
        Some((JsonModel::Null, i + 4))
    } else if lit_at(s, i, seq!['B', 'o', 'o', 'l', '(', 't', 'r', 'u', 'e', ')']) {
        Some((JsonModel::Bool(true), i + 10))
    } else if lit_at(s, i, seq!['B', 'o', 'o', 'l', '(', 'f', 'a', 'l', 's', 'e', ')']) {
        Some((JsonModel::Bool(false), i + 11))
    } else if lit_at(s, i, seq!['N', 'u', 'm', 'b', 'e', 'r', '(', '-']) {
        let j = scan_digits(s, i + 8);
        if i + 8 < j && j < s.len() && s[j] == ')' {
            Some((JsonModel::Int(-digits_val(s.subrange(i + 8, j))), j + 1))
        } else {
            None
        }
    } else if lit_at(s, i, seq!['N', 'u', 'm', 'b', 'e', 'r', '(']) {
        let j = scan_digits(s, i + 7);
        if i + 7 < j && j < s.len() && s[j] == ')' {
            Some((JsonModel::Int(digits_val(s.subrange(i + 7, j))), j + 1))
        } else {
            None
        }
    } else if lit_at(s, i, seq!['S', 't', 'r', 'i', 'n', 'g', '(', '"']) {
        match scan_text(s, i + 8) {
            Some((t, j)) => if j < s.len() && s[j] == ')' {
                Some((JsonModel::Str(t), j + 1))
            } else {
                None
            },
            None => None,
        }
    } else if lit_at(s, i, seq!['A', 'r', 'r', 'a', 'y', ' ', '[', ']']) {
        Some((JsonModel::Array(Seq::empty()), i + 8))
    } else if lit_at(s, i, seq!['A', 'r', 'r', 'a', 'y', ' ', '[']) {
        match parse_elems(s, i + 7) {
            Some((items, j)) => Some((JsonModel::Array(items), j)),
            None => None,
        }
    } else if lit_at(s, i, seq!['O', 'b', 'j', 'e', 'c', 't', ' ', '{', '}']) {
        Some((JsonModel::Object(Seq::empty()), i + 9))
    } else if lit_at(s, i, seq!['O', 'b', 'j', 'e', 'c', 't', ' ', '{']) {
        match parse_entries(s, i + 8) {
            Some((entries, j)) => Some((JsonModel::Object(entries), j)),
            None => None,
        }
    } else {
        None
    }
}

/// Parses the elements of a non-empty array, up to and over the closing
/// bracket.
pub open spec fn parse_elems(s: Seq<char>, i: int) -> Option<(Seq<JsonModel>, int)>
    decreases s.len() - i, 1int
        when 0 <= i <= s.len()
{
    match parse_value(s, i) {
        Some((v, j)) => if i < j && j < s.len() {
            if s[j] == ']' {
                Some((seq![v], j + 1))
            } else if lit_at(s, j, seq![',', ' ']) {
                match parse_elems(s, j + 2) {
                    Some((rest, k)) => Some((seq![v] + rest, k)),
                    None => None,
                }
            } else {
                None
            }
        } else {
            None
        },
        None => None,
    }
}

/// Parses the entries of a non-empty object, up to and over the closing
/// brace.
pub open spec fn parse_entries(s: Seq<char>, i: int) -> Option<(Seq<(Seq<char>, JsonModel)>, int)>
    decreases s.len() - i, 1int
        when 0 <= i <= s.len()
{
    if i < s.len() && s[i] == '"' {
        match scan_text(s, i + 1) {
            Some((key, jk)) => if i < jk && lit_at(s, jk, seq![':', ' ']) {
                match parse_value(s, jk + 2) {
                    Some((v, jv)) => if jk + 2 < jv && jv < s.len() {
                        if s[jv] == '}' {
                            Some((seq![(key, v)], jv + 1))
                        } else if lit_at(s, jv, seq![',', ' ']) {
                            match parse_entries(s, jv + 2) {
                                Some((rest, k)) => Some((seq![(key, v)] + rest, k)),
                                None => None,
                            }
                        } else {
                            None
                        }
                    } else {
                        None
                    },
                    None => None,
                }
            } else {
                None
            },
            None => None,
        }
    } else {
        None
    }
}

/// Parses a complete rendering: one value whose rendering covers the
/// whole text.
pub open spec fn parse_rendering(s: Seq<char>) -> Option<JsonModel> {
    match parse_value(s, 0) {
        Some((m, j)) => if j == s.len() {
            Some(m)
        } else {
            None
        },
        None => None,
    }
}

/// Whether every number in the value fits a signed 64-bit integer, so
/// that the executable value type can hold the value.
pub open spec fn fits(m: JsonModel) -> bool
    decreases m,
{
    match m {
        JsonModel::Null => true,
        JsonModel::Bool(_) => true,
        JsonModel::Int(n) => i64::MIN <= n <= i64::MAX,
        JsonModel::Str(_) => true,
        JsonModel::Array(items) => fits_elems(items),
        JsonModel::Object(entries) => fits_entries(entries),
    }
}

/// Whether every number among the elements fits.
pub open spec fn fits_elems(items: Seq<JsonModel>) -> bool
    decreases items,
{
    items.len() == 0 || (fits(items[0]) && fits_elems(items.drop_first()))
}

/// Whether every number among the entries' values fits.
pub open spec fn fits_entries(entries: Seq<(Seq<char>, JsonModel)>) -> bool
    decreases entries,
{
    entries.len() == 0 || (fits(entries[0].1) && fits_entries(entries.drop_first()))
}

/// The views of the string literals the parser's branches test for.
proof fn lemma_literals()
    ensures
        "Null"@ == seq!['N', 'u', 'l', 'l'],
        "Bool(true)"@ == seq!['B', 'o', 'o', 'l', '(', 't', 'r', 'u', 'e', ')'],
        "Bool(false)"@ == seq!['B', 'o', 'o', 'l', '(', 'f', 'a', 'l', 's', 'e', ')'],
        "Number(-"@ == seq!['N', 'u', 'm', 'b', 'e', 'r', '(', '-'],
        "Number("@ == seq!['N', 'u', 'm', 'b', 'e', 'r', '('],
        "String(\""@ == seq!['S', 't', 'r', 'i', 'n', 'g', '(', '"'],
        "Array []"@ == seq!['A', 'r', 'r', 'a', 'y', ' ', '[', ']'],
        "Array ["@ == seq!['A', 'r', 'r', 'a', 'y', ' ', '['],
        "Object {}"@ == seq!['O', 'b', 'j', 'e', 'c', 't', ' ', '{', '}'],
        "Object {"@ == seq!['O', 'b', 'j', 'e', 'c', 't', ' ', '{'],
        ", "@ == seq![',', ' '],
        ": "@ == seq![':', ' '],
{
    reveal_strlit("Null");
    reveal_strlit("Bool(true)");
    reveal_strlit("Bool(false)");
    reveal_strlit("Number(-");
    reveal_strlit("Number(");
    reveal_strlit("String(\"");
    reveal_strlit("Array []");
    reveal_strlit("Array [");
    reveal_strlit("Object {}");
    reveal_strlit("Object {");
    reveal_strlit(", ");
    reveal_strlit(": ");
    assert("Null"@ =~= seq!['N', 'u', 'l', 'l']);
    assert("Bool(true)"@ =~= seq!['B', 'o', 'o', 'l', '(', 't', 'r', 'u', 'e', ')']);
    assert("Bool(false)"@ =~= seq!['B', 'o', 'o', 'l', '(', 'f', 'a', 'l', 's', 'e', ')']);
    assert("Number(-"@ =~= seq!['N', 'u', 'm', 'b', 'e', 'r', '(', '-']);
    assert("Number("@ =~= seq!['N', 'u', 'm', 'b', 'e', 'r', '(']);
    assert("String(\""@ =~= seq!['S', 't', 'r', 'i', 'n', 'g', '(', '"']);
    assert("Array []"@ =~= seq!['A', 'r', 'r', 'a', 'y', ' ', '[', ']']);
    assert("Array ["@ =~= seq!['A', 'r', 'r', 'a', 'y', ' ', '[']);
    assert("Object {}"@ =~= seq!['O', 'b', 'j', 'e', 'c', 't', ' ', '{', '}']);
    assert("Object {"@ =~= seq!['O', 'b', 'j', 'e', 'c', 't', ' ', '{']);
    assert(", "@ =~= seq![',', ' ']);
    assert(": "@ =~= seq![':', ' ']);
}

/// Whether the given literal stands in the text at position `i`.
fn has_lit(s: &Vec<char>, i: usize, lit: &str) -> (r: bool)
    requires
        i <= s@.len(),
    ensures
        r == lit_at(s@, i as int, lit@),
{
    let n = lit.unicode_len();
    if n > s.len() - i {
        return false;
    }
    let mut k: usize = 0;
    while k < n
        invariant
            n == lit@.len(),
            i + n <= s@.len(),
            s@.len() <= usize::MAX,
            k <= n,
            forall|q: int| 0 <= q < k ==> #[trigger] s@[i + q] == lit@[q],
        decreases n - k,
    {
        let c = lit.get_char(k);
        if s[i + k] != c {
            proof {
                lemma_not_lit(s@, i as int, lit@, k as int);
            }
            return false;
        }
        k = k + 1;
    }
    proof {
        lemma_lit_intro(s@, i as int, lit@);
    }
    true
}

/// A decimal digit's numeric value, executably.
fn digit_val_exec(c: char) -> (v: u64)
    requires
        is_digit(c),
    ensures
        v == digit_val(c),
{
    if c == '0' {
        0
    } else if c == '1' {
        1
    } else if c == '2' {
        2
    } else if c == '3' {
        3
    } else if c == '4' {
        4
    } else if c == '5' {
        5
    } else if c == '6' {
        6
    } else if c == '7' {
        7
    } else if c == '8' {
        8
    } else {
        9
    }
}

/// Whether a character is a decimal digit, executably.
fn is_digit_exec(c: char) -> (r: bool)
    ensures
        r == is_digit(c),
{
    c == '0' || c == '1' || c == '2' || c == '3' || c == '4' || c == '5' || c == '6' || c == '7'
        || c == '8' || c == '9'
}

/// Reads the run of digits at position `i`: its value, if a 64-bit
/// unsigned integer holds it, and the run's end.
fn scan_digits_exec(s: &Vec<char>, i: usize) -> (r: (Option<u64>, usize))
    requires
        i <= s@.len(),
    ensures
        i <= r.1 <= s@.len(),
        r.1 as int == scan_digits(s@, i as int),
        r.0 matches Some(v) ==> v as int == digits_val(s@.subrange(i as int, r.1 as int)),
        r.0 is None ==> digits_val(s@.subrange(i as int, r.1 as int)) > u64::MAX,
{
    let mut j = i;
    let mut acc: u64 = 0;
    let mut over: bool = false;
    proof {
        assert(s@.subrange(i as int, i as int) =~= Seq::<char>::empty());
    }
    while j < s.len() && is_digit_exec(s[j])
        invariant
            i <= j <= s@.len(),
            scan_digits(s@, i as int) == scan_digits(s@, j as int),
            digits_val(s@.subrange(i as int, j as int)) >= 0,
            !over ==> acc as int == digits_val(s@.subrange(i as int, j as int)),
            over ==> digits_val(s@.subrange(i as int, j as int)) > u64::MAX,
        decreases s@.len() - j,
    {
        let d = digit_val_exec(s[j]);
        let ghost pre = s@.subrange(i as int, j as int);
        let ghost cur = s@.subrange(i as int, j as int + 1);
        proof {
            assert(cur.drop_last() =~= pre);
            assert(cur.last() == s@[j as int]);
            assert(digits_val(cur) == digits_val(pre) * 10 + digit_val(s@[j as int]));
        }
        if over {
            proof {
                assert(digits_val(pre) * 10 >= digits_val(pre));
            }
        } else {
            let wide: u128 = (acc as u128) * 10 + (d as u128);
            if wide > u64::MAX as u128 {
                over = true;
            } else {
                acc = wide as u64;
            }
        }
        j = j + 1;
    }
    if over {
        (None, j)
    } else {
        (Some(acc), j)
    }
}

/// Reads a string body at position `i`, up to and over its closing
/// quote, executably.
fn scan_text_exec(s: &Vec<char>, i: usize) -> (r: Option<(String, usize)>)
    requires
        i <= s@.len(),
    ensures
        match r {
            Some(p) => i < p.1 <= s@.len() && scan_text(s@, i as int) == Some((p.0@, p.1 as int)),
            None => scan_text(s@, i as int) is None,
        },
    decreases s@.len() - i,
{
    if i == s.len() {
        return None;
    }
    let c = s[i];
    if c == '"' {
        let out = String::new();
        proof {
            assert(out@ =~= Seq::<char>::empty());
        }
        return Some((out, i + 1));
    }
    if c == '\\' {
        if i + 1 < s.len() && is_escape_code_exec(s[i + 1]) {
            match scan_text_exec(s, i + 2) {
                Some((t, j)) => {
                    let mut out = String::new();
                    push_char(&mut out, unescape_exec(s[i + 1]));
                    out.append(t.as_str());
                    proof {
                        assert(out@ =~= seq![unescape(s@[i as int + 1])] + t@);
                    }
                    Some((out, j))
                },
                None => None,
            }
        } else {
            None
        }
    } else {
        match scan_text_exec(s, i + 1) {
            Some((t, j)) => {
                let mut out = String::new();
                push_char(&mut out, c);
                out.append(t.as_str());
                proof {
                    assert(out@ =~= seq![s@[i as int]] + t@);
                }
                Some((out, j))
            },
            None => None,
        }
    }
}

/// Parses one rendered value at position `i`, executably. On success
/// the result is the parsed value and the position after its rendering;
/// `None` comes exactly where the parsing specification finds no value,
/// or finds one with a number that no signed 64-bit integer holds.
fn parse_value_exec(s: &Vec<char>, i: usize) -> (r: Option<(JsonValue, usize)>)
    requires
        i <= s@.len(),
    ensures
        (r matches Some(p) ==> i < p.1 <= s@.len() && parse_value(s@, i as int) == Some(
            (p.0.model(), p.1 as int),
        )),
        (r is None ==> (parse_value(s@, i as int) matches Some(p) ==> !fits(p.0))),
    decreases s@.len() - i, 0int,
{
    let n = s.len();
    proof {
        broadcast use vstd::std_specs::vec::group_vec_axioms;

        lemma_literals();
        assert(n == s@.len());
    }
    if has_lit(s, i, "Null") {
        Some((JsonValue::Null, i + 4))
    } else if has_lit(s, i, "Bool(true)") {
        Some((JsonValue::Bool(true), i + 10))
    } else if has_lit(s, i, "Bool(false)") {
        Some((JsonValue::Bool(false), i + 11))
    } else if has_lit(s, i, "Number(-") {
        let (acc_opt, j) = scan_digits_exec(s, i + 8);
        if i + 8 < j && j < s.len() && s[j] == ')' {
            match acc_opt {
                Some(acc) => {
                    if acc <= 9223372036854775808u64 {
                        let wide: i128 = -(acc as i128);
                        assert(i64::MIN <= wide <= i64::MAX);
                        Some((JsonValue::Int(wide as i64), j + 1))
                    } else {
                        None
                    }
                },
                None => None,
            }
        } else {
            None
        }
    } else if has_lit(s, i, "Number(") {
        let (acc_opt, j) = scan_digits_exec(s, i + 7);
        if i + 7 < j && j < s.len() && s[j] == ')' {
            match acc_opt {
                Some(acc) => {
                    if acc <= 9223372036854775807u64 {
                        Some((JsonValue::Int(acc as i64), j + 1))
                    } else {
                        None
                    }
                },
                None => None,
            }
        } else {
            None
        }
    } else if has_lit(s, i, "String(\"") {
        match scan_text_exec(s, i + 8) {
            Some((t, j)) => {
                if j < s.len() && s[j] == ')' {
                    Some((JsonValue::Str(t), j + 1))
                } else {
                    None
                }
            },
            None => None,
        }
    } else if has_lit(s, i, "Array []") {
        let out: Vec<JsonValue> = Vec::new();
        proof {
            assert(JsonValue::models_of(out@) =~= Seq::<JsonModel>::empty());
            assert(JsonValue::Array(out).model() is Array);
            assert(JsonValue::Array(out).model()->Array_0 =~= Seq::<JsonModel>::empty());
            assert(JsonValue::Array(out).model() =~= JsonModel::Array(Seq::<JsonModel>::empty()));
        }
        Some((JsonValue::Array(out), i + 8))
    } else if has_lit(s, i, "Array [") {
        match parse_elems_exec(s, i + 7) {
            Some((items, j)) => {
                proof {
                    assert(JsonValue::Array(items).model() is Array);
                    assert(JsonValue::Array(items).model()->Array_0 =~= JsonValue::models_of(
                        items@,
                    ));
                    assert(JsonValue::Array(items).model() =~= JsonModel::Array(
                        JsonValue::models_of(items@),
                    ));
                }
                Some((JsonValue::Array(items), j))
            },
            None => {
                proof {
                    if parse_value(s@, i as int) is Some {
                        let p = parse_elems(s@, i as int + 7).unwrap();
                        assert(!fits_elems(p.0));
                    }
                }
                None
            },
        }
    } else if has_lit(s, i, "Object {}") {
        let out: Vec<(String, JsonValue)> = Vec::new();
        proof {
            assert(JsonValue::entries_of(out@) =~= Seq::<(Seq<char>, JsonModel)>::empty());
            assert(JsonValue::Object(out).model() is Object);
            assert(JsonValue::Object(out).model()->Object_0 =~= Seq::<(
                Seq<char>,
                JsonModel,
            )>::empty());
            assert(JsonValue::Object(out).model() =~= JsonModel::Object(
                Seq::<(Seq<char>, JsonModel)>::empty(),
            ));
        }
        Some((JsonValue::Object(out), i + 9))
    } else if has_lit(s, i, "Object {") {
        match parse_entries_exec(s, i + 8) {
            Some((entries, j)) => {
                proof {
                    assert(JsonValue::Object(entries).model() is Object);
                    assert(JsonValue::Object(entries).model()->Object_0 =~= JsonValue::entries_of(
                        entries@,
                    ));
                    assert(JsonValue::Object(entries).model() =~= JsonModel::Object(
                        JsonValue::entries_of(entries@),
                    ));
                }
                Some((JsonValue::Object(entries), j))
            },
            None => {
                proof {
                    if parse_value(s@, i as int) is Some {
                        let p = parse_entries(s@, i as int + 8).unwrap();
                        assert(!fits_entries(p.0));
                    }
                }
                None
            },
        }
    } else {
        None
    }
}

/// Parses the elements of a non-empty array, executably.
fn parse_elems_exec(s: &Vec<char>, i: usize) -> (r: Option<(Vec<JsonValue>, usize)>)
    requires
        i <= s@.len(),
    ensures
        (r matches Some(p) ==> i < p.1 <= s@.len() && parse_elems(s@, i as int) == Some(
            (JsonValue::models_of(p.0@), p.1 as int),
        )),
        (r is None ==> (parse_elems(s@, i as int) matches Some(p) ==> !fits_elems(p.0))),
    decreases s@.len() - i, 1int,
{
    let n = s.len();
    proof {
        broadcast use vstd::std_specs::vec::group_vec_axioms;

        lemma_literals();
        assert(n == s@.len());
    }
    match parse_value_exec(s, i) {
        Some((v, j)) => {
            let ghost vm = v.model();
            if j < s.len() && s[j] == ']' {
                let mut out: Vec<JsonValue> = Vec::new();
                out.push(v);
                proof {
                    assert(out@.len() == 1);
                    assert(out@[0].model() == vm);
                    assert(JsonValue::models_of(out@) =~= seq![vm]);
                }
                Some((out, j + 1))
            } else if has_lit(s, j, ", ") {
                match parse_elems_exec(s, j + 2) {
                    Some((mut rest, k2)) => {
                        let ghost restm = JsonValue::models_of(rest@);
                        rest.insert(0, v);
                        proof {
                            assert(rest@.len() == restm.len() + 1);
                            assert(rest@[0].model() == vm);
                            assert forall|q: int| 0 <= q < restm.len() implies rest@[q
                                + 1].model() == restm[q] by {}
                            assert(JsonValue::models_of(rest@) =~= seq![vm] + restm);
                        }
                        Some((rest, k2))
                    },
                    None => {
                        proof {
                            if parse_elems(s@, i as int) is Some {
                                let q = parse_elems(s@, i as int).unwrap();
                                let p = parse_elems(s@, j as int + 2).unwrap();
                                assert(q.0 == seq![vm] + p.0);
                                assert(q.0.drop_first() =~= p.0);
                                assert(!fits_elems(p.0));
                            }
                        }
                        None
                    },
                }
            } else {
                None
            }
        },
        None => {
            proof {
                if parse_elems(s@, i as int) is Some {
                    let q = parse_elems(s@, i as int).unwrap();
                    let p = parse_value(s@, i as int).unwrap();
                    assert(q.0[0] == p.0);
                    assert(!fits(p.0));
                }
            }
            None
        },
    }
}

/// Parses the entries of a non-empty object, executably.
fn parse_entries_exec(s: &Vec<char>, i: usize) -> (r: Option<(Vec<(String, JsonValue)>, usize)>)
    requires
        i <= s@.len(),
    ensures
        (r matches Some(p) ==> i < p.1 <= s@.len() && parse_entries(s@, i as int) == Some(
            (JsonValue::entries_of(p.0@), p.1 as int),
        )),
        (r is None ==> (parse_entries(s@, i as int) matches Some(p) ==> !fits_entries(p.0))),
    decreases s@.len() - i, 1int,
{
    let n = s.len();
    proof {
        broadcast use vstd::std_specs::vec::group_vec_axioms;

        lemma_literals();
        assert(n == s@.len());
    }
    if i < s.len() && s[i] == '"' {
        match scan_text_exec(s, i + 1) {
            Some((key, jk)) => {
                let ghost km = key@;
                if has_lit(s, jk, ": ") {
                    match parse_value_exec(s, jk + 2) {
                        Some((v, jv)) => {
                            let ghost vm = v.model();
                            if jv < s.len() && s[jv] == '}' {
                                let mut out: Vec<(String, JsonValue)> = Vec::new();
                                out.push((key, v));
                                proof {
                                    assert(out@.len() == 1);
                                    assert(out@[0].0@ == km);
                                    assert(out@[0].1.model() == vm);
                                    assert(JsonValue::entries_of(out@) =~= seq![(km, vm)]);
                                }
                                Some((out, jv + 1))
                            } else if has_lit(s, jv, ", ") {
                                match parse_entries_exec(s, jv + 2) {
                                    Some((mut rest, k2)) => {
                                        let ghost restm = JsonValue::entries_of(rest@);
                                        rest.insert(0, (key, v));
                                        proof {
                                            assert(rest@.len() == restm.len() + 1);
                                            assert(rest@[0].0@ == km);
                                            assert(rest@[0].1.model() == vm);
                                            assert forall|q: int|
                                                0 <= q < restm.len() implies (rest@[q + 1].0@,
                                            rest@[q + 1].1.model()) == restm[q] by {}
                                            assert(JsonValue::entries_of(rest@) =~= seq![(km, vm)]
                                                + restm);
                                        }
                                        Some((rest, k2))
                                    },
                                    None => {
                                        proof {
                                            if parse_entries(s@, i as int) is Some {
                                                let q = parse_entries(s@, i as int).unwrap();
                                                let p = parse_entries(
                                                    s@,
                                                    jv as int + 2,
                                                ).unwrap();
                                                assert(q.0 == seq![(km, vm)] + p.0);
                                                assert(q.0.drop_first() =~= p.0);
                                                assert(!fits_entries(p.0));
                                            }
                                        }
                                        None
                                    },
                                }
                            } else {
                                None
                            }
                        },
                        None => {
                            proof {
                                if parse_entries(s@, i as int) is Some {
                                    let q = parse_entries(s@, i as int).unwrap();
                                    let p = parse_value(s@, jk as int + 2).unwrap();
                                    assert(q.0[0].1 == p.0);
                                    assert(!fits(p.0));
                                }
                            }
                            None
                        },
                    }
                } else {
                    None
                }
            },
            None => None,
        }
    } else {
        None
    }
}

/// Parses a complete rendering back into a value: the value whose
/// rendering the text is. `None` comes exactly when the text is not the
/// rendering of any value, or renders a number that no signed 64-bit
/// integer holds.
pub fn parse_rendered(s: &str) -> (r: Option<JsonValue>)
    ensures
        (r matches Some(v) ==> parse_rendering(s@) == Some(v.model())),
        (r is None ==> (parse_rendering(s@) matches Some(m) ==> !fits(m))),
{
    let n = s.unicode_len();
    let mut cs: Vec<char> = Vec::new();
    let mut k: usize = 0;
    while k < n
        invariant
            n == s@.len(),
            k <= n,
            cs@ == s@.take(k as int),
        decreases n - k,
    {
        let c = s.get_char(k);
        cs.push(c);
        proof {
            assert(cs@ =~= s@.take(k as int + 1));
        }
        k = k + 1;
    }
    proof {
        assert(cs@ =~= s@);
    }
    match parse_value_exec(&cs, 0) {
        Some((v, j)) => {
            if j == cs.len() {
                Some(v)
            } else {
                None
            }
        },
        None => None,
    }
}

/// Whether a character may follow a backslash, executably.
fn is_escape_code_exec(c: char) -> (r: bool)
    ensures
        r == is_escape_code(c),
{
    c == '"' || c == '\\' || c == 'n' || c == 't' || c == 'r'
}

/// The character an escape code stands for, executably.
fn unescape_exec(c: char) -> (r: char)
    ensures
        r == unescape(c),
{
    if c == '"' {
        '"'
    } else if c == '\\' {
        '\\'
    } else if c == 'n' {
        '\n'
    } else if c == 't' {
        '\t'
    } else {
        '\r'
    }
}

} // verus!
