use vstd::prelude::*;

verus! {

/// A JSON number, held the way serde_json holds one: a non-negative
/// integer (`PosInt`), a negative integer (`NegInt`, which serde_json never
/// uses for a non-negative one), or a finite float.
///
/// A float is held by its text as serde_json renders it (the shortest text
/// that reads back to the same `f64`), so that no floating-point value is
/// needed here. Distinct finite floats have distinct texts; the only two
/// texts of equal floats are those of `0.0` and `-0.0`.
pub enum JsonNumber {
    PosInt(u64),
    NegInt(i64),
    Float(String),
}

/// A JSON value. An object holds its entries in the order serde_json's map
/// yields them: ascending by key, each key once.
pub enum JsonValue {
    Null,
    Bool(bool),
    Number(JsonNumber),
    String(String),
    Array(Vec<JsonValue>),
    Object(Vec<(String, JsonValue)>),
}

// ---------------------------------------------------------------------------
// Text
// ---------------------------------------------------------------------------

/// Decimal digits of a natural number, most significant first.
pub open spec fn decimal(n: nat) -> Seq<char>
    decreases n,
{
    if n < 10 {
        seq![digit_char(n)]
    } else {
        decimal(n / 10).push(digit_char(n % 10))
    }
}

pub open spec fn digit_char(d: nat) -> char {
    (d + 48) as char
}

/// Lower-case hexadecimal digit.
pub open spec fn hex_char(d: nat) -> char {
    if d < 10 {
        (d + 48) as char
    } else {
        (d + 87) as char
    }
}

/// Decimal text of an integer, with a leading `-` when it is negative.
pub open spec fn int_text(i: int) -> Seq<char> {
    if i < 0 {
        seq!['-'] + decimal((-i) as nat)
    } else {
        decimal(i as nat)
    }
}

/// How one character stands inside a JSON string literal.
pub open spec fn escape_char(c: char) -> Seq<char> {
    if c == '"' {
        seq!['\\', '"']
    } else if c == '\\' {
        seq!['\\', '\\']
    } else if c == '\u{8}' {
        seq!['\\', 'b']
    } else if c == '\t' {
        seq!['\\', 't']
    } else if c == '\n' {
        seq!['\\', 'n']
    } else if c == '\u{c}' {
        seq!['\\', 'f']
    } else if c == '\r' {
        seq!['\\', 'r']
    } else if (c as nat) < 32 {
        seq!['\\', 'u', '0', '0', hex_char((c as nat) / 16), hex_char((c as nat) % 16)]
    } else {
        seq![c]
    }
}

pub open spec fn escape_text(s: Seq<char>) -> Seq<char>
    decreases s.len(),
{
    if s.len() == 0 {
        seq![]
    } else {
        escape_text(s.drop_last()) + escape_char(s.last())
    }
}

/// A string as a JSON string literal.
pub open spec fn quoted(s: Seq<char>) -> Seq<char> {
    seq!['"'] + escape_text(s) + seq!['"']
}

pub open spec fn bool_text(b: bool) -> Seq<char> {
    if b {
        seq!['t', 'r', 'u', 'e']
    } else {
        seq!['f', 'a', 'l', 's', 'e']
    }
}

pub open spec fn null_text() -> Seq<char> {
    seq!['n', 'u', 'l', 'l']
}

pub open spec fn number_text(n: JsonNumber) -> Seq<char> {
    match n {
        JsonNumber::PosInt(u) => decimal(u as nat),
        JsonNumber::NegInt(i) => int_text(i as int),
        JsonNumber::Float(t) => t@,
    }
}

/// Compact JSON text of a value: no whitespace, members in the order held.
pub open spec fn json_text(v: JsonValue) -> Seq<char>
    decreases v,
{
    match v {
        JsonValue::Null => null_text(),
        JsonValue::Bool(b) => bool_text(b),
        JsonValue::Number(n) => number_text(n),
        JsonValue::String(s) => quoted(s@),
        JsonValue::Array(items) => seq!['['] + items_text(items@) + seq![']'],
        JsonValue::Object(entries) => seq!['{'] + entries_text(entries@) + seq!['}'],
    }
}

/// The texts of the items, separated by commas.
pub open spec fn items_text(items: Seq<JsonValue>) -> Seq<char>
    decreases items,
{
    if items.len() == 0 {
        seq![]
    } else if items.len() == 1 {
        json_text(items[0])
    } else {
        items_text(items.subrange(0, items.len() - 1)) + seq![','] + json_text(
            items[items.len() - 1],
        )
    }
}

pub open spec fn entry_text(key: Seq<char>, value_text: Seq<char>) -> Seq<char> {
    quoted(key) + seq![':'] + value_text
}

/// The `"key":value` texts of the entries, separated by commas.
pub open spec fn entries_text(entries: Seq<(String, JsonValue)>) -> Seq<char>
    decreases entries,
{
    if entries.len() == 0 {
        seq![]
    } else if entries.len() == 1 {
        entry_text(entries[0].0@, json_text(entries[0].1))
    } else {
        entries_text(entries.subrange(0, entries.len() - 1)) + seq![','] + entry_text(
            entries[entries.len() - 1].0@,
            json_text(entries[entries.len() - 1].1),
        )
    }
}

/// serde_json's `impl Display for Number`, for a non-negative integer:
/// its decimal digits.
#[verifier::external_body]
fn pos_int_text(n: u64) -> (text: String)
    ensures
        text@ == decimal(n as nat),
{
    serde_json::Number::from(n).to_string()
}

/// serde_json's `impl Display for Number`, for an `i64`: its decimal
/// digits, after a `-` when it is negative.
#[verifier::external_body]
fn neg_int_text(n: i64) -> (text: String)
    ensures
        text@ == int_text(n as int),
{
    serde_json::Number::from(n).to_string()
}

/// serde_json's `impl Display for Value`, for a string value: the string
/// between double quotes, with `"` and `\` escaped by a backslash,
/// backspace, tab, line feed, form feed and carriage return as `\b` `\t`
/// `\n` `\f` `\r`, the other characters below U+0020 as `\u00` and two
/// lower-case hex digits, and every other character as it is.
#[verifier::external_body]
fn string_literal_text(s: &str) -> (text: String)
    ensures
        text@ == quoted(s@),
{
    serde_json::Value::from(s).to_string()
}

fn literal_text(lit: &str) -> (text: String)
    ensures
        text@ == lit@,
{
    String::from_str(lit)
}

impl JsonNumber {
    /// The number's text, as `Number`'s `Display` gives it.
    pub fn to_text(&self) -> (text: String)
        ensures
            text@ == number_text(*self),
    {
        match self {
            JsonNumber::PosInt(u) => pos_int_text(*u),
            JsonNumber::NegInt(i) => neg_int_text(*i),
            JsonNumber::Float(t) => t.clone(),
        }
    }
}

impl JsonValue {
    /// Compact JSON text of the value, as `Value`'s `Display` gives it.
    pub fn to_json_text(&self) -> (text: String)
        ensures
            text@ == json_text(*self),
        decreases self,
    {
        match self {
            JsonValue::Null => {
                let t = literal_text("null");
                proof {
                    reveal_strlit("null");
                }
                t
            },
            JsonValue::Bool(b) => {
                if *b {
                    let t = literal_text("true");
                    proof {
                        reveal_strlit("true");
                    }
                    t
                } else {
                    let t = literal_text("false");
                    proof {
                        reveal_strlit("false");
                    }
                    t
                }
            },
            JsonValue::Number(n) => n.to_text(),
            JsonValue::String(s) => string_literal_text(s.as_str()),
            JsonValue::Array(items) => {
                proof {
                    reveal_strlit("[");
                    reveal_strlit("]");
                    reveal_strlit(",");
                }
                let mut out = literal_text("[");
                let n = items.len();
                for i in 0..n
                    invariant
                        n == items@.len(),
                        *self == JsonValue::Array(*items),
                        out@ == seq!['['] + items_text(items@.subrange(0, i as int)),
                {
                    proof {
                        reveal_strlit(",");
                        assert(decreases_to!(*self => self->Array_0));
                        assert(decreases_to!(*items => items@));
                        assert(decreases_to!(items@ => items@[i as int]));
                    }
                    let t = items[i].to_json_text();
                    let ghost prev = out@;
                    if i > 0 {
                        out.append(",");
                    }
                    out.append(t.as_str());
                    proof {
                        let s = items@.subrange(0, i + 1);
                        assert(s.subrange(0, s.len() - 1) =~= items@.subrange(0, i as int));
                        assert(s[s.len() - 1] == items@[i as int]);
                        if i == 0 {
                            assert(items_text(s) == json_text(items@[0]));
                            assert(prev =~= seq!['[']);
                            assert(out@ =~= seq!['['] + items_text(s));
                        } else {
                            assert(items_text(s) == items_text(items@.subrange(0, i as int)) + seq![','] + json_text(items@[i as int]));
                            assert(out@ =~= seq!['['] + items_text(s));
                        }
                    }
                }
                out.append("]");
                assert(items@.subrange(0, n as int) =~= items@);
                out
            },
            JsonValue::Object(entries) => {
                proof {
                    reveal_strlit("{");
                    reveal_strlit("}");
                    reveal_strlit(",");
                    reveal_strlit(":");
                }
                let mut out = literal_text("{");
                let n = entries.len();
                for i in 0..n
                    invariant
                        n == entries@.len(),
                        *self == JsonValue::Object(*entries),
                        out@ == seq!['{'] + entries_text(entries@.subrange(0, i as int)),
                {
                    proof {
                        reveal_strlit(",");
                        reveal_strlit(":");
                        assert(decreases_to!(*self => self->Object_0));
                        assert(decreases_to!(*entries => entries@));
                        assert(decreases_to!(entries@ => entries@[i as int]));
                        assert(decreases_to!(entries@[i as int] => entries@[i as int].1));
                    }
                    let k = string_literal_text(entries[i].0.as_str());
                    let t = entries[i].1.to_json_text();
                    if i > 0 {
                        out.append(",");
                    }
                    out.append(k.as_str());
                    out.append(":");
                    out.append(t.as_str());
                    proof {
                        let s = entries@.subrange(0, i + 1);
                        assert(s.subrange(0, s.len() - 1) =~= entries@.subrange(0, i as int));
                        assert(s[s.len() - 1] == entries@[i as int]);
                        assert(out@ =~= seq!['{'] + entries_text(s));
                    }
                }
                out.append("}");
                assert(entries@.subrange(0, n as int) =~= entries@);
                out
            },
        }
    }
}

// ---------------------------------------------------------------------------
// Equality
// ---------------------------------------------------------------------------

/// The text of `0.0` or of `-0.0`.
pub open spec fn is_zero_float_text(t: Seq<char>) -> bool {
    t == seq!['0', '.', '0'] || t == seq!['-', '0', '.', '0']
}

/// Equality of numbers as serde_json decides it: same kind and equal value.
/// Two floats are equal when their texts are, or when both are zeros.
pub open spec fn number_eq(a: JsonNumber, b: JsonNumber) -> bool {
    match a {
        JsonNumber::PosInt(x) => b matches JsonNumber::PosInt(y) && x == y,
        JsonNumber::NegInt(x) => b matches JsonNumber::NegInt(y) && x == y,
        JsonNumber::Float(x) => b matches JsonNumber::Float(y) && (x@ == y@ || (
        is_zero_float_text(x@) && is_zero_float_text(y@))),
    }
}

/// Equality of JSON values as serde_json's `PartialEq for Value` decides it.
pub open spec fn json_eq(a: JsonValue, b: JsonValue) -> bool
    decreases a,
{
    match a {
        JsonValue::Null => b is Null,
        JsonValue::Bool(x) => b matches JsonValue::Bool(y) && x == y,
        JsonValue::Number(x) => b matches JsonValue::Number(y) && number_eq(x, y),
        JsonValue::String(x) => b matches JsonValue::String(y) && x@ == y@,
        JsonValue::Array(x) => b matches JsonValue::Array(y) && items_eq(x@, y@),
        JsonValue::Object(x) => b matches JsonValue::Object(y) && entries_eq(x@, y@),
    }
}

/// Same length, and equal items position by position.
pub open spec fn items_eq(x: Seq<JsonValue>, y: Seq<JsonValue>) -> bool
    decreases x,
{
    if x.len() != y.len() {
        false
    } else if x.len() == 0 {
        true
    } else {
        items_eq(x.subrange(0, x.len() - 1), y.subrange(0, y.len() - 1)) && json_eq(
            x[x.len() - 1],
            y[y.len() - 1],
        )
    }
}

/// Same length, and equal keys and equal values position by position.
pub open spec fn entries_eq(x: Seq<(String, JsonValue)>, y: Seq<(String, JsonValue)>) -> bool
    decreases x,
{
    if x.len() != y.len() {
        false
    } else if x.len() == 0 {
        true
    } else {
        &&& entries_eq(x.subrange(0, x.len() - 1), y.subrange(0, y.len() - 1))
        &&& x[x.len() - 1].0@ == y[y.len() - 1].0@
        &&& json_eq(x[x.len() - 1].1, y[y.len() - 1].1)
    }
}

/// Every value equals itself.
pub proof fn lemma_json_eq_reflexive(v: JsonValue)
    ensures
        json_eq(v, v),
    decreases v,
{
    match v {
        JsonValue::Array(items) => {
            assert(decreases_to!(v => v->Array_0));
            lemma_items_eq_reflexive(items@);
        },
        JsonValue::Object(entries) => {
            assert(decreases_to!(v => v->Object_0));
            lemma_entries_eq_reflexive(entries@);
        },
        _ => {},
    }
}

proof fn lemma_items_eq_reflexive(s: Seq<JsonValue>)
    ensures
        items_eq(s, s),
    decreases s,
{
    if s.len() > 0 {
        lemma_items_eq_reflexive(s.subrange(0, s.len() - 1));
        lemma_json_eq_reflexive(s[s.len() - 1]);
    }
}

proof fn lemma_entries_eq_reflexive(s: Seq<(String, JsonValue)>)
    ensures
        entries_eq(s, s),
    decreases s,
{
    if s.len() > 0 {
        lemma_entries_eq_reflexive(s.subrange(0, s.len() - 1));
        assert(decreases_to!(s => s[s.len() - 1]));
        assert(decreases_to!(s[s.len() - 1] => s[s.len() - 1].1));
        lemma_json_eq_reflexive(s[s.len() - 1].1);
    }
}

/// Two arrays are equal exactly when they have the same length and equal
/// items at every position.
pub proof fn lemma_items_eq_positionwise(x: Seq<JsonValue>, y: Seq<JsonValue>)
    ensures
        items_eq(x, y) <==> (x.len() == y.len() && forall|i: int|
            0 <= i < x.len() ==> #[trigger] json_eq(x[i], y[i])),
    decreases x.len(),
{
    if x.len() == y.len() && x.len() > 0 {
        let xs = x.subrange(0, x.len() - 1);
        let ys = y.subrange(0, y.len() - 1);
        lemma_items_eq_positionwise(xs, ys);
        if items_eq(x, y) {
            assert forall|i: int| 0 <= i < x.len() implies #[trigger] json_eq(x[i], y[i]) by {
                if i < x.len() - 1 {
                    assert(xs[i] == x[i] && ys[i] == y[i]);
                }
            }
        }
        if forall|i: int| 0 <= i < x.len() ==> #[trigger] json_eq(x[i], y[i]) {
            assert forall|i: int| 0 <= i < xs.len() implies #[trigger] json_eq(xs[i], ys[i]) by {
                assert(xs[i] == x[i] && ys[i] == y[i]);
                assert(json_eq(x[i], y[i]));
            }
            assert(json_eq(x[x.len() - 1], y[y.len() - 1]));
        }
    }
}

/// Two objects are equal exactly when they have the same number of entries
/// and, at every position, the same key and equal values.
pub proof fn lemma_entries_eq_positionwise(x: Seq<(String, JsonValue)>, y: Seq<(String, JsonValue)>)
    ensures
        entries_eq(x, y) <==> (x.len() == y.len() && forall|i: int|
            #![trigger x[i]]
            0 <= i < x.len() ==> x[i].0@ == y[i].0@ && json_eq(x[i].1, y[i].1)),
    decreases x.len(),
{
    if x.len() == y.len() && x.len() > 0 {
        let xs = x.subrange(0, x.len() - 1);
        let ys = y.subrange(0, y.len() - 1);
        lemma_entries_eq_positionwise(xs, ys);
        if entries_eq(x, y) {
            assert forall|i: int| #![trigger x[i]] 0 <= i < x.len() implies x[i].0@ == y[i].0@ && json_eq(
                x[i].1,
                y[i].1,
            ) by {
                if i < x.len() - 1 {
                    assert(xs[i] == x[i] && ys[i] == y[i]);
                    assert(xs[i].0@ == ys[i].0@);
                }
            }
        }
        if forall|i: int| #![trigger x[i]] 0 <= i < x.len() ==> x[i].0@ == y[i].0@ && json_eq(x[i].1, y[i].1) {
            assert forall|i: int| #![trigger xs[i]] 0 <= i < xs.len() implies xs[i].0@ == ys[i].0@ && json_eq(
                xs[i].1,
                ys[i].1,
            ) by {
                assert(xs[i] == x[i] && ys[i] == y[i]);
                assert(x[i].0@ == y[i].0@);
            }
            assert(x[x.len() - 1].0@ == y[y.len() - 1].0@);
        }
    }
}

/// Two JSON arrays are equal exactly when they have the same length and
/// equal items position by position; two objects exactly when they have the
/// same keys in the same positions with equal values.
pub proof fn lemma_containers_equal_positionwise(a: JsonValue, b: JsonValue)
    ensures
        a is Array && b is Array ==> (json_eq(a, b) <==> (a->Array_0@.len() == b->Array_0@.len()
            && forall|i: int|
            0 <= i < a->Array_0@.len() ==> #[trigger] json_eq(a->Array_0@[i], b->Array_0@[i]))),
        a is Object && b is Object ==> (json_eq(a, b) <==> (a->Object_0@.len()
            == b->Object_0@.len() && forall|i: int|
            #![trigger a->Object_0@[i]]
            0 <= i < a->Object_0@.len() ==> a->Object_0@[i].0@ == b->Object_0@[i].0@ && json_eq(
                a->Object_0@[i].1,
                b->Object_0@[i].1,
            ))),
{
    match (a, b) {
        (JsonValue::Array(x), JsonValue::Array(y)) => lemma_items_eq_positionwise(x@, y@),
        (JsonValue::Object(x), JsonValue::Object(y)) => {
            lemma_entries_eq_positionwise(x@, y@);
        },
        _ => {},
    }
}

/// The number that a string of decimal digits stands for.
pub open spec fn digits_value(s: Seq<char>) -> int
    decreases s.len(),
{
    if s.len() == 0 {
        0
    } else {
        digits_value(s.drop_last()) * 10 + (s.last() as int - 48)
    }
}

/// `decimal(n)` is the base-10 numeral of `n`: it is made of the digits 0-9,
/// has no leading zero (unless `n` is 0), and reads back as `n`.
pub proof fn lemma_decimal_reads_back(n: nat)
    ensures
        digits_value(decimal(n)) == n,
        decimal(n).len() >= 1,
        forall|i: int| 0 <= i < decimal(n).len() ==> '0' <= #[trigger] decimal(n)[i] <= '9',
        n > 0 ==> decimal(n)[0] != '0',
    decreases n,
{
    if n >= 10 {
        lemma_decimal_reads_back(n / 10);
        let d = decimal(n / 10);
        let s = decimal(n);
        assert(s == d.push(digit_char(n % 10)));
        assert(s.drop_last() =~= d);
        assert(forall|i: int| 0 <= i < d.len() ==> s[i] == d[i]);
        let k = n % 10;
        assert(s.last() == digit_char(k));
        assert(digit_char(k) as int == k + 48);
        assert(n == (n / 10) * 10 + k);
        assert(digits_value(s) == digits_value(d) * 10 + k);
    } else {
        let s = decimal(n);
        assert(s == seq![digit_char(n)]);
        assert(s.drop_last() =~= Seq::<char>::empty());
        assert(digit_char(n) as int == n + 48);
        assert(digits_value(s.drop_last()) == 0);
    }
}

// ---------------------------------------------------------------------------
// Accessors
// ---------------------------------------------------------------------------

/// `Value::as_u64`: a non-negative integer as `u64`, else nothing.
pub open spec fn json_as_u64(v: JsonValue) -> Option<u64> {
    match v {
        JsonValue::Number(JsonNumber::PosInt(n)) => Some(n),
        _ => None,
    }
}

/// `Value::as_i64`: an integer that fits in `i64`, else nothing.
pub open spec fn json_as_i64(v: JsonValue) -> Option<i64> {
    match v {
        JsonValue::Number(JsonNumber::PosInt(n)) => if n <= i64::MAX {
            Some(n as i64)
        } else {
            None
        },
        JsonValue::Number(JsonNumber::NegInt(n)) => Some(n),
        _ => None,
    }
}

/// The text by which a metadata value takes part in a group key: a string
/// stands for itself, a number and a boolean for their text, anything else
/// for its JSON text.
pub open spec fn key_text(v: JsonValue) -> Seq<char> {
    match v {
        JsonValue::String(s) => s@,
        JsonValue::Number(n) => number_text(n),
        JsonValue::Bool(b) => bool_text(b),
        _ => json_text(v),
    }
}

impl JsonNumber {
    /// Equality of numbers, as `PartialEq for Number` decides it.
    pub fn equals(&self, other: &JsonNumber) -> (r: bool)
        ensures
            r == number_eq(*self, *other),
    {
        match self {
            JsonNumber::PosInt(x) => match other {
                JsonNumber::PosInt(y) => *x == *y,
                _ => false,
            },
            JsonNumber::NegInt(x) => match other {
                JsonNumber::NegInt(y) => *x == *y,
                _ => false,
            },
            JsonNumber::Float(x) => match other {
                JsonNumber::Float(y) => *x == *y || (is_zero_float(x) && is_zero_float(y)),
                _ => false,
            },
        }
    }
}

fn is_zero_float(t: &String) -> (r: bool)
    ensures
        r == is_zero_float_text(t@),
{
    let zero = literal_text("0.0");
    let negative_zero = literal_text("-0.0");
    proof {
        reveal_strlit("0.0");
        reveal_strlit("-0.0");
        assert("0.0"@ =~= seq!['0', '.', '0']);
        assert("-0.0"@ =~= seq!['-', '0', '.', '0']);
    }
    *t == zero || *t == negative_zero
}

impl JsonValue {
    /// Equality of values, as `PartialEq for Value` decides it.
    pub fn equals(&self, other: &JsonValue) -> (r: bool)
        ensures
            r == json_eq(*self, *other),
        decreases self,
    {
        match self {
            JsonValue::Null => match other {
                JsonValue::Null => true,
                _ => false,
            },
            JsonValue::Bool(x) => match other {
                JsonValue::Bool(y) => *x == *y,
                _ => false,
            },
            JsonValue::Number(x) => match other {
                JsonValue::Number(y) => x.equals(y),
                _ => false,
            },
            JsonValue::String(x) => match other {
                JsonValue::String(y) => *x == *y,
                _ => false,
            },
            JsonValue::Array(x) => match other {
                JsonValue::Array(y) => {
                    if x.len() != y.len() {
                        return false;
                    }
                    let n = x.len();
                    let mut all = true;
                    for i in 0..n
                        invariant
                            n == x@.len(),
                            n == y@.len(),
                            *self == JsonValue::Array(*x),
                            all == items_eq(x@.subrange(0, i as int), y@.subrange(0, i as int)),
                    {
                        proof {
                            assert(decreases_to!(*self => self->Array_0));
                            assert(decreases_to!(*x => x@));
                            assert(decreases_to!(x@ => x@[i as int]));
                        }
                        all = all && x[i].equals(&y[i]);
                        proof {
                            let xs = x@.subrange(0, i + 1);
                            let ys = y@.subrange(0, i + 1);
                            assert(xs.subrange(0, i as int) =~= x@.subrange(0, i as int));
                            assert(ys.subrange(0, i as int) =~= y@.subrange(0, i as int));
                        }
                    }
                    assert(x@.subrange(0, n as int) =~= x@);
                    assert(y@.subrange(0, n as int) =~= y@);
                    all
                },
                _ => false,
            },
            JsonValue::Object(x) => match other {
                JsonValue::Object(y) => {
                    if x.len() != y.len() {
                        return false;
                    }
                    let n = x.len();
                    let mut all = true;
                    for i in 0..n
                        invariant
                            n == x@.len(),
                            n == y@.len(),
                            *self == JsonValue::Object(*x),
                            all == entries_eq(x@.subrange(0, i as int), y@.subrange(0, i as int)),
                    {
                        proof {
                            assert(decreases_to!(*self => self->Object_0));
                            assert(decreases_to!(*x => x@));
                            assert(decreases_to!(x@ => x@[i as int]));
                            assert(decreases_to!(x@[i as int] => x@[i as int].1));
                        }
                        all = all && x[i].0 == y[i].0 && x[i].1.equals(&y[i].1);
                        proof {
                            let xs = x@.subrange(0, i + 1);
                            let ys = y@.subrange(0, i + 1);
                            assert(xs.subrange(0, i as int) =~= x@.subrange(0, i as int));
                            assert(ys.subrange(0, i as int) =~= y@.subrange(0, i as int));
                        }
                    }
                    assert(x@.subrange(0, n as int) =~= x@);
                    assert(y@.subrange(0, n as int) =~= y@);
                    all
                },
                _ => false,
            },
        }
    }

    /// `Value::as_u64`.
    pub fn as_u64(&self) -> (r: Option<u64>)
        ensures
            r == json_as_u64(*self),
    {
        match self {
            JsonValue::Number(JsonNumber::PosInt(n)) => Some(*n),
            _ => None,
        }
    }

    /// `Value::as_i64`.
    pub fn as_i64(&self) -> (r: Option<i64>)
        ensures
            r == json_as_i64(*self),
    {
        match self {
            JsonValue::Number(JsonNumber::PosInt(n)) => {
                if *n <= 0x7fff_ffff_ffff_ffffu64 {
                    Some(*n as i64)
                } else {
                    None
                }
            },
            JsonValue::Number(JsonNumber::NegInt(n)) => Some(*n),
            _ => None,
        }
    }

    /// The text by which this value takes part in a group key.
    pub fn key_text(&self) -> (text: String)
        ensures
            text@ == key_text(*self),
    {
        match self {
            JsonValue::String(s) => s.clone(),
            JsonValue::Number(n) => n.to_text(),
            JsonValue::Bool(b) => {
                if *b {
                    let t = literal_text("true");
                    proof {
                        reveal_strlit("true");
                    }
                    t
                } else {
                    let t = literal_text("false");
                    proof {
                        reveal_strlit("false");
                    }
                    t
                }
            },
            _ => self.to_json_text(),
        }
    }
}

} // verus!
