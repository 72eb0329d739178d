//! One line of JSON as plain values.
//!
//! Receipts are files of one JSON object a line. Parsing is `serde_json`'s
//! business; what is read out of the object, and what makes a line malformed, is
//! decided here.
use vstd::arithmetic::power2::{lemma2_to64, lemma_pow2_pos, lemma_pow2_unfold, pow2};
use vstd::prelude::*;

use serde::ser::{SerializeMap as _, Serializer as _};
use serde_json::Value;

use crate::size::{as_double, double_of, excess_bits};

verus! {

/// A value in a JSON object. What is inside a nested one is not looked at.
#[derive(Debug)]
pub enum JsonValue {
    Null,
    Bool(bool),
    Text(String),
    /// A number, as far as it is an unsigned or a signed integer, and the bits of
    /// the double nearest to it.
    Number { unsigned: Option<u64>, signed: Option<i64>, double: Option<u64> },
    Nested,
}

/// What a [`JsonValue`] says.
pub enum JsonValueView {
    Null,
    Bool(bool),
    Text(Seq<char>),
    Number { unsigned: Option<u64>, signed: Option<i64>, double: Option<u64> },
    Nested,
}

impl View for JsonValue {
    type V = JsonValueView;

    open spec fn view(&self) -> JsonValueView {
        match self {
            JsonValue::Null => JsonValueView::Null,
            JsonValue::Bool(b) => JsonValueView::Bool(*b),
            JsonValue::Text(s) => JsonValueView::Text(s@),
            JsonValue::Number { unsigned, signed, double } => JsonValueView::Number {
                unsigned: *unsigned,
                signed: *signed,
                double: *double,
            },
            JsonValue::Nested => JsonValueView::Nested,
        }
    }
}

/// A member of a JSON object.
#[derive(Debug)]
pub struct JsonField {
    pub key: String,
    pub value: JsonValue,
}

/// What a [`JsonField`] says.
pub struct JsonFieldView {
    pub key: Seq<char>,
    pub value: JsonValueView,
}

impl View for JsonField {
    type V = JsonFieldView;

    open spec fn view(&self) -> JsonFieldView {
        JsonFieldView { key: self.key@, value: self.value@ }
    }
}

/// What a list of members says.
pub open spec fn fields(list: Seq<JsonField>) -> Seq<JsonFieldView> {
    list.map_values(|field: JsonField| field@)
}

/// What a line of text is as JSON.
#[derive(Debug)]
pub enum JsonLine {
    Object(Vec<JsonField>),
    /// Some other JSON value.
    Other,
    /// Not JSON.
    Malformed,
}

/// What a [`JsonLine`] says.
pub enum JsonLineView {
    Object(Seq<JsonFieldView>),
    Other,
    Malformed,
}

impl View for JsonLine {
    type V = JsonLineView;

    open spec fn view(&self) -> JsonLineView {
        match self {
            JsonLine::Object(list) => JsonLineView::Object(fields(list@)),
            JsonLine::Other => JsonLineView::Other,
            JsonLine::Malformed => JsonLineView::Malformed,
        }
    }
}

/// What `serde_json` makes of a text.
pub uninterp spec fn parsed_json(text: Seq<char>) -> JsonLineView;

/// `serde_json::from_str` into a `serde_json::Value`, with the members of an
/// object in the order of its map and each number as `as_u64`, `as_i64` and
/// `as_f64` give it. The outcome depends on the text alone; which texts are JSON
/// and what they hold is not said here.
#[verifier::external_body]
pub(crate) fn parse_json(text: &str) -> (r: JsonLine)
    ensures
        r@ == parsed_json(text@),
{
    let Ok(value) = serde_json::from_str::<Value>(text) else { return JsonLine::Malformed };
    let Value::Object(map) = value else { return JsonLine::Other };
    let plain = |value: Value| match value {
        Value::Null => JsonValue::Null,
        Value::Bool(b) => JsonValue::Bool(b),
        Value::String(s) => JsonValue::Text(s),
        Value::Number(n) => JsonValue::Number {
            unsigned: n.as_u64(), signed: n.as_i64(), double: n.as_f64().map(|x| x.to_bits()),
        },
        Value::Array(_) => JsonValue::Nested,
        Value::Object(_) => JsonValue::Nested,
    };
    JsonLine::Object(map.into_iter().map(|(key, v)| JsonField { key, value: plain(v) }).collect())
}

// ---------------------------------------------------------------------------
// Members by name
// ---------------------------------------------------------------------------

/// The value of a member, if the object has it.
pub open spec fn member(object: Seq<JsonFieldView>, key: Seq<char>) -> Option<JsonValueView>
    decreases object.len(),
{
    if object.len() == 0 {
        None
    } else if object[0].key == key {
        Some(object[0].value)
    } else {
        member(object.drop_first(), key)
    }
}

/// The place of a member, if the object has it.
fn find_member(object: &Vec<JsonField>, key: &str) -> (r: Option<usize>)
    ensures
        (match r {
            Some(i) => i < object@.len() && member(fields(object@), key@) == Some(
                object@[i as int].value@,
            ),
            None => member(fields(object@), key@) is None,
        }),
{
    let ghost all = fields(object@);
    let mut i: usize = 0;
    assert(all.subrange(0, all.len() as int) =~= all);
    while i < object.len()
        invariant
            i <= object.len(),
            all == fields(object@),
            member(all, key@) == member(all.subrange(i as int, all.len() as int), key@),
        decreases object.len() - i,
    {
        let ghost rest = all.subrange(i as int, all.len() as int);
        assert(rest[0] == object@[i as int]@);
        if *object[i].key.as_str() == *key {
            return Some(i);
        }
        assert(rest.drop_first() =~= all.subrange(i + 1, all.len() as int));
        i += 1;
    }
    None
}

/// Whether the object has a member of this name.
pub fn has_member(object: &Vec<JsonField>, key: &str) -> (r: bool)
    ensures
        r == (member(fields(object@), key@) is Some),
{
    find_member(object, key).is_some()
}

/// A member that is a text.
pub open spec fn text_member(object: Seq<JsonFieldView>, key: Seq<char>) -> Option<Seq<char>> {
    match member(object, key) {
        Some(JsonValueView::Text(text)) => Some(text),
        _ => None,
    }
}

/// A member that is a text.
pub fn get_text(object: &Vec<JsonField>, key: &str) -> (r: Option<String>)
    ensures
        (match r {
            Some(text) => text_member(fields(object@), key@) == Some(text@),
            None => text_member(fields(object@), key@) is None,
        }),
{
    match find_member(object, key) {
        Some(i) => match &object[i].value {
            JsonValue::Text(text) => Some(text.clone()),
            _ => None,
        },
        None => None,
    }
}

/// A member that is a text, or the empty text.
pub open spec fn text_or_empty(object: Seq<JsonFieldView>, key: Seq<char>) -> Seq<char> {
    match text_member(object, key) {
        Some(text) => text,
        None => Seq::empty(),
    }
}

/// A member that is a text, or the empty text.
pub fn get_text_or_empty(object: &Vec<JsonField>, key: &str) -> (r: String)
    ensures
        r@ == text_or_empty(fields(object@), key@),
{
    match get_text(object, key) {
        Some(text) => text,
        None => String::new(),
    }
}

/// A member that is an unsigned integer.
pub open spec fn unsigned_member(object: Seq<JsonFieldView>, key: Seq<char>) -> Option<u64> {
    match member(object, key) {
        Some(JsonValueView::Number { unsigned, .. }) => unsigned,
        _ => None,
    }
}

/// A member that is an unsigned integer.
pub fn get_unsigned(object: &Vec<JsonField>, key: &str) -> (r: Option<u64>)
    ensures
        r == unsigned_member(fields(object@), key@),
{
    match find_member(object, key) {
        Some(i) => match &object[i].value {
            JsonValue::Number { unsigned, .. } => *unsigned,
            _ => None,
        },
        None => None,
    }
}

/// Whether a member is missing or null.
pub open spec fn absent(object: Seq<JsonFieldView>, key: Seq<char>) -> bool {
    match member(object, key) {
        Some(JsonValueView::Null) => true,
        Some(_) => false,
        None => true,
    }
}

/// Whether a member is missing or null.
pub fn is_absent(object: &Vec<JsonField>, key: &str) -> (r: bool)
    ensures
        r == absent(fields(object@), key@),
{
    match find_member(object, key) {
        Some(i) => match &object[i].value {
            JsonValue::Null => true,
            _ => false,
        },
        None => true,
    }
}

/// A member that may be left out: `None` where it is neither an unsigned integer
/// nor absent.
pub open spec fn optional_unsigned(object: Seq<JsonFieldView>, key: Seq<char>) -> Option<
    Option<u64>,
> {
    if absent(object, key) {
        Some(None)
    } else {
        match unsigned_member(object, key) {
            Some(n) => Some(Some(n)),
            None => None,
        }
    }
}

/// A member that may be left out.
pub fn get_optional_unsigned(object: &Vec<JsonField>, key: &str) -> (r: Option<Option<u64>>)
    ensures
        r == optional_unsigned(fields(object@), key@),
{
    if is_absent(object, key) {
        Some(None)
    } else {
        match get_unsigned(object, key) {
            Some(n) => Some(Some(n)),
            None => None,
        }
    }
}

/// A member that is an integer.
pub open spec fn integer_member(object: Seq<JsonFieldView>, key: Seq<char>) -> Option<i128> {
    match member(object, key) {
        Some(JsonValueView::Number { unsigned: Some(n), .. }) => Some(n as i128),
        Some(JsonValueView::Number { unsigned: None, signed: Some(n), .. }) => Some(n as i128),
        _ => None,
    }
}

/// A member that is an integer.
pub fn get_integer(object: &Vec<JsonField>, key: &str) -> (r: Option<i128>)
    ensures
        r == integer_member(fields(object@), key@),
{
    match find_member(object, key) {
        Some(i) => match &object[i].value {
            JsonValue::Number { unsigned, signed, .. } => match *unsigned {
                Some(n) => Some(n as i128),
                None => match *signed {
                    Some(n) => Some(n as i128),
                    None => None,
                },
            },
            _ => None,
        },
        None => None,
    }
}

/// A member that may be left out: `None` where it is neither an integer nor
/// absent.
pub open spec fn optional_integer(object: Seq<JsonFieldView>, key: Seq<char>) -> Option<
    Option<i128>,
> {
    if absent(object, key) {
        Some(None)
    } else {
        match integer_member(object, key) {
            Some(n) => Some(Some(n)),
            None => None,
        }
    }
}

/// A member that may be left out.
pub fn get_optional_integer(object: &Vec<JsonField>, key: &str) -> (r: Option<Option<i128>>)
    ensures
        r == optional_integer(fields(object@), key@),
{
    if is_absent(object, key) {
        Some(None)
    } else {
        match get_integer(object, key) {
            Some(n) => Some(Some(n)),
            None => None,
        }
    }
}

/// A member that is true or false.
pub open spec fn bool_member(object: Seq<JsonFieldView>, key: Seq<char>) -> Option<bool> {
    match member(object, key) {
        Some(JsonValueView::Bool(b)) => Some(b),
        _ => None,
    }
}

/// A member that is true or false.
pub fn get_bool(object: &Vec<JsonField>, key: &str) -> (r: Option<bool>)
    ensures
        r == bool_member(fields(object@), key@),
{
    match find_member(object, key) {
        Some(i) => match &object[i].value {
            JsonValue::Bool(b) => Some(*b),
            _ => None,
        },
        None => None,
    }
}

/// The bits of the double nearest to a member that is a number.
pub open spec fn double_member(object: Seq<JsonFieldView>, key: Seq<char>) -> Option<u64> {
    match member(object, key) {
        Some(JsonValueView::Number { double, .. }) => double,
        _ => None,
    }
}

/// The bits of the double nearest to a member that is a number.
pub fn get_double(object: &Vec<JsonField>, key: &str) -> (r: Option<u64>)
    ensures
        r == double_member(fields(object@), key@),
{
    match find_member(object, key) {
        Some(i) => match &object[i].value {
            JsonValue::Number { double, .. } => *double,
            _ => None,
        },
        None => None,
    }
}

// ---------------------------------------------------------------------------
// Writing
// ---------------------------------------------------------------------------

/// A value to be written.
#[derive(Debug)]
pub enum Written {
    Null,
    Bool(bool),
    Text(String),
    Integer(i128),
    Natural(u128),
}

/// What a [`Written`] says.
pub enum WrittenView {
    Null,
    Bool(bool),
    Text(Seq<char>),
    Integer(i128),
    Natural(u128),
}

impl View for Written {
    type V = WrittenView;

    open spec fn view(&self) -> WrittenView {
        match self {
            Written::Null => WrittenView::Null,
            Written::Bool(b) => WrittenView::Bool(*b),
            Written::Text(s) => WrittenView::Text(s@),
            Written::Integer(n) => WrittenView::Integer(*n),
            Written::Natural(n) => WrittenView::Natural(*n),
        }
    }
}

/// A member to be written.
#[derive(Debug)]
pub struct WrittenField {
    pub key: &'static str,
    pub value: Written,
}

/// What a list of members to be written says.
pub open spec fn written_fields(list: Seq<WrittenField>) -> Seq<(Seq<char>, WrittenView)> {
    list.map_values(|field: WrittenField| (field.key@, field.value@))
}

/// The value written for a member, if there is one.
pub open spec fn written_member(list: Seq<(Seq<char>, WrittenView)>, key: Seq<char>) -> Option<
    WrittenView,
>
    decreases list.len(),
{
    if list.len() == 0 {
        None
    } else if list[0].0 == key {
        Some(list[0].1)
    } else {
        written_member(list.drop_first(), key)
    }
}

/// Whether a value that was read is the value that was written. Integers beyond
/// 64 bits come back as doubles only.
pub open spec fn reads_as(written: WrittenView, read: JsonValueView) -> bool {
    match (written, read) {
        (WrittenView::Null, JsonValueView::Null) => true,
        (WrittenView::Bool(a), JsonValueView::Bool(b)) => a == b,
        (WrittenView::Text(a), JsonValueView::Text(b)) => a == b,
        (WrittenView::Natural(n), JsonValueView::Number { unsigned, .. }) => unsigned == (if n
            <= u64::MAX {
            Some(n as u64)
        } else {
            None
        }),
        (WrittenView::Integer(n), JsonValueView::Number { unsigned, signed, .. }) => {
            &&& unsigned == (if 0 <= n <= u64::MAX {
                Some(n as u64)
            } else {
                None
            })
            &&& n < 0 ==> signed == (if i64::MIN <= n {
                Some(n as i64)
            } else {
                None
            })
        },
        _ => false,
    }
}

/// Whether an object that was read is the one that was written.
pub open spec fn reads_back(
    written: Seq<(Seq<char>, WrittenView)>,
    object: Seq<JsonFieldView>,
) -> bool {
    forall|key: Seq<char>|
        match (written_member(written, key), #[trigger] member(object, key)) {
            (Some(w), Some(v)) => reads_as(w, v),
            (None, None) => true,
            _ => false,
        }
}

/// Whether a line that was read is an object with the members that were written.
pub open spec fn holds_members(
    line: JsonLineView,
    written: Seq<(Seq<char>, WrittenView)>,
) -> bool {
    match line {
        JsonLineView::Object(object) => reads_back(written, object),
        _ => false,
    }
}

/// Whether no two members of an object to be written share a name.
pub open spec fn distinct_names(list: Seq<(Seq<char>, WrittenView)>) -> bool {
    forall|i: int, j: int|
        0 <= i < j < list.len() ==> (#[trigger] list[i]).0 != (#[trigger] list[j]).0
}

/// Whether a text is one line of a file when a line feed is put behind it.
pub open spec fn one_line(text: Seq<char>) -> bool {
    !text.contains('\n') && (text.len() > 0 ==> text.last() != '\r')
}

/// The text `serde_json` writes for an object.
pub uninterp spec fn json_text(list: Seq<(Seq<char>, WrittenView)>) -> Seq<char>;

/// `serde::Serializer::serialize_map` on a `serde_json::Serializer`, with each
/// member handed to it in turn: a compact JSON object with the members in their
/// order. The text depends on the members alone, opens with a brace, is a single
/// line, and `serde_json` reads the same members back from it, integers beyond 64
/// bits as doubles; how it spells them is not said here.
#[verifier::external_body]
pub(crate) fn write_json(members: &Vec<WrittenField>) -> (r: String)
    requires
        distinct_names(written_fields(members@)),
    ensures
        r@ == json_text(written_fields(members@)),
        r@.len() > 0 && r@[0] == '{',
        one_line(r@),
        holds_members(parsed_json(r@), written_fields(members@)),
{
    let mut out: Vec<u8> = Vec::new();
    let mut writer = serde_json::Serializer::new(&mut out);
    let mut map = writer.serialize_map(Some(members.len())).expect("writing to memory");
    for m in members {
        match &m.value {
            Written::Null => map.serialize_entry(m.key, &()),
            Written::Bool(b) => map.serialize_entry(m.key, b),
            Written::Text(s) => map.serialize_entry(m.key, s),
            Written::Integer(n) => map.serialize_entry(m.key, n),
            Written::Natural(n) => map.serialize_entry(m.key, n),
        }.expect("writing to memory");
    }
    map.end().expect("writing to memory");
    String::from_utf8(out).expect("JSON is UTF-8")
}

// ---------------------------------------------------------------------------
// Seconds in a double to milliseconds
// ---------------------------------------------------------------------------

/// The significand of a finite double.
pub open spec fn significand(bits: u64) -> nat {
    let fraction = (bits % 0x10_0000_0000_0000) as nat;
    if exponent_field(bits) == 0 {
        fraction
    } else {
        fraction + 0x10_0000_0000_0000
    }
}

/// The eleven bits of a double that hold its exponent.
pub open spec fn exponent_field(bits: u64) -> nat {
    ((bits / 0x10_0000_0000_0000) % 0x800) as nat
}

/// The power of two that a finite double's significand is multiplied with.
pub open spec fn scale(bits: u64) -> int {
    if exponent_field(bits) == 0 {
        -1074
    } else {
        exponent_field(bits) - 1075
    }
}

/// A thousand times a finite double, rounded as doubles are, with its fraction
/// cut off; nothing below zero, and no more than 128 bits hold.
pub open spec fn thousandfold(bits: u64) -> nat {
    if bits >= 0x8000_0000_0000_0000 {
        0
    } else {
        let product = as_double(1000 * significand(bits));
        if scale(bits) >= 0 {
            let whole = product * pow2(scale(bits) as nat);
            if whole > u128::MAX {
                u128::MAX as nat
            } else {
                whole
            }
        } else {
            product / pow2((-scale(bits)) as nat)
        }
    }
}

/// `n * 2^k`, or the largest number there is.
fn doubled(n: u128, k: u64) -> (r: u128)
    ensures
        r == (if n * pow2(k as nat) > u128::MAX {
            u128::MAX as nat
        } else {
            n as nat * pow2(k as nat)
        }),
{
    let mut acc: u128 = n;
    let mut i: u64 = 0;
    proof {
        lemma2_to64();
        assert(n * 1 == n) by (nonlinear_arith);
    }
    while i < k
        invariant
            i <= k,
            acc == n * pow2(i as nat),
        decreases k - i,
    {
        proof {
            lemma_pow2_unfold((i + 1) as nat);
            assert(n * (2 * pow2(i as nat)) == 2 * (n * pow2(i as nat))) by (nonlinear_arith);
        }
        if acc > 0x7fff_ffff_ffff_ffff_ffff_ffff_ffff_ffff {
            proof {
                lemma_pow2_grows((i + 1) as nat, k as nat);
                let small = pow2((i + 1) as nat) as int;
                let large = pow2(k as nat) as int;
                assert(n * small <= n * large) by (nonlinear_arith)
                    requires
                        small <= large,
                        n >= 0,
                ;
            }
            return 0xffff_ffff_ffff_ffff_ffff_ffff_ffff_ffff;
        }
        acc = 2 * acc;
        i += 1;
    }
    acc
}

proof fn lemma_pow2_grows(a: nat, b: nat)
    requires
        a <= b,
    ensures
        pow2(a) <= pow2(b),
    decreases b,
{
    if a < b {
        lemma_pow2_grows(a, (b - 1) as nat);
        lemma_pow2_unfold(b);
    }
}

/// `n / 2^k`.
fn halved(n: u128, k: u64) -> (r: u128)
    ensures
        r == n as nat / pow2(k as nat),
{
    let mut acc: u128 = n;
    let mut i: u64 = 0;
    proof {
        lemma2_to64();
        assert(n as nat / 1 == n) by (nonlinear_arith);
    }
    while i < k
        invariant
            i <= k,
            acc == n as nat / pow2(i as nat),
        decreases k - i,
    {
        proof {
            lemma_pow2_unfold((i + 1) as nat);
            lemma_pow2_pos(i as nat);
            vstd::arithmetic::div_mod::lemma_div_denominator(
                n as int,
                pow2(i as nat) as int,
                2,
            );
            assert(pow2(i as nat) as int * 2 == pow2((i + 1) as nat) as int);
        }
        acc = acc / 2;
        i += 1;
    }
    acc
}

/// A thousand times a finite double given by its bits, with its fraction cut off:
/// seconds to whole milliseconds.
pub fn thousandfold_of(bits: u64) -> (r: u128)
    ensures
        r == thousandfold(bits),
{
    if bits >= 0x8000_0000_0000_0000 {
        return 0;
    }
    let fraction: u64 = bits % 0x10_0000_0000_0000;
    let exponent: u64 = (bits / 0x10_0000_0000_0000) % 0x800;
    let m: u128 = if exponent == 0 {
        fraction as u128
    } else {
        fraction as u128 + 0x10_0000_0000_0000
    };
    let product: u128 = double_of(1000 * m);
    if exponent >= 1075 {
        doubled(product, exponent - 1075)
    } else if exponent == 0 {
        halved(product, 1074)
    } else {
        halved(product, 1075 - exponent)
    }
}

/// A member is what the first field of its name holds, and is missing exactly if no
/// field has that name.
pub proof fn law_members_go_by_name(
    object: Seq<JsonFieldView>,
    field: JsonFieldView,
    key: Seq<char>,
)
    ensures
        member(Seq::empty(), key) is None,
        field.key == key ==> member(seq![field] + object, key) == Some(field.value),
        field.key != key ==> member(seq![field] + object, key) == member(object, key),
{
    let all = seq![field] + object;
    assert(all[0] == field);
    assert(all.drop_first() =~= object);
}

/// A member counts only as what it is: a text as a text, a number as a number.
pub proof fn law_members_are_of_their_kind(
    object: Seq<JsonFieldView>,
    key: Seq<char>,
    value: JsonValueView,
)
    requires
        member(object, key) == Some(value),
    ensures
        value is Text ==> text_member(object, key) == Some(value->Text_0) && text_or_empty(
            object,
            key,
        ) == value->Text_0,
        !(value is Text) ==> text_member(object, key) is None && text_or_empty(object, key).len()
            == 0,
        value is Number ==> unsigned_member(object, key) == value->unsigned && double_member(
            object,
            key,
        ) == value->double,
        !(value is Number) ==> unsigned_member(object, key) is None && double_member(object, key)
            is None && integer_member(object, key) is None,
        value is Bool ==> bool_member(object, key) == Some(value->Bool_0),
        !(value is Bool) ==> bool_member(object, key) is None,
        value is Null ==> optional_unsigned(object, key) == Some(None::<u64>) && optional_integer(
            object,
            key,
        ) == Some(None::<i128>),
        value is Number && value->unsigned is Some ==> optional_unsigned(object, key) == Some(
            value->unsigned,
        ) && integer_member(object, key) is Some && integer_member(object, key)->0
            == value->unsigned->0,
        value is Number && value->unsigned is None && value->signed is Some ==> integer_member(
            object,
            key,
        ) is Some && integer_member(object, key)->0 == value->signed->0,
        value is Number && value->unsigned is None && value->signed is None ==> integer_member(
            object,
            key,
        ) is None,
        !(value is Null) && unsigned_member(object, key) is None ==> optional_unsigned(object, key)
            is None,
        !(value is Null) ==> (integer_member(object, key) is None <==> optional_integer(object, key)
            is None),
        integer_member(object, key) is Some ==> optional_integer(object, key) == Some(
            integer_member(object, key),
        ),
{
}

/// A member that is missing is no text, no number and no truth, and may be left out.
pub proof fn law_missing_members_are_nothing(object: Seq<JsonFieldView>, key: Seq<char>)
    requires
        member(object, key) is None,
    ensures
        text_member(object, key) is None,
        text_or_empty(object, key).len() == 0,
        unsigned_member(object, key) is None,
        integer_member(object, key) is None,
        bool_member(object, key) is None,
        double_member(object, key) is None,
        optional_unsigned(object, key) == Some(None::<u64>),
        optional_integer(object, key) == Some(None::<i128>),
{
}

proof fn lemma_exact(m: nat, k: nat) -> (q: nat)
    requires
        m < 0x20_0000_0000_0000,
    ensures
        m * pow2(k) == q * pow2(excess_bits(m * pow2(k))),
    decreases k,
{
    let n = m * pow2(k);
    lemma2_to64();
    if n < 0x20_0000_0000_0000 {
        assert(pow2(0) == 1);
        assert(n * 1 == n);
        n
    } else {
        if k == 0 {
            assert(m * 1 == m);
        }
        lemma_pow2_unfold(k);
        let half = m * pow2((k - 1) as nat);
        assert(n == 2 * half) by (nonlinear_arith)
            requires
                n == m * pow2(k),
                half == m * pow2((k - 1) as nat),
                pow2(k) == 2 * pow2((k - 1) as nat),
        ;
        let q = lemma_exact(m, (k - 1) as nat);
        let less = excess_bits(half);
        assert(n / 2 == half);
        assert(excess_bits(n) == less + 1);
        lemma_pow2_unfold(less + 1);
        assert(2 * (q * pow2(less)) == q * pow2(less + 1)) by (nonlinear_arith)
            requires
                pow2(less + 1) == 2 * pow2(less),
        ;
        q
    }
}

/// A whole number of seconds is a thousand times as many milliseconds.
pub proof fn law_seconds_become_milliseconds(bits: u64, seconds: nat, k: nat)
    requires
        k <= 52,
        seconds < 0x800_0000_0000,
        bits < 0x8000_0000_0000_0000,
        (bits / 0x10_0000_0000_0000) % 2048 == 1075 - k,
        bits % 0x10_0000_0000_0000 + 0x10_0000_0000_0000 == seconds * pow2(k),
    ensures
        thousandfold(bits) == 1000 * seconds,
{
    let held = seconds * pow2(k);
    assert(significand(bits) == held);
    assert(scale(bits) == -k);
    let m = 1000 * seconds;
    let n = 1000 * held;
    assert(n == m * pow2(k)) by (nonlinear_arith)
        requires
            held == seconds * pow2(k),
            m == 1000 * seconds,
            n == 1000 * held,
    ;
    let q = lemma_exact(m, k);
    let unit = pow2(excess_bits(n));
    lemma_pow2_pos(excess_bits(n));
    assert(n / unit == q && n % unit == 0) by (nonlinear_arith)
        requires
            n == q * unit,
            unit > 0,
    ;
    assert(as_double(n) == n);
    lemma_pow2_pos(k);
    assert(n / pow2(k) == m) by (nonlinear_arith)
        requires
            n == m * pow2(k),
            pow2(k) > 0,
    ;
    if k == 0 {
        lemma2_to64();
        assert(n * 1 == n);
    }
}

/// A time before 1970 counts as none.
pub proof fn law_earlier_times_are_none(bits: u64)
    requires
        bits >= 0x8000_0000_0000_0000,
    ensures
        thousandfold(bits) == 0,
{
}

} // verus!
