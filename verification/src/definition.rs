//! Tokenizer definitions: which of them the tokenizer is made from.
//!
//! A definition is a JSON text that names the parts of a tokenizer: a normalizer, a
//! pre-tokenizer, a model, a post-processor and a decoder. The `tokenizers` crate panics on
//! some definitions, while it loads them or later, while it encodes a text. The ones that
//! are admitted here are made of parts that are set up so that this cannot happen. What is
//! left out are the parts that search by a regular expression of their own, which give up on
//! some texts with a panic, a normalizer that is stored in compiled form, and settings that
//! the crate does not hold out.

use crate::text::{chars_of, has_prefix, same_text, slices, string_of};
use serde_json::Value;
use vstd::prelude::*;
use vstd::utf8::encode_utf8;

verus! {

// ---------------------------------------------------------------------------
// JSON
// ---------------------------------------------------------------------------

/// A JSON value.
pub enum Json {
    Null,
    Bool(bool),
    /// The whole number that it is, if it is one that is not negative and fits.
    Number(Option<u64>),
    Text(Seq<char>),
    List(Seq<Json>),
    /// The members, each with its name.
    Object(Seq<(Seq<char>, Json)>),
}

/// The JSON value of the `serde_json` crate.
#[verifier::external_type_specification]
#[verifier::external_body]
pub struct ExValue(serde_json::Value);

/// What a JSON value holds.
pub uninterp spec fn json_of(value: serde_json::Value) -> Json;

/// The JSON value that a text denotes, if it denotes one.
pub uninterp spec fn json_text(text: Seq<u8>) -> Option<Json>;

/// A JSON value, opened.
pub enum JsonNode<'a> {
    Null,
    Bool(bool),
    Number(Option<u64>),
    Text(&'a str),
    List(&'a Vec<Value>),
    Object(Vec<(&'a str, &'a Value)>),
}

/// What the items of a list hold.
pub open spec fn json_list(items: Seq<Value>) -> Seq<Json> {
    Seq::new(items.len(), |i: int| json_of(items[i]))
}

/// What the members of an object hold.
pub open spec fn json_members(members: Seq<(&str, &Value)>) -> Seq<(Seq<char>, Json)> {
    Seq::new(members.len(), |i: int| (members[i].0@, json_of(*members[i].1)))
}

/// What an opened JSON value holds.
pub open spec fn node_json(node: JsonNode) -> Json {
    match node {
        JsonNode::Null => Json::Null,
        JsonNode::Bool(b) => Json::Bool(b),
        JsonNode::Number(n) => Json::Number(n),
        JsonNode::Text(t) => Json::Text(t@),
        JsonNode::List(items) => Json::List(json_list(items@)),
        JsonNode::Object(members) => Json::Object(json_members(members@)),
    }
}

/// `serde_json::from_slice` into a `serde_json::Value`: parses a JSON text. Whether that
/// succeeds, and what the value holds, depends on the bytes alone. Of members of one name in
/// one object only the last is kept. The text of the error is not stated.
#[verifier::external_body]
pub(crate) fn parse_json(text: &[u8]) -> (r: Result<Value, String>)
    ensures
        match r {
            Ok(v) => json_text(text@) == Some(json_of(v)),
            Err(_) => json_text(text@) is None,
        },
{
    serde_json::from_slice::<Value>(text).map_err(|e| e.to_string())
}

/// The variants of `serde_json::Value`, one for one, a number by `serde_json::Number::as_u64`
/// and the members of an object by `serde_json::Map::iter`: gives what the value holds.
#[verifier::external_body]
fn open_json<'a>(value: &'a Value) -> (r: JsonNode<'a>)
    ensures
        node_json(r) == json_of(*value),
{
    match value {
        Value::Null => JsonNode::Null,
        Value::Bool(b) => JsonNode::Bool(*b),
        Value::Number(n) => JsonNode::Number(n.as_u64()),
        Value::String(t) => JsonNode::Text(t.as_str()),
        Value::Array(items) => JsonNode::List(items),
        Value::Object(m) => JsonNode::Object(m.iter().map(|(k, v)| (k.as_str(), v)).collect()),
    }
}

/// The member with this name.
pub open spec fn member(members: Seq<(Seq<char>, Json)>, name: Seq<char>) -> Option<Json>
    decreases members.len(),
{
    if members.len() == 0 {
        None
    } else if members[0].0 == name {
        Some(members[0].1)
    } else {
        member(members.skip(1), name)
    }
}

/// What a JSON value holds, if there is one.
pub open spec fn json_option(value: Option<&Value>) -> Option<Json> {
    match value {
        Some(v) => Some(json_of(*v)),
        None => None,
    }
}

/// The member with this name.
fn find_member<'a>(members: &Vec<(&'a str, &'a Value)>, name: &str) -> (r: Option<&'a Value>)
    ensures
        json_option(r) == member(json_members(members@), name@),
{
    let ghost all = json_members(members@);
    let mut i: usize = 0;
    assert(all.skip(0) =~= all);
    while i < members.len()
        invariant
            i <= members@.len(),
            all == json_members(members@),
            member(all, name@) == member(all.skip(i as int), name@),
        decreases members@.len() - i,
    {
        assert(all.skip(i as int)[0] == all[i as int]);
        assert(all.skip(i as int).skip(1) =~= all.skip(i + 1));
        if same_text(members[i].0, name) {
            return Some(members[i].1);
        }
        i = i + 1;
    }
    None
}

/// The member with this name, if the value is an object.
pub open spec fn field(value: Json, name: Seq<char>) -> Option<Json> {
    match value {
        Json::Object(members) => member(members, name),
        _ => None,
    }
}

/// The member with this name, if the value is an object.
fn find_field<'a>(value: &'a Value, name: &str) -> (r: Option<&'a Value>)
    ensures
        json_option(r) == field(json_of(*value), name@),
{
    match open_json(value) {
        JsonNode::Object(members) => find_member(&members, name),
        _ => None,
    }
}

/// Is the value left out, or null?
pub open spec fn is_absent(value: Option<Json>) -> bool {
    match value {
        None => true,
        Some(v) => v is Null,
    }
}

/// Is the value left out, or null?
fn absent(value: Option<&Value>) -> (r: bool)
    ensures
        r == is_absent(json_option(value)),
{
    match value {
        None => true,
        Some(v) => match open_json(v) {
            JsonNode::Null => true,
            _ => false,
        },
    }
}

/// Is the value this text?
pub open spec fn is_text(value: Option<Json>, text: Seq<char>) -> bool {
    value == Some(Json::Text(text))
}

/// Is the value this text?
fn holds_text(value: Option<&Value>, text: &str) -> (r: bool)
    ensures
        r == is_text(json_option(value), text@),
{
    match value {
        None => false,
        Some(v) => match open_json(v) {
            JsonNode::Text(t) => same_text(t, text),
            _ => false,
        },
    }
}

/// Is the value true or false?
pub open spec fn is_flag(value: Option<Json>) -> bool {
    value matches Some(v) && v is Bool
}

/// Is the value true or false?
fn flag(value: Option<&Value>) -> (r: bool)
    ensures
        r == is_flag(json_option(value)),
{
    match value {
        None => false,
        Some(v) => match open_json(v) {
            JsonNode::Bool(_) => true,
            _ => false,
        },
    }
}

/// Is the value true?
pub open spec fn is_set(value: Option<Json>) -> bool {
    value == Some(Json::Bool(true))
}

/// Is the value true?
fn set_flag(value: Option<&Value>) -> (r: bool)
    ensures
        r == is_set(json_option(value)),
{
    match value {
        None => false,
        Some(v) => match open_json(v) {
            JsonNode::Bool(b) => b,
            _ => false,
        },
    }
}

/// Is the value false?
pub open spec fn is_clear(value: Option<Json>) -> bool {
    value == Some(Json::Bool(false))
}

/// Is the value false?
fn clear_flag(value: Option<&Value>) -> (r: bool)
    ensures
        r == is_clear(json_option(value)),
{
    match value {
        None => false,
        Some(v) => match open_json(v) {
            JsonNode::Bool(b) => !b,
            _ => false,
        },
    }
}

/// Is the value one of these texts?
pub open spec fn one_of(value: Option<Json>, names: Seq<Seq<char>>) -> bool {
    exists|i: int| 0 <= i < names.len() && is_text(value, #[trigger] names[i])
}

/// Is the value one of these texts?
fn holds_one_of(value: Option<&Value>, names: &Vec<&'static str>) -> (r: bool)
    ensures
        r == one_of(json_option(value), slices(names@)),
{
    let ghost all = slices(names@);
    let mut i: usize = 0;
    while i < names.len()
        invariant
            i <= names@.len(),
            all == slices(names@),
            forall|k: int| 0 <= k < i ==> !is_text(json_option(value), #[trigger] all[k]),
        decreases names@.len() - i,
    {
        assert(all[i as int] == names@[i as int]@);
        if holds_text(value, names[i]) {
            return true;
        }
        i = i + 1;
    }
    false
}

/// Does every item meet the condition?
pub open spec fn all_items(items: Seq<Json>, pred: spec_fn(Json) -> bool) -> bool {
    forall|i: int| 0 <= i < items.len() ==> pred(#[trigger] items[i])
}

/// Does every item meet the condition that `check` tests?
fn check_items<F: Fn(&Value) -> bool>(
    items: &Vec<Value>,
    check: F,
    Ghost(pred): Ghost<spec_fn(Json) -> bool>,
) -> (r: bool)
    requires
        forall|v: &Value| #[trigger] call_requires(check, (v,)),
        forall|v: &Value, b: bool| #[trigger]
            call_ensures(check, (v,), b) ==> b == pred(json_of(*v)),
    ensures
        r == all_items(json_list(items@), pred),
{
    let ghost all = json_list(items@);
    let mut i: usize = 0;
    while i < items.len()
        invariant
            i <= items@.len(),
            all == json_list(items@),
            forall|v: &Value| #[trigger] call_requires(check, (v,)),
            forall|v: &Value, b: bool| #[trigger]
                call_ensures(check, (v,), b) ==> b == pred(json_of(*v)),
            forall|k: int| 0 <= k < i ==> pred(#[trigger] all[k]),
        decreases items@.len() - i,
    {
        assert(all[i as int] == json_of(items@[i as int]));
        if !check(&items[i]) {
            assert(!pred(all[i as int]));
            return false;
        }
        i = i + 1;
    }
    true
}

/// Is the value a list, every item of which meets the condition?
pub open spec fn list_of(value: Option<Json>, pred: spec_fn(Json) -> bool) -> bool {
    match value {
        Some(Json::List(items)) => all_items(items, pred),
        _ => false,
    }
}

/// Is the value a list, every item of which meets the condition that `check` tests?
fn check_list<F: Fn(&Value) -> bool>(
    value: Option<&Value>,
    check: F,
    Ghost(pred): Ghost<spec_fn(Json) -> bool>,
) -> (r: bool)
    requires
        forall|v: &Value| #[trigger] call_requires(check, (v,)),
        forall|v: &Value, b: bool| #[trigger]
            call_ensures(check, (v,), b) ==> b == pred(json_of(*v)),
    ensures
        r == list_of(json_option(value), pred),
{
    match value {
        None => false,
        Some(v) => match open_json(v) {
            JsonNode::List(items) => check_items(items, check, Ghost(pred)),
            _ => false,
        },
    }
}

/// Is there at most one item that meets the condition?
pub open spec fn at_most_one(items: Seq<Json>, pred: spec_fn(Json) -> bool) -> bool {
    forall|i: int, j: int|
        0 <= i < j < items.len() ==> !(pred(#[trigger] items[i]) && pred(#[trigger] items[j]))
}

/// Is there at most one item that meets the condition that `check` tests?
fn check_at_most_one<F: Fn(&Value) -> bool>(
    items: &Vec<Value>,
    check: F,
    Ghost(pred): Ghost<spec_fn(Json) -> bool>,
) -> (r: bool)
    requires
        forall|v: &Value| #[trigger] call_requires(check, (v,)),
        forall|v: &Value, b: bool| #[trigger]
            call_ensures(check, (v,), b) ==> b == pred(json_of(*v)),
    ensures
        r == at_most_one(json_list(items@), pred),
{
    let ghost all = json_list(items@);
    let mut seen: bool = false;
    let ghost mut at: int = 0;
    let mut i: usize = 0;
    while i < items.len()
        invariant
            i <= items@.len(),
            all == json_list(items@),
            forall|v: &Value| #[trigger] call_requires(check, (v,)),
            forall|v: &Value, b: bool| #[trigger]
                call_ensures(check, (v,), b) ==> b == pred(json_of(*v)),
            forall|k: int, l: int|
                0 <= k < l < i ==> !(pred(#[trigger] all[k]) && pred(#[trigger] all[l])),
            seen ==> 0 <= at < i && pred(all[at]),
            !seen ==> forall|k: int| 0 <= k < i ==> !pred(#[trigger] all[k]),
        decreases items@.len() - i,
    {
        assert(all[i as int] == json_of(items@[i as int]));
        if check(&items[i]) {
            if seen {
                assert(pred(all[at]) && pred(all[i as int]));
                return false;
            }
            seen = true;
            proof {
                at = i as int;
            }
        }
        i = i + 1;
    }
    true
}

// ---------------------------------------------------------------------------
// Normalizers
// ---------------------------------------------------------------------------

/// The normalizers that are admitted whatever their settings are.
pub open spec fn simple_normalizers() -> Seq<Seq<char>> {
    seq![
        "Lowercase"@,
        "StripAccents"@,
        "Strip"@,
        "NFC"@,
        "NFD"@,
        "NFKC"@,
        "NFKD"@,
        "Nmt"@,
        "ByteLevel"@,
        "Bert"@,
    ]
}

/// Is this a single normalizer that is admitted? One that puts a text before the others has
/// a text to put there; and the one of BERT has all its settings, so that it is not taken for
/// another one.
pub open spec fn single_normalizer(j: Json) -> bool {
    let kind = field(j, "type"@);
    ||| one_of(kind, simple_normalizers())
    ||| {
        &&& is_text(kind, "Prepend"@)
        &&& field(j, "prepend"@) matches Some(Json::Text(t)) && t.len() > 0
    }
    ||| {
        &&& is_text(kind, "BertNormalizer"@)
        &&& is_flag(field(j, "clean_text"@))
        &&& is_flag(field(j, "handle_chinese_chars"@))
        &&& is_flag(field(j, "lowercase"@))
        &&& is_absent(field(j, "strip_accents"@)) || is_flag(field(j, "strip_accents"@))
    }
}

/// Computes [`single_normalizer`].
fn check_single_normalizer(v: &Value) -> (r: bool)
    ensures
        r == single_normalizer(json_of(*v)),
{
    let kind: Option<&Value> = find_field(v, "type");
    let names: Vec<&'static str> = vec![
        "Lowercase",
        "StripAccents",
        "Strip",
        "NFC",
        "NFD",
        "NFKC",
        "NFKD",
        "Nmt",
        "ByteLevel",
        "Bert",
    ];
    assert(slices(names@) =~= simple_normalizers());
    let accents: Option<&Value> = find_field(v, "strip_accents");
    holds_one_of(kind, &names) || (holds_text(kind, "Prepend") && some_text(
        find_field(v, "prepend"),
    )) || (holds_text(kind, "BertNormalizer") && flag(find_field(v, "clean_text")) && flag(
        find_field(v, "handle_chinese_chars"),
    ) && flag(find_field(v, "lowercase")) && (absent(accents) || flag(accents)))
}

/// Is the value a text that is not empty?
fn some_text(value: Option<&Value>) -> (r: bool)
    ensures
        r == (json_option(value) matches Some(Json::Text(t)) && t.len() > 0),
{
    match value {
        None => false,
        Some(v) => match open_json(v) {
            JsonNode::Text(t) => !t.is_empty(),
            _ => false,
        },
    }
}

/// Is this a normalizer that is admitted? There may be none, a single one, or several in
/// sequence.
pub open spec fn sound_normalizer(part: Option<Json>) -> bool {
    match part {
        None => true,
        Some(j) => {
            ||| j is Null
            ||| single_normalizer(j)
            ||| is_text(field(j, "type"@), "Sequence"@) && list_of(
                field(j, "normalizers"@),
                |n: Json| single_normalizer(n),
            )
        },
    }
}

/// Computes [`sound_normalizer`].
fn check_normalizer(part: Option<&Value>) -> (r: bool)
    ensures
        r == sound_normalizer(json_option(part)),
{
    match part {
        None => true,
        Some(v) => absent(Some(v)) || check_single_normalizer(v) || (holds_text(
            find_field(v, "type"),
            "Sequence",
        ) && check_list(
            find_field(v, "normalizers"),
            check_single_normalizer,
            Ghost(|n: Json| single_normalizer(n)),
        )),
    }
}

/// The normalizers that leave something of every text.
pub open spec fn keeping_normalizers() -> Seq<Seq<char>> {
    seq!["Lowercase"@, "NFC"@, "NFD"@, "NFKC"@, "NFKD"@, "ByteLevel"@, "Prepend"@]
}

/// Does this single normalizer leave something of every text?
pub open spec fn keeps_some(j: Json) -> bool {
    one_of(field(j, "type"@), keeping_normalizers())
}

/// Computes [`keeps_some`].
fn check_keeps_some(v: &Value) -> (r: bool)
    ensures
        r == keeps_some(json_of(*v)),
{
    let names: Vec<&'static str> = vec![
        "Lowercase",
        "NFC",
        "NFD",
        "NFKC",
        "NFKD",
        "ByteLevel",
        "Prepend",
    ];
    assert(slices(names@) =~= keeping_normalizers());
    holds_one_of(find_field(v, "type"), &names)
}

/// Does the normalizer leave something of every text?
pub open spec fn leaves_some(part: Option<Json>) -> bool {
    match part {
        None => true,
        Some(j) => {
            ||| j is Null
            ||| keeps_some(j)
            ||| is_text(field(j, "type"@), "Sequence"@) && list_of(
                field(j, "normalizers"@),
                |n: Json| keeps_some(n),
            )
        },
    }
}

/// Computes [`leaves_some`].
fn check_leaves_some(part: Option<&Value>) -> (r: bool)
    ensures
        r == leaves_some(json_option(part)),
{
    match part {
        None => true,
        Some(v) => absent(Some(v)) || check_keeps_some(v) || (holds_text(
            find_field(v, "type"),
            "Sequence",
        ) && check_list(
            find_field(v, "normalizers"),
            check_keeps_some,
            Ghost(|n: Json| keeps_some(n)),
        )),
    }
}

// ---------------------------------------------------------------------------
// Pre-tokenizers and decoders
// ---------------------------------------------------------------------------

/// The pre-tokenizers that are admitted whatever their settings are.
pub open spec fn simple_pre_tokenizers() -> Seq<Seq<char>> {
    seq![
        "BertPreTokenizer"@,
        "Whitespace"@,
        "WhitespaceSplit"@,
        "Metaspace"@,
        "Punctuation"@,
        "Digits"@,
        "CharDelimiterSplit"@,
        "UnicodeScripts"@,
    ]
}

/// Is this a single pre-tokenizer that is admitted? The one that goes by bytes does not
/// search by regular expression, and the one that cuts at a fixed length has a length.
pub open spec fn single_pre_tokenizer(j: Json) -> bool {
    let kind = field(j, "type"@);
    ||| one_of(kind, simple_pre_tokenizers())
    ||| is_text(kind, "ByteLevel"@) && is_clear(field(j, "use_regex"@))
    ||| is_text(kind, "FixedLength"@) && field(j, "length"@) != Some(Json::Number(Some(0)))
}

/// Computes [`single_pre_tokenizer`].
fn check_single_pre_tokenizer(v: &Value) -> (r: bool)
    ensures
        r == single_pre_tokenizer(json_of(*v)),
{
    let kind: Option<&Value> = find_field(v, "type");
    let names: Vec<&'static str> = vec![
        "BertPreTokenizer",
        "Whitespace",
        "WhitespaceSplit",
        "Metaspace",
        "Punctuation",
        "Digits",
        "CharDelimiterSplit",
        "UnicodeScripts",
    ];
    assert(slices(names@) =~= simple_pre_tokenizers());
    holds_one_of(kind, &names) || (holds_text(kind, "ByteLevel") && clear_flag(
        find_field(v, "use_regex"),
    )) || (holds_text(kind, "FixedLength") && !is_zero(find_field(v, "length")))
}

/// Is the value the number zero?
fn is_zero(value: Option<&Value>) -> (r: bool)
    ensures
        r == (json_option(value) == Some(Json::Number(Some(0)))),
{
    match value {
        None => false,
        Some(v) => match open_json(v) {
            JsonNode::Number(Some(n)) => n == 0,
            _ => false,
        },
    }
}

/// Does this single pre-tokenizer go by bytes?
pub open spec fn by_bytes(j: Json) -> bool {
    is_text(field(j, "type"@), "ByteLevel"@)
}

/// Does this single pre-tokenizer search by regular expression?
pub open spec fn searches(j: Json) -> bool {
    by_bytes(j) && !is_clear(field(j, "use_regex"@))
}

/// Computes [`searches`].
fn check_searches(v: &Value) -> (r: bool)
    ensures
        r == searches(json_of(*v)),
{
    holds_text(find_field(v, "type"), "ByteLevel") && !clear_flag(find_field(v, "use_regex"))
}

/// Can this single pre-tokenizer make a text longer?
pub open spec fn lengthens(j: Json) -> bool {
    by_bytes(j) || is_text(field(j, "type"@), "Metaspace"@)
}

/// Computes [`lengthens`].
fn check_lengthens(v: &Value) -> (r: bool)
    ensures
        r == lengthens(json_of(*v)),
{
    let kind: Option<&Value> = find_field(v, "type");
    holds_text(kind, "ByteLevel") || holds_text(kind, "Metaspace")
}

/// Are these pre-tokenizers that are admitted in sequence? One that goes by bytes may search
/// by its regular expression if it gets pieces of the text as they are: if the text is `plain`,
/// and no other pre-tokenizer makes it longer.
pub open spec fn sound_sequence(items: Seq<Json>, plain: bool) -> bool {
    ||| all_items(items, |n: Json| single_pre_tokenizer(n))
    ||| {
        &&& plain
        &&& all_items(items, |n: Json| single_pre_tokenizer(n) || by_bytes(n))
        &&& at_most_one(items, |n: Json| lengthens(n))
    }
}

/// Computes [`sound_sequence`].
fn check_sequence(items: &Vec<Value>, plain: bool) -> (r: bool)
    ensures
        r == sound_sequence(json_list(items@), plain),
{
    let check = |n: &Value| -> (b: bool)
        ensures
            b == (single_pre_tokenizer(json_of(*n)) || by_bytes(json_of(*n))),
        { check_single_pre_tokenizer(n) || holds_text(find_field(n, "type"), "ByteLevel") };
    check_items(
        items,
        check_single_pre_tokenizer,
        Ghost(|n: Json| single_pre_tokenizer(n)),
    ) || (plain && check_items(
        items,
        check,
        Ghost(|n: Json| single_pre_tokenizer(n) || by_bytes(n)),
    ) && check_at_most_one(items, check_lengthens, Ghost(|n: Json| lengthens(n))))
}

/// Is this a pre-tokenizer that is admitted? There may be none, a single one, or several in
/// sequence. One that goes by bytes may search by its regular expression if the text is
/// `plain`: if it gets the text as it is.
pub open spec fn sound_pre_tokenizer(part: Option<Json>, plain: bool) -> bool {
    match part {
        None => true,
        Some(j) => {
            ||| j is Null
            ||| single_pre_tokenizer(j)
            ||| plain && by_bytes(j)
            ||| is_text(field(j, "type"@), "Sequence"@) && match field(j, "pretokenizers"@) {
                Some(Json::List(items)) => sound_sequence(items, plain),
                _ => false,
            }
        },
    }
}

/// Computes [`sound_pre_tokenizer`].
fn check_pre_tokenizer(part: Option<&Value>, plain: bool) -> (r: bool)
    ensures
        r == sound_pre_tokenizer(json_option(part), plain),
{
    match part {
        None => true,
        Some(v) => {
            let kind: Option<&Value> = find_field(v, "type");
            absent(Some(v)) || check_single_pre_tokenizer(v) || (plain && holds_text(
                kind,
                "ByteLevel",
            )) || (holds_text(kind, "Sequence") && match find_field(v, "pretokenizers") {
                Some(list) => match open_json(list) {
                    JsonNode::List(items) => check_sequence(items, plain),
                    _ => false,
                },
                None => false,
            })
        },
    }
}

/// Does the pre-tokenizer, or one of several in sequence, search by regular expression?
pub open spec fn searching(part: Option<Json>) -> bool {
    match part {
        None => false,
        Some(j) => searches(j) || match field(j, "pretokenizers"@) {
            Some(Json::List(items)) => !all_items(items, |n: Json| !searches(n)),
            _ => false,
        },
    }
}

/// Computes [`searching`].
fn check_searching(part: Option<&Value>) -> (r: bool)
    ensures
        r == searching(json_option(part)),
{
    let check = |n: &Value| -> (b: bool)
        ensures
            b == !searches(json_of(*n)),
        { !check_searches(n) };
    match part {
        None => false,
        Some(v) => check_searches(v) || match find_field(v, "pretokenizers") {
            Some(list) => match open_json(list) {
                JsonNode::List(items) => !check_items(
                    items,
                    check,
                    Ghost(|n: Json| !searches(n)),
                ),
                _ => false,
            },
            None => false,
        },
    }
}

/// The decoders that are admitted whatever their settings are.
pub open spec fn simple_decoders() -> Seq<Seq<char>> {
    seq![
        "BPEDecoder"@,
        "ByteLevel"@,
        "WordPiece"@,
        "Metaspace"@,
        "CTC"@,
        "Fuse"@,
        "Strip"@,
        "ByteFallback"@,
    ]
}

/// Is this a single decoder that is admitted? One that replaces text looks for a text as it
/// stands.
pub open spec fn single_decoder(j: Json) -> bool {
    let kind = field(j, "type"@);
    ||| one_of(kind, simple_decoders())
    ||| {
        &&& is_text(kind, "Replace"@)
        &&& field(j, "pattern"@) matches Some(p) && field(p, "String"@) matches Some(
            Json::Text(_),
        )
    }
}

/// Computes [`single_decoder`].
fn check_single_decoder(v: &Value) -> (r: bool)
    ensures
        r == single_decoder(json_of(*v)),
{
    let kind: Option<&Value> = find_field(v, "type");
    let names: Vec<&'static str> = vec![
        "BPEDecoder",
        "ByteLevel",
        "WordPiece",
        "Metaspace",
        "CTC",
        "Fuse",
        "Strip",
        "ByteFallback",
    ];
    assert(slices(names@) =~= simple_decoders());
    holds_one_of(kind, &names) || (holds_text(kind, "Replace") && match find_field(v, "pattern") {
        Some(p) => match find_field(p, "String") {
            Some(t) => match open_json(t) {
                JsonNode::Text(_) => true,
                _ => false,
            },
            None => false,
        },
        None => false,
    })
}

/// Is this a decoder that is admitted? There may be none, a single one, or several in
/// sequence.
pub open spec fn sound_decoder(part: Option<Json>) -> bool {
    match part {
        None => true,
        Some(j) => {
            ||| j is Null
            ||| single_decoder(j)
            ||| is_text(field(j, "type"@), "Sequence"@) && list_of(
                field(j, "decoders"@),
                |n: Json| single_decoder(n),
            )
        },
    }
}

/// Computes [`sound_decoder`].
fn check_decoder(part: Option<&Value>) -> (r: bool)
    ensures
        r == sound_decoder(json_option(part)),
{
    match part {
        None => true,
        Some(v) => absent(Some(v)) || check_single_decoder(v) || (holds_text(
            find_field(v, "type"),
            "Sequence",
        ) && check_list(
            find_field(v, "decoders"),
            check_single_decoder,
            Ghost(|n: Json| single_decoder(n)),
        )),
    }
}

// ---------------------------------------------------------------------------
// Added tokens
// ---------------------------------------------------------------------------

/// Is the flag of this name set in none of the tokens?
pub open spec fn none_set(tokens: Seq<Json>, name: Seq<char>) -> bool {
    all_items(tokens, |t: Json| !is_set(field(t, name)))
}

/// Computes [`none_set`].
fn check_none_set(tokens: &Vec<Value>, name: &str) -> (r: bool)
    ensures
        r == none_set(json_list(tokens@), name@),
{
    let check = |t: &Value| -> (b: bool)
        ensures
            b == !is_set(field(json_of(*t), name@)),
        { !set_flag(find_field(t, name)) };
    check_items(tokens, check, Ghost(|t: Json| !is_set(field(t, name@))))
}

/// Is the value an object?
fn is_object(v: &Value) -> (r: bool)
    ensures
        r == (json_of(*v) is Object),
{
    match open_json(v) {
        JsonNode::Object(_) => true,
        _ => false,
    }
}

/// Is this a list of added tokens that is admitted? There may be none. Tokens that swallow
/// the blanks before them and tokens that swallow the blanks behind them do not go together;
/// and tokens are matched against normalized text only if the normalizer leaves something
/// of them.
pub open spec fn sound_added_tokens(part: Option<Json>, kept: bool) -> bool {
    match part {
        None => true,
        Some(Json::List(tokens)) => {
            &&& all_items(tokens, |t: Json| t is Object)
            &&& none_set(tokens, "lstrip"@) || none_set(tokens, "rstrip"@)
            &&& kept || none_set(tokens, "normalized"@)
        },
        Some(_) => false,
    }
}

/// Computes [`sound_added_tokens`].
fn check_added_tokens(part: Option<&Value>, kept: bool) -> (r: bool)
    ensures
        r == sound_added_tokens(json_option(part), kept),
{
    match part {
        None => true,
        Some(v) => match open_json(v) {
            JsonNode::List(tokens) => check_items(
                tokens,
                is_object,
                Ghost(|t: Json| t is Object),
            ) && (check_none_set(tokens, "lstrip") || check_none_set(tokens, "rstrip")) && (kept
                || check_none_set(tokens, "normalized")),
            _ => false,
        },
    }
}

/// Is no added token matched against normalized text?
pub open spec fn none_normalized(part: Option<Json>) -> bool {
    match part {
        Some(Json::List(tokens)) => none_set(tokens, "normalized"@),
        _ => true,
    }
}

/// Computes [`none_normalized`].
fn check_none_normalized(part: Option<&Value>) -> (r: bool)
    ensures
        r == none_normalized(json_option(part)),
{
    match part {
        None => true,
        Some(v) => match open_json(v) {
            JsonNode::List(tokens) => check_none_set(tokens, "normalized"),
            _ => true,
        },
    }
}

// ---------------------------------------------------------------------------
// Models
// ---------------------------------------------------------------------------

/// The most bytes that a token of a unigram model may have. The tree that holds them is taken
/// down by recursion, one level for each byte.
pub const MAX_PIECE_BYTES: usize = 1024;

/// The number of bytes of the longest name.
pub open spec fn longest_name(members: Seq<(Seq<char>, Json)>) -> nat
    decreases members.len(),
{
    if members.len() == 0 {
        0
    } else {
        let before = longest_name(members.drop_last());
        let own = encode_utf8(members.last().0).len();
        if before < own {
            own
        } else {
            before
        }
    }
}

/// The number of bytes of the longest token of a vocabulary.
pub open spec fn longest_token(vocab: Option<Json>) -> nat {
    match vocab {
        Some(Json::Object(members)) => longest_name(members),
        _ => 0,
    }
}

/// Computes [`longest_token`].
fn find_longest(vocab: Option<&Value>) -> (r: usize)
    ensures
        r == longest_token(json_option(vocab)),
{
    match vocab {
        None => 0,
        Some(v) => match open_json(v) {
            JsonNode::Object(members) => {
                let ghost all = json_members(members@);
                let mut most: usize = 0;
                let mut i: usize = 0;
                assert(longest_name(all.take(0)) == 0);
                while i < members.len()
                    invariant
                        i <= members@.len(),
                        all == json_members(members@),
                        most == longest_name(all.take(i as int)),
                    decreases members@.len() - i,
                {
                    assert(all.take(i + 1).drop_last() =~= all.take(i as int));
                    let own: usize = members[i].0.as_bytes().len();
                    if most < own {
                        most = own;
                    }
                    i = i + 1;
                }
                assert(all.take(i as int) =~= all);
                most
            },
            _ => 0,
        },
    }
}

/// Can two tokens be merged? The second starts with the prefix that tokens within words have,
/// and the outcome, without that prefix, is not longer than the longest token.
pub open spec fn mergeable(
    a: Seq<char>,
    b: Seq<char>,
    prefix: Seq<char>,
    longest: nat,
) -> bool {
    &&& prefix.is_prefix_of(b)
    &&& encode_utf8(a).len() + encode_utf8(b).len() <= longest + encode_utf8(prefix).len()
}

/// Computes [`mergeable`].
fn check_mergeable(a: &str, b: &str, prefix: &str, longest: usize) -> (r: bool)
    ensures
        r == mergeable(a@, b@, prefix@, longest as nat),
{
    if !has_prefix(b, prefix) {
        return false;
    }
    let left: u128 = a.as_bytes().len() as u128;
    let right: u128 = b.as_bytes().len() as u128;
    left + right <= longest as u128 + prefix.as_bytes().len() as u128
}

/// Is this a merge of two tokens that can be merged? The two tokens stand in a list, or in
/// one text with a blank between them. A text may also tell a version.
pub open spec fn sound_merge(merge: Json, prefix: Seq<char>, longest: nat) -> bool {
    match merge {
        Json::List(pair) => {
            &&& pair.len() == 2
            &&& pair[0] matches Json::Text(a) && pair[1] matches Json::Text(b) && mergeable(
                a,
                b,
                prefix,
                longest,
            )
        },
        Json::Text(line) => "#version"@.is_prefix_of(line) || sound_merge_line(
            line,
            prefix,
            longest,
        ),
        _ => false,
    }
}

/// Can the tokens before and behind each blank of a text be merged?
pub open spec fn sound_merge_line(line: Seq<char>, prefix: Seq<char>, longest: nat) -> bool {
    forall|k: int|
        0 <= k < line.len() && #[trigger] line[k] == ' ' ==> mergeable(
            line.take(k),
            line.skip(k + 1),
            prefix,
            longest,
        )
}

/// Computes [`sound_merge_line`].
fn check_merge_line(line: &str, prefix: &str, longest: usize) -> (r: bool)
    ensures
        r == sound_merge_line(line@, prefix@, longest as nat),
{
    let cs: Vec<char> = chars_of(line);
    let mut i: usize = 0;
    while i < cs.len()
        invariant
            i <= cs@.len(),
            cs@ == line@,
            forall|k: int|
                0 <= k < i && #[trigger] line@[k] == ' ' ==> mergeable(
                    line@.take(k),
                    line@.skip(k + 1),
                    prefix@,
                    longest as nat,
                ),
        decreases cs@.len() - i,
    {
        if cs[i] == ' ' {
            let a: String = string_of(&cs, 0, i);
            let b: String = string_of(&cs, i + 1, cs.len());
            assert(a@ =~= line@.take(i as int));
            assert(b@ =~= line@.skip(i + 1));
            if !check_mergeable(a.as_str(), b.as_str(), prefix, longest) {
                assert(line@[i as int] == ' ');
                return false;
            }
        }
        i = i + 1;
    }
    true
}

/// Computes [`sound_merge`].
fn check_merge(merge: &Value, prefix: &str, longest: usize) -> (r: bool)
    ensures
        r == sound_merge(json_of(*merge), prefix@, longest as nat),
{
    match open_json(merge) {
        JsonNode::List(pair) => {
            let ghost all = json_list(pair@);
            if pair.len() != 2 {
                return false;
            }
            assert(all[0] == json_of(pair@[0]) && all[1] == json_of(pair@[1]));
            match (open_json(&pair[0]), open_json(&pair[1])) {
                (JsonNode::Text(a), JsonNode::Text(b)) => check_mergeable(a, b, prefix, longest),
                _ => false,
            }
        },
        JsonNode::Text(line) => has_prefix(line, "#version") || check_merge_line(
            line,
            prefix,
            longest,
        ),
        _ => false,
    }
}

/// The prefix that tokens within words have.
pub open spec fn word_prefix(model: Json) -> Seq<char> {
    match field(model, "continuing_subword_prefix"@) {
        Some(Json::Text(t)) => t,
        _ => ""@,
    }
}

/// Computes [`word_prefix`].
fn find_word_prefix<'a>(model: &'a Value) -> (r: &'a str)
    ensures
        r@ == word_prefix(json_of(*model)),
{
    match find_field(model, "continuing_subword_prefix") {
        Some(v) => match open_json(v) {
            JsonNode::Text(t) => t,
            _ => "",
        },
        None => "",
    }
}

/// Are all merges of the model such that its tokens can be merged?
pub open spec fn sound_merges(model: Json) -> bool {
    match field(model, "merges"@) {
        Some(Json::List(all)) => all_items(
            all,
            |m: Json| sound_merge(m, word_prefix(model), longest_token(field(model, "vocab"@))),
        ),
        _ => true,
    }
}

/// Computes [`sound_merges`].
fn check_merges(model: &Value) -> (r: bool)
    ensures
        r == sound_merges(json_of(*model)),
{
    let prefix: &str = find_word_prefix(model);
    let longest: usize = find_longest(find_field(model, "vocab"));
    let check = |m: &Value| -> (b: bool)
        ensures
            b == sound_merge(json_of(*m), prefix@, longest as nat),
        { check_merge(m, prefix, longest) };
    match find_field(model, "merges") {
        Some(v) => match open_json(v) {
            JsonNode::List(items) => check_items(
                items,
                check,
                Ghost(
                    |m: Json|
                        sound_merge(
                            m,
                            word_prefix(json_of(*model)),
                            longest_token(field(json_of(*model), "vocab"@)),
                        ),
                ),
            ),
            _ => true,
        },
        None => true,
    }
}

/// Is this not a token with a score that has too many bytes?
pub open spec fn sound_piece(piece: Json) -> bool {
    match piece {
        Json::List(pair) => pair.len() == 0 || match pair[0] {
            Json::Text(t) => encode_utf8(t).len() <= MAX_PIECE_BYTES,
            _ => true,
        },
        _ => true,
    }
}

/// Computes [`sound_piece`].
fn check_piece(piece: &Value) -> (r: bool)
    ensures
        r == sound_piece(json_of(*piece)),
{
    match open_json(piece) {
        JsonNode::List(pair) => {
            if pair.len() == 0 {
                return true;
            }
            assert(json_list(pair@)[0] == json_of(pair@[0]));
            match open_json(&pair[0]) {
                JsonNode::Text(t) => t.as_bytes().len() <= MAX_PIECE_BYTES,
                _ => true,
            }
        },
        _ => true,
    }
}

/// Has no token of the model that stands in a list with its score too many bytes?
pub open spec fn sound_pieces(model: Json) -> bool {
    match field(model, "vocab"@) {
        Some(Json::List(pieces)) => all_items(pieces, |p: Json| sound_piece(p)),
        _ => true,
    }
}

/// Computes [`sound_pieces`].
fn check_pieces(model: &Value) -> (r: bool)
    ensures
        r == sound_pieces(json_of(*model)),
{
    match find_field(model, "vocab") {
        Some(v) => match open_json(v) {
            JsonNode::List(pieces) => check_items(
                pieces,
                check_piece,
                Ghost(|p: Json| sound_piece(p)),
            ),
            _ => true,
        },
        None => true,
    }
}

/// Is this a model that is admitted? One that goes by whole words or by pieces of words is;
/// a unigram model is if none of its tokens has too many bytes; and one by byte pairs, or one
/// that does not say what it is, if its tokens can be merged as well.
pub open spec fn sound_model(part: Option<Json>) -> bool {
    match part {
        None => true,
        Some(j) => {
            let kind = field(j, "type"@);
            ||| is_text(kind, "WordPiece"@)
            ||| is_text(kind, "WordLevel"@)
            ||| sound_pieces(j) && (is_text(kind, "Unigram"@) || sound_merges(j))
        },
    }
}

/// Computes [`sound_model`].
fn check_model(part: Option<&Value>) -> (r: bool)
    ensures
        r == sound_model(json_option(part)),
{
    match part {
        None => true,
        Some(v) => {
            let kind: Option<&Value> = find_field(v, "type");
            holds_text(kind, "WordPiece") || holds_text(kind, "WordLevel") || (check_pieces(v) && (
            holds_text(kind, "Unigram") || check_merges(v)))
        },
    }
}

/// Does the model ask for merges to be left out by chance?
pub open spec fn drops_out(model: Option<Json>) -> bool {
    match model {
        Some(j) => !is_absent(field(j, "dropout"@)),
        None => false,
    }
}

/// Computes [`drops_out`].
fn check_drops_out(model: Option<&Value>) -> (r: bool)
    ensures
        r == drops_out(json_option(model)),
{
    match model {
        Some(v) => !absent(find_field(v, "dropout")),
        None => false,
    }
}

// ---------------------------------------------------------------------------
// Post-processors
// ---------------------------------------------------------------------------

/// Does the piece of a template stand for the text?
pub open spec fn text_piece(piece: Json) -> bool {
    match field(piece, "Sequence"@) {
        Some(j) => is_text(field(j, "id"@), "A"@),
        None => false,
    }
}

/// Computes [`text_piece`].
fn is_text_piece(piece: &Value) -> (r: bool)
    ensures
        r == text_piece(json_of(*piece)),
{
    match find_field(piece, "Sequence") {
        Some(v) => holds_text(find_field(v, "id"), "A"),
        None => false,
    }
}

/// Does the piece of a template stand for one of the special tokens?
pub open spec fn token_piece(piece: Json, tokens: Json) -> bool {
    match field(piece, "SpecialToken"@) {
        Some(j) => field(j, "id"@) matches Some(Json::Text(id)) && field(tokens, id) is Some,
        None => false,
    }
}

/// Computes [`token_piece`].
fn is_token_piece(piece: &Value, tokens: &Value) -> (r: bool)
    ensures
        r == token_piece(json_of(*piece), json_of(*tokens)),
{
    match find_field(piece, "SpecialToken") {
        Some(v) => match find_field(v, "id") {
            Some(id) => match open_json(id) {
                JsonNode::Text(t) => find_field(tokens, t).is_some(),
                _ => false,
            },
            None => false,
        },
        None => false,
    }
}

/// Is this a template for one text? Each piece stands for the text or for one of the special
/// tokens, and the text stands in it at most once.
pub open spec fn sound_template(pieces: Seq<Json>, tokens: Json) -> bool {
    &&& all_items(pieces, |p: Json| text_piece(p) || token_piece(p, tokens))
    &&& at_most_one(pieces, |p: Json| text_piece(p))
}

/// Computes [`sound_template`].
fn check_template(pieces: &Vec<Value>, tokens: &Value) -> (r: bool)
    ensures
        r == sound_template(json_list(pieces@), json_of(*tokens)),
{
    let check = |p: &Value| -> (b: bool)
        ensures
            b == (text_piece(json_of(*p)) || token_piece(json_of(*p), json_of(*tokens))),
        { is_text_piece(p) || is_token_piece(p, tokens) };
    check_items(
        pieces,
        check,
        Ghost(|p: Json| text_piece(p) || token_piece(p, json_of(*tokens))),
    ) && check_at_most_one(pieces, is_text_piece, Ghost(|p: Json| text_piece(p)))
}

/// Has the post-processor a template for one text?
pub open spec fn has_template(j: Json) -> bool {
    field(j, "single"@) is Some
}

/// Computes [`has_template`].
fn holds_template(v: &Value) -> (r: bool)
    ensures
        r == has_template(json_of(*v)),
{
    find_field(v, "single").is_some()
}

/// Is this an object that has no template for one text, or one that is a template?
pub open spec fn templated(j: Json) -> bool {
    &&& j is Object
    &&& match field(j, "single"@) {
        None => true,
        Some(Json::List(pieces)) => field(j, "special_tokens"@) matches Some(tokens)
            && sound_template(pieces, tokens),
        Some(_) => false,
    }
}

/// Computes [`templated`].
fn check_templated(v: &Value) -> (r: bool)
    ensures
        r == templated(json_of(*v)),
{
    is_object(v) && match find_field(v, "single") {
        None => true,
        Some(single) => match open_json(single) {
            JsonNode::List(pieces) => match find_field(v, "special_tokens") {
                Some(tokens) => check_template(pieces, tokens),
                None => false,
            },
            _ => false,
        },
    }
}

/// Is this a single post-processor that is admitted?
pub open spec fn single_processor(j: Json) -> bool {
    templated(j) && field(j, "processors"@) is None
}

/// Computes [`single_processor`].
fn check_single_processor(v: &Value) -> (r: bool)
    ensures
        r == single_processor(json_of(*v)),
{
    check_templated(v) && find_field(v, "processors").is_none()
}

/// Is this a post-processor that is admitted? There may be none, a single one, or several in
/// sequence, at most one of which has a template.
pub open spec fn sound_post_processor(part: Option<Json>) -> bool {
    match part {
        None => true,
        Some(j) => {
            ||| j is Null
            ||| templated(j) && match field(j, "processors"@) {
                None => true,
                Some(Json::List(items)) => all_items(items, |p: Json| single_processor(p))
                    && at_most_one(items, |p: Json| has_template(p)),
                Some(_) => false,
            }
        },
    }
}

/// Computes [`sound_post_processor`].
fn check_post_processor(part: Option<&Value>) -> (r: bool)
    ensures
        r == sound_post_processor(json_option(part)),
{
    match part {
        None => true,
        Some(v) => absent(Some(v)) || (check_templated(v) && match find_field(v, "processors") {
            None => true,
            Some(list) => match open_json(list) {
                JsonNode::List(items) => check_items(
                    items,
                    check_single_processor,
                    Ghost(|p: Json| single_processor(p)),
                ) && check_at_most_one(
                    items,
                    holds_template,
                    Ghost(|p: Json| has_template(p)),
                ),
                _ => false,
            },
        }),
    }
}

// ---------------------------------------------------------------------------
// Members that stand twice
// ---------------------------------------------------------------------------

/// Where a place in a JSON text is: outside of texts, in a text, or in a text behind a
/// backslash.
pub enum Place {
    Outside,
    Inside,
    Escaped,
}

/// The place behind the start of a JSON text.
pub open spec fn place_behind(text: Seq<u8>) -> Place
    decreases text.len(),
{
    if text.len() == 0 {
        Place::Outside
    } else {
        match place_behind(text.drop_last()) {
            Place::Outside => if text.last() == 0x22 {
                Place::Inside
            } else {
                Place::Outside
            },
            Place::Inside => if text.last() == 0x22 {
                Place::Outside
            } else if text.last() == 0x5c {
                Place::Escaped
            } else {
                Place::Inside
            },
            Place::Escaped => Place::Inside,
        }
    }
}

/// The number of colons outside of texts, one for each member that stands in a JSON text.
pub open spec fn colons(text: Seq<u8>) -> nat
    decreases text.len(),
{
    if text.len() == 0 {
        0
    } else if place_behind(text.drop_last()) is Outside && text.last() == 0x3a {
        colons(text.drop_last()) + 1
    } else {
        colons(text.drop_last())
    }
}

/// Computes [`colons`].
fn count_colons(text: &[u8]) -> (r: usize)
    ensures
        r == colons(text@),
{
    let mut n: usize = 0;
    let mut place: Place = Place::Outside;
    let mut i: usize = 0;
    assert(text@.take(0) =~= seq![]);
    while i < text.len()
        invariant
            i <= text@.len(),
            n <= i,
            n == colons(text@.take(i as int)),
            place == place_behind(text@.take(i as int)),
        decreases text@.len() - i,
    {
        assert(text@.take(i + 1).drop_last() =~= text@.take(i as int));
        let c: u8 = text[i];
        match place {
            Place::Outside => {
                if c == 0x3a {
                    n = n + 1;
                }
                if c == 0x22 {
                    place = Place::Inside;
                }
            },
            Place::Inside => {
                if c == 0x22 {
                    place = Place::Outside;
                } else if c == 0x5c {
                    place = Place::Escaped;
                }
            },
            Place::Escaped => {
                place = Place::Inside;
            },
        }
        i = i + 1;
    }
    assert(text@.take(i as int) =~= text@);
    n
}

/// The number of members of all objects in a JSON value.
pub open spec fn member_count(j: Json) -> nat
    decreases j,
{
    match j {
        Json::List(items) => list_member_count(items),
        Json::Object(members) => members.len() + object_member_count(members),
        _ => 0,
    }
}

/// The number of members of all objects in the items of a list.
pub open spec fn list_member_count(items: Seq<Json>) -> nat
    decreases items,
{
    if items.len() == 0 {
        0
    } else {
        list_member_count(items.drop_last()) + member_count(items.last())
    }
}

/// The number of members of all objects in the members of an object.
pub open spec fn object_member_count(members: Seq<(Seq<char>, Json)>) -> nat
    decreases members,
{
    if members.len() == 0 {
        0
    } else {
        object_member_count(members.drop_last()) + member_count(members.last().1)
    }
}

/// Takes the number of members of all objects in a JSON value off a number, if it is not
/// larger.
fn take_off_members(value: &Value, number: usize) -> (r: Option<usize>)
    ensures
        match r {
            Some(left) => left + member_count(json_of(*value)) == number,
            None => member_count(json_of(*value)) > number,
        },
    decreases json_of(*value),
{
    match open_json(value) {
        JsonNode::List(items) => {
            let ghost all = json_list(items@);
            let mut left: usize = number;
            let mut i: usize = 0;
            assert(all.take(0) =~= seq![]);
            while i < items.len()
                invariant
                    i <= items@.len(),
                    all == json_list(items@),
                    json_of(*value) == Json::List(all),
                    left + list_member_count(all.take(i as int)) == number,
                decreases items@.len() - i,
            {
                assert(all[i as int] == json_of(items@[i as int]));
                assert(decreases_to!(json_of(*value) => json_of(*value)->List_0));
                assert(decreases_to!(all => all[i as int]));
                assert(all.take(i + 1).drop_last() =~= all.take(i as int));
                match take_off_members(&items[i], left) {
                    Some(rest) => left = rest,
                    None => {
                        proof {
                            lemma_list_member_count(all, i + 1);
                        }
                        return None;
                    },
                }
                i = i + 1;
            }
            assert(all.take(i as int) =~= all);
            Some(left)
        },
        JsonNode::Object(members) => {
            let ghost all = json_members(members@);
            if members.len() > number {
                return None;
            }
            let mut left: usize = number - members.len();
            let mut i: usize = 0;
            assert(all.take(0) =~= seq![]);
            while i < members.len()
                invariant
                    i <= members@.len(),
                    all == json_members(members@),
                    json_of(*value) == Json::Object(all),
                    left + object_member_count(all.take(i as int)) + members@.len() == number,
                decreases members@.len() - i,
            {
                assert(all[i as int].1 == json_of(*members@[i as int].1));
                assert(decreases_to!(json_of(*value) => json_of(*value)->Object_0));
                assert(decreases_to!(all => all[i as int]));
                assert(decreases_to!(all[i as int] => all[i as int].1));
                assert(all.take(i + 1).drop_last() =~= all.take(i as int));
                match take_off_members(members[i].1, left) {
                    Some(rest) => left = rest,
                    None => {
                        proof {
                            lemma_object_member_count(all, i + 1);
                        }
                        return None;
                    },
                }
                i = i + 1;
            }
            assert(all.take(i as int) =~= all);
            Some(left)
        },
        _ => Some(number),
    }
}

/// The first items of a list have no more members than all of them.
proof fn lemma_list_member_count(items: Seq<Json>, n: int)
    requires
        0 <= n <= items.len(),
    ensures
        list_member_count(items.take(n)) <= list_member_count(items),
    decreases items.len(),
{
    if n == items.len() {
        assert(items.take(n) =~= items);
    } else {
        lemma_list_member_count(items.drop_last(), n);
        assert(items.drop_last().take(n) =~= items.take(n));
    }
}

/// The first members of an object have no more members than all of them.
proof fn lemma_object_member_count(members: Seq<(Seq<char>, Json)>, n: int)
    requires
        0 <= n <= members.len(),
    ensures
        object_member_count(members.take(n)) <= object_member_count(members),
    decreases members.len(),
{
    if n == members.len() {
        assert(members.take(n) =~= members);
    } else {
        lemma_object_member_count(members.drop_last(), n);
        assert(members.drop_last().take(n) =~= members.take(n));
    }
}

/// Does no member stand twice in one object of the JSON text? Of such members only the last
/// is kept, so there are as many members left as there are colons outside of texts.
pub open spec fn members_once(text: Seq<u8>, value: Json) -> bool {
    colons(text) == member_count(value)
}

/// Computes [`members_once`].
fn check_members_once(text: &[u8], value: &Value) -> (r: bool)
    ensures
        r == members_once(text@, json_of(*value)),
{
    match take_off_members(value, count_colons(text)) {
        Some(left) => left == 0,
        None => false,
    }
}

// ---------------------------------------------------------------------------
// Definitions
// ---------------------------------------------------------------------------

/// Is the definition made of parts that are admitted?
pub open spec fn sound_parts(definition: Json) -> bool {
    let normalizer = field(definition, "normalizer"@);
    &&& sound_normalizer(normalizer)
    &&& sound_added_tokens(field(definition, "added_tokens"@), leaves_some(normalizer))
    &&& sound_pre_tokenizer(field(definition, "pre_tokenizer"@), is_absent(normalizer))
    &&& sound_model(field(definition, "model"@))
    &&& sound_post_processor(field(definition, "post_processor"@))
    &&& sound_decoder(field(definition, "decoder"@))
}

/// Is the text a JSON text in which no member stands twice, and the definition in it made of
/// parts that are admitted?
pub open spec fn sound_definition(definition: Seq<u8>) -> bool {
    json_text(definition) matches Some(j) && members_once(definition, j) && sound_parts(j)
}

/// Does no member stand twice in the definition, which is given as a text and as the value
/// that it denotes, and is it made of parts that are admitted?
pub(crate) fn check_definition(text: &[u8], definition: &Value) -> (r: bool)
    ensures
        r == (members_once(text@, json_of(*definition)) && sound_parts(json_of(*definition))),
{
    let normalizer: Option<&Value> = find_field(definition, "normalizer");
    check_members_once(text, definition) && check_normalizer(normalizer) && check_added_tokens(
        find_field(definition, "added_tokens"),
        check_leaves_some(normalizer),
    ) && check_pre_tokenizer(
        find_field(definition, "pre_tokenizer"),
        absent(normalizer),
    ) && check_model(find_field(definition, "model")) && check_post_processor(find_field(definition, "post_processor")) && check_decoder(
        find_field(definition, "decoder"),
    )
}

/// Is nothing in the definition left to chance? Its model does not leave out merges at
/// random, and no added token is matched against normalized text: two of them might have
/// become the same.
pub open spec fn nothing_by_chance(definition: Json) -> bool {
    &&& !drops_out(field(definition, "model"@))
    &&& is_absent(field(definition, "normalizer"@)) || none_normalized(
        field(definition, "added_tokens"@),
    )
}

/// Is the text a JSON text, and nothing in the definition in it left to chance?
pub open spec fn certain_definition(definition: Seq<u8>) -> bool {
    json_text(definition) matches Some(j) && nothing_by_chance(j)
}

/// Is the text a JSON text, and nothing in the definition in it left to chance?
pub fn is_certain(definition: &[u8]) -> (r: bool)
    ensures
        r == certain_definition(definition@),
{
    match parse_json(definition) {
        Ok(v) => !check_drops_out(find_field(&v, "model")) && (absent(
            find_field(&v, "normalizer"),
        ) || check_none_normalized(find_field(&v, "added_tokens"))),
        Err(_) => false,
    }
}

/// Is the text a JSON text, and texts searched by regular expression by the definition in it?
pub open spec fn searching_definition(definition: Seq<u8>) -> bool {
    json_text(definition) matches Some(j) && searching(field(j, "pre_tokenizer"@))
}

/// Is the text a JSON text, and texts searched by regular expression by the definition in it?
pub fn is_searching(definition: &[u8]) -> (r: bool)
    ensures
        r == searching_definition(definition@),
{
    match parse_json(definition) {
        Ok(v) => check_searching(find_field(&v, "pre_tokenizer")),
        Err(_) => false,
    }
}

// ---------------------------------------------------------------------------
// Laws
// ---------------------------------------------------------------------------

/// The member with a name is the first that has it, and there is none just where no member has
/// it.
pub proof fn law_member(members: Seq<(Seq<char>, Json)>, name: Seq<char>, i: int)
    ensures
        0 <= i < members.len() && members[i].0 == name && (forall|k: int|
            0 <= k < i ==> (#[trigger] members[k]).0 != name) ==> member(members, name) == Some(
            members[i].1,
        ),
        member(members, name) is None <==> forall|k: int|
            0 <= k < members.len() ==> (#[trigger] members[k]).0 != name,
    decreases members.len(),
{
    if members.len() > 0 {
        let rest = members.skip(1);
        law_member(rest, name, i - 1);
        assert(forall|k: int| 0 <= k < rest.len() ==> #[trigger] rest[k] == members[k + 1]);
        if 0 < i < members.len() && members[i].0 == name && (forall|k: int|
            0 <= k < i ==> (#[trigger] members[k]).0 != name) {
            assert(members[0].0 != name);
            assert(rest[i - 1] == members[i]);
            assert forall|k: int| 0 <= k < i - 1 implies (#[trigger] rest[k]).0 != name by {
                assert(rest[k] == members[k + 1]);
            }
        }
        if member(members, name) is None {
            assert forall|k: int| 0 <= k < members.len() implies (#[trigger] members[k]).0
                != name by {
                if k > 0 {
                    assert(rest[k - 1].0 != name);
                }
            }
        }
        if forall|k: int| 0 <= k < members.len() ==> (#[trigger] members[k]).0 != name {
            assert(members[0].0 != name);
            assert forall|k: int| 0 <= k < rest.len() implies (#[trigger] rest[k]).0 != name by {
                assert(members[k + 1].0 != name);
            }
        }
    }
}

/// The definitions of BERT-like models are admitted, whatever their vocabulary is: with the
/// normalizer and the pre-tokenizer of BERT, a model by pieces of words, a template that puts
/// special tokens that are listed around the text, the decoder for pieces of words, and added
/// tokens that are taken as they stand.
pub proof fn law_bert_definitions_are_admitted(
    definition: Json,
    normalizer: Json,
    tokens: Seq<Json>,
    pre_tokenizer: Json,
    model: Json,
    processor: Json,
    template: Seq<Json>,
    special: Json,
    decoder: Json,
)
    requires
        field(definition, "normalizer"@) == Some(normalizer),
        field(normalizer, "type"@) == Some(Json::Text("BertNormalizer"@)),
        field(normalizer, "clean_text"@) matches Some(Json::Bool(_)),
        field(normalizer, "handle_chinese_chars"@) matches Some(Json::Bool(_)),
        field(normalizer, "lowercase"@) matches Some(Json::Bool(_)),
        field(normalizer, "strip_accents"@) == Some(Json::Null),
        field(definition, "added_tokens"@) == Some(Json::List(tokens)),
        forall|i: int|
            0 <= i < tokens.len() ==> {
                &&& (#[trigger] tokens[i]) is Object
                &&& field(tokens[i], "lstrip"@) == Some(Json::Bool(false))
                &&& field(tokens[i], "rstrip"@) == Some(Json::Bool(false))
                &&& field(tokens[i], "normalized"@) == Some(Json::Bool(false))
            },
        field(definition, "pre_tokenizer"@) == Some(pre_tokenizer),
        field(pre_tokenizer, "type"@) == Some(Json::Text("BertPreTokenizer"@)),
        field(definition, "model"@) == Some(model),
        field(model, "type"@) == Some(Json::Text("WordPiece"@)),
        field(definition, "post_processor"@) == Some(processor),
        processor is Object,
        field(processor, "processors"@) is None,
        field(processor, "single"@) == Some(Json::List(template)),
        field(processor, "special_tokens"@) == Some(special),
        template.len() == 3,
        token_piece(template[0], special),
        text_piece(template[1]),
        token_piece(template[2], special),
        !text_piece(template[0]),
        !text_piece(template[2]),
        field(definition, "decoder"@) == Some(decoder),
        field(decoder, "type"@) == Some(Json::Text("WordPiece"@)),
    ensures
        sound_parts(definition),
        field(pre_tokenizer, "pretokenizers"@) is None ==> !searching(
            field(definition, "pre_tokenizer"@),
        ),
        field(model, "dropout"@) is None ==> nothing_by_chance(definition),
{
    reveal_strlit("BertPreTokenizer");
    reveal_strlit("ByteLevel");
    assert("BertPreTokenizer"@.len() != "ByteLevel"@.len());
    assert(simple_pre_tokenizers()[0] == "BertPreTokenizer"@);
    assert(one_of(field(pre_tokenizer, "type"@), simple_pre_tokenizers())) by {
        assert(is_text(field(pre_tokenizer, "type"@), simple_pre_tokenizers()[0]));
    }
    assert(simple_decoders()[2] == "WordPiece"@);
    assert(one_of(field(decoder, "type"@), simple_decoders())) by {
        assert(is_text(field(decoder, "type"@), simple_decoders()[2]));
    }
    assert(single_normalizer(normalizer));
    assert forall|name: Seq<char>|
        name == "lstrip"@ || name == "rstrip"@ || name == "normalized"@ implies #[trigger] none_set(
        tokens,
        name,
    ) by {
        assert forall|i: int| 0 <= i < tokens.len() implies !is_set(
            field(#[trigger] tokens[i], name),
        ) by {
            assert(tokens[i] is Object);
        }
    }
    assert(none_set(tokens, "lstrip"@));
    assert(none_set(tokens, "normalized"@));
    assert forall|i: int| 0 <= i < template.len() implies text_piece(#[trigger] template[i])
        || token_piece(template[i], special) by {
        assert(i == 0 || i == 1 || i == 2);
    }
    assert(sound_template(template, special));
    assert(sound_post_processor(Some(processor)));
}

/// A normalizer that replaces what it searches for, and one that is stored in compiled form, are
/// not admitted, alone or in a sequence.
pub proof fn law_some_normalizers_are_refused(definition: Json, whole: Json, i: int)
    requires
        sound_parts(definition),
        field(definition, "normalizer"@) == Some(whole),
    ensures
        !is_text(field(whole, "type"@), "Replace"@),
        !is_text(field(whole, "type"@), "Precompiled"@),
        is_text(field(whole, "type"@), "Sequence"@) ==> (field(whole, "normalizers"@) matches Some(
            Json::List(items),
        ) && (0 <= i < items.len() ==> !is_text(field(items[i], "type"@), "Replace"@) && !is_text(
            field(items[i], "type"@),
            "Precompiled"@,
        ))),
{
    reveal_strlit("Sequence");
    reveal_strlit("Replace");
    reveal_strlit("Precompiled");
    assert("Sequence"@.len() != "Replace"@.len());
    assert("Sequence"@.len() != "Precompiled"@.len());
    if single_normalizer(whole) {
        lemma_simple_normalizer(whole);
    } else if is_text(field(whole, "type"@), "Sequence"@) {
        let items = field(whole, "normalizers"@)->0->List_0;
        let pred = |n: Json| single_normalizer(n);
        assert(all_items(items, pred));
        if 0 <= i < items.len() {
            assert(pred(items[i]));
            lemma_simple_normalizer(items[i]);
        }
    } else {
        assert(whole is Null);
    }
}

/// The kinds of the normalizers that are admitted.
proof fn lemma_simple_normalizer(j: Json)
    requires
        single_normalizer(j),
    ensures
        !is_text(field(j, "type"@), "Replace"@),
        !is_text(field(j, "type"@), "Precompiled"@),
        !is_text(field(j, "type"@), "Sequence"@),
{
    reveal_strlit("Lowercase");
    reveal_strlit("StripAccents");
    reveal_strlit("Strip");
    reveal_strlit("NFC");
    reveal_strlit("NFD");
    reveal_strlit("NFKC");
    reveal_strlit("NFKD");
    reveal_strlit("Nmt");
    reveal_strlit("ByteLevel");
    reveal_strlit("Bert");
    reveal_strlit("Prepend");
    reveal_strlit("BertNormalizer");
    reveal_strlit("Sequence");
    reveal_strlit("Replace");
    reveal_strlit("Precompiled");
    let names = simple_normalizers();
    if one_of(field(j, "type"@), names) {
        let k = choose|k: int| 0 <= k < names.len() && is_text(field(j, "type"@), #[trigger] names[k]);
        let t = names[k];
        assert(t.len() != "Replace"@.len() || t[0] != 'R');
        assert(t.len() != "Precompiled"@.len() || t[0] != 'P');
        assert(t.len() != "Sequence"@.len());
    } else if is_text(field(j, "type"@), "Prepend"@) {
        assert("Prepend"@[0] != "Replace"@[0]);
        assert("Prepend"@.len() != "Precompiled"@.len());
        assert("Prepend"@.len() != "Sequence"@.len());
    } else {
        assert("BertNormalizer"@[0] != "Replace"@[0]);
        assert("BertNormalizer"@[0] != "Precompiled"@[0]);
        assert("BertNormalizer"@[0] != "Sequence"@[0]);
    }
}

/// A template that names a special token that is not listed, that names a second text, or that
/// holds the text twice, is not admitted.
pub proof fn law_templates_name_listed_tokens(definition: Json, processor: Json, i: int, j: int)
    requires
        sound_parts(definition),
        field(definition, "post_processor"@) == Some(processor),
        field(processor, "single"@) matches Some(Json::List(pieces)) && 0 <= i < pieces.len() && 0
            <= j < pieces.len(),
    ensures
        ({
            let piece = field(processor, "single"@)->0->List_0[i];
            let other = field(processor, "single"@)->0->List_0[j];
            let names_text = |p: Json|
                field(p, "Sequence"@) is Some && field(field(p, "Sequence"@)->0, "id"@) == Some(
                    Json::Text("A"@),
                );
            &&& names_text(piece) || (field(piece, "SpecialToken"@) is Some && (field(
                field(piece, "SpecialToken"@)->0,
                "id"@,
            ) matches Some(Json::Text(id)) && field(field(processor, "special_tokens"@)->0, id)
                is Some))
            &&& names_text(piece) && names_text(other) ==> i == j
        }),
{
    let pieces = field(processor, "single"@)->0->List_0;
    let tokens = field(processor, "special_tokens"@)->0;
    assert(processor is Object);
    assert(templated(processor));
    assert(sound_template(pieces, tokens));
    let p = |p: Json| text_piece(p) || token_piece(p, tokens);
    assert(p(pieces[i]));
    assert(p(pieces[j]));
    let q = |p: Json| text_piece(p);
    if i < j {
        assert(!(q(pieces[i]) && q(pieces[j])));
    } else if j < i {
        assert(!(q(pieces[j]) && q(pieces[i])));
    }
}

/// Added tokens that swallow blanks before them do not stand beside ones that swallow blanks
/// behind them.
pub proof fn law_added_tokens_swallow_on_one_side(
    definition: Json,
    tokens: Seq<Json>,
    i: int,
    j: int,
)
    requires
        sound_parts(definition),
        field(definition, "added_tokens"@) == Some(Json::List(tokens)),
        0 <= i < tokens.len(),
        0 <= j < tokens.len(),
    ensures
        !(field(tokens[i], "lstrip"@) == Some(Json::Bool(true)) && field(tokens[j], "rstrip"@)
            == Some(Json::Bool(true))),
{
    let l = |t: Json| !is_set(field(t, "lstrip"@));
    let r = |t: Json| !is_set(field(t, "rstrip"@));
    if none_set(tokens, "lstrip"@) {
        assert(l(tokens[i]));
    } else {
        assert(none_set(tokens, "rstrip"@));
        assert(r(tokens[j]));
    }
}

/// A definition leaves nothing to chance just where its model drops no merges at random, and
/// there is no normalizer or no added token is matched against normalized text.
pub proof fn law_is_certain(definition: &[u8], j: Json, r: bool)
    requires
        call_ensures(is_certain, (definition,), r),
        json_text(definition@) == Some(j),
    ensures
        r <==> {
            let normalizer = field(j, "normalizer"@);
            &&& match field(j, "model"@) {
                Some(model) => field(model, "dropout"@) is None || field(model, "dropout"@) == Some(
                    Json::Null,
                ),
                None => true,
            }
            &&& normalizer is None || normalizer == Some(Json::Null) || match field(
                j,
                "added_tokens"@,
            ) {
                Some(Json::List(tokens)) => forall|i: int|
                    0 <= i < tokens.len() ==> field(#[trigger] tokens[i], "normalized"@) != Some(
                        Json::Bool(true),
                    ),
                _ => true,
            }
        },
{
    match field(j, "added_tokens"@) {
        Some(Json::List(tokens)) => {
            let pred = |t: Json| !is_set(field(t, "normalized"@));
            if none_set(tokens, "normalized"@) {
                assert forall|i: int| 0 <= i < tokens.len() implies field(
                    #[trigger] tokens[i],
                    "normalized"@,
                ) != Some(Json::Bool(true)) by {
                    assert(pred(tokens[i]));
                }
            }
            if forall|i: int|
                0 <= i < tokens.len() ==> field(#[trigger] tokens[i], "normalized"@) != Some(
                    Json::Bool(true),
                ) {
                assert forall|i: int| 0 <= i < tokens.len() implies pred(#[trigger] tokens[i]) by {
                    assert(field(tokens[i], "normalized"@) != Some(Json::Bool(true)));
                }
                assert(all_items(tokens, pred));
            }
        },
        _ => {},
    }
}

/// What is not JSON is not certain.
pub proof fn law_only_json_is_certain(definition: &[u8], r: bool)
    requires
        call_ensures(is_certain, (definition,), r),
        json_text(definition@) is None,
    ensures
        !r,
{
}

/// A pre-tokenizer that splits by a pattern is not admitted, alone or in a sequence, and one
/// that goes by bytes searches by regular expression only where there is no normalizer.
pub proof fn law_some_pre_tokenizers_are_refused(definition: Json, whole: Json, i: int)
    requires
        sound_parts(definition),
        field(definition, "pre_tokenizer"@) == Some(whole),
    ensures
        !is_text(field(whole, "type"@), "Split"@),
        is_text(field(whole, "type"@), "Sequence"@) ==> (field(whole, "pretokenizers"@)
            matches Some(Json::List(items)) && (0 <= i < items.len() ==> !is_text(
            field(items[i], "type"@),
            "Split"@,
        ))),
        is_text(field(whole, "type"@), "ByteLevel"@) && field(whole, "use_regex"@) != Some(
            Json::Bool(false),
        ) ==> field(definition, "normalizer"@) is None || field(definition, "normalizer"@) == Some(
            Json::Null,
        ),
{
    reveal_strlit("Sequence");
    reveal_strlit("Split");
    reveal_strlit("ByteLevel");
    assert("Sequence"@.len() != "Split"@.len());
    assert("ByteLevel"@.len() != "Split"@.len());
    assert("ByteLevel"@.len() != "Sequence"@.len());
    if single_pre_tokenizer(whole) {
        lemma_simple_pre_tokenizer(whole);
    } else if is_text(field(whole, "type"@), "Sequence"@) {
        let items = field(whole, "pretokenizers"@)->0->List_0;
        let one = |n: Json| single_pre_tokenizer(n);
        let other = |n: Json| single_pre_tokenizer(n) || by_bytes(n);
        assert(all_items(items, one) || all_items(items, other));
        if 0 <= i < items.len() {
            assert(one(items[i]) || other(items[i]));
            if single_pre_tokenizer(items[i]) {
                lemma_simple_pre_tokenizer(items[i]);
            }
        }
    }
}

/// The kinds of the pre-tokenizers that are admitted.
proof fn lemma_simple_pre_tokenizer(j: Json)
    requires
        single_pre_tokenizer(j),
    ensures
        !is_text(field(j, "type"@), "Split"@),
        !is_text(field(j, "type"@), "Sequence"@),
        is_text(field(j, "type"@), "ByteLevel"@) ==> field(j, "use_regex"@) == Some(
            Json::Bool(false),
        ),
{
    reveal_strlit("BertPreTokenizer");
    reveal_strlit("Whitespace");
    reveal_strlit("WhitespaceSplit");
    reveal_strlit("Metaspace");
    reveal_strlit("Punctuation");
    reveal_strlit("Digits");
    reveal_strlit("CharDelimiterSplit");
    reveal_strlit("UnicodeScripts");
    reveal_strlit("ByteLevel");
    reveal_strlit("FixedLength");
    reveal_strlit("Sequence");
    reveal_strlit("Split");
    let names = simple_pre_tokenizers();
    if one_of(field(j, "type"@), names) {
        let k = choose|k: int|
            0 <= k < names.len() && is_text(field(j, "type"@), #[trigger] names[k]);
        let t = names[k];
        assert(t.len() != "Split"@.len());
        assert(t.len() != "Sequence"@.len());
        assert(t.len() != "ByteLevel"@.len() || t[0] != 'B');
    } else if is_text(field(j, "type"@), "ByteLevel"@) {
        assert("ByteLevel"@.len() != "Split"@.len());
        assert("ByteLevel"@.len() != "Sequence"@.len());
        assert("ByteLevel"@.len() != "FixedLength"@.len());
    } else {
        assert("FixedLength"@.len() != "Split"@.len());
        assert("FixedLength"@.len() != "Sequence"@.len());
    }
}

/// A vocabulary has a token that is as long as its longest.
proof fn lemma_longest_name(members: Seq<(Seq<char>, Json)>)
    ensures
        longest_name(members) == 0 || exists|k: int|
            0 <= k < members.len() && encode_utf8((#[trigger] members[k]).0).len() == longest_name(
                members,
            ),
        forall|k: int|
            0 <= k < members.len() ==> encode_utf8((#[trigger] members[k]).0).len() <= longest_name(
                members,
            ),
    decreases members.len(),
{
    if members.len() > 0 {
        let front = members.drop_last();
        lemma_longest_name(front);
        assert forall|k: int| 0 <= k < members.len() implies encode_utf8(
            (#[trigger] members[k]).0,
        ).len() <= longest_name(members) by {
            if k < front.len() {
                assert(front[k] == members[k]);
            }
        }
        if longest_name(front) < encode_utf8(members.last().0).len() {
            assert(encode_utf8(members[members.len() - 1].0).len() == longest_name(members));
        } else if longest_name(front) > 0 {
            let k = choose|k: int|
                0 <= k < front.len() && encode_utf8((#[trigger] front[k]).0).len() == longest_name(
                    front,
                );
            assert(encode_utf8(members[k].0).len() == longest_name(members));
        }
    }
}

/// In a model by byte pairs, two tokens that are merged do not give more bytes than some token
/// of the vocabulary has, the prefix of tokens within words taken off; and the second of the
/// two has that prefix.
pub proof fn law_merges_fit(
    definition: Json,
    model: Json,
    merges: Seq<Json>,
    vocab: Seq<(Seq<char>, Json)>,
    prefix: Seq<char>,
    i: int,
    a: Seq<char>,
    b: Seq<char>,
)
    requires
        sound_parts(definition),
        field(definition, "model"@) == Some(model),
        field(model, "type"@) == Some(Json::Text("BPE"@)),
        field(model, "merges"@) == Some(Json::List(merges)),
        field(model, "vocab"@) == Some(Json::Object(vocab)),
        field(model, "continuing_subword_prefix"@) == Some(Json::Text(prefix)),
        0 <= i < merges.len(),
        merges[i] == Json::List(seq![Json::Text(a), Json::Text(b)]),
    ensures
        prefix.is_prefix_of(b),
        encode_utf8(a).len() + encode_utf8(b).len() <= encode_utf8(prefix).len() || exists|k: int|
            0 <= k < vocab.len() && encode_utf8(a).len() + encode_utf8(b).len() <= encode_utf8(
                (#[trigger] vocab[k]).0,
            ).len() + encode_utf8(prefix).len(),
{
    reveal_strlit("BPE");
    reveal_strlit("WordPiece");
    reveal_strlit("WordLevel");
    reveal_strlit("Unigram");
    assert("BPE"@.len() != "WordPiece"@.len());
    assert("BPE"@.len() != "WordLevel"@.len());
    assert("BPE"@.len() != "Unigram"@.len());
    let pred = |m: Json|
        sound_merge(m, word_prefix(model), longest_token(field(model, "vocab"@)));
    assert(all_items(merges, pred));
    assert(pred(merges[i]));
    assert(mergeable(a, b, prefix, longest_name(vocab)));
    lemma_longest_name(vocab);
    if longest_name(vocab) > 0 {
        let k = choose|k: int|
            0 <= k < vocab.len() && encode_utf8((#[trigger] vocab[k]).0).len() == longest_name(
                vocab,
            );
        assert(encode_utf8(vocab[k].0).len() == longest_name(vocab));
    }
}

/// No token of a unigram model has more than 1024 bytes.
pub proof fn law_unigram_tokens_are_short(
    definition: Json,
    model: Json,
    pieces: Seq<Json>,
    i: int,
    pair: Seq<Json>,
    token: Seq<char>,
)
    requires
        sound_parts(definition),
        field(definition, "model"@) == Some(model),
        field(model, "type"@) == Some(Json::Text("Unigram"@)),
        field(model, "vocab"@) == Some(Json::List(pieces)),
        0 <= i < pieces.len(),
        pieces[i] == Json::List(pair),
        pair.len() > 0,
        pair[0] == Json::Text(token),
    ensures
        encode_utf8(token).len() <= 1024,
{
    reveal_strlit("WordPiece");
    reveal_strlit("WordLevel");
    reveal_strlit("Unigram");
    assert("Unigram"@.len() != "WordPiece"@.len());
    assert("Unigram"@.len() != "WordLevel"@.len());
    let pred = |p: Json| sound_piece(p);
    assert(all_items(pieces, pred));
    assert(pred(pieces[i]));
}

/// Texts are searched by regular expression only where the pre-tokenizer goes by bytes and does
/// not say that it does without, or where the pre-tokenizer is a list of several.
pub proof fn law_is_searching(definition: &[u8], j: Json, part: Json, r: bool)
    requires
        call_ensures(is_searching, (definition,), r),
        json_text(definition@) == Some(j),
        field(j, "pre_tokenizer"@) == Some(part),
        field(part, "pretokenizers"@) is None,
    ensures
        r <==> field(part, "type"@) == Some(Json::Text("ByteLevel"@)) && field(part, "use_regex"@)
            != Some(Json::Bool(false)),
{
}

/// In a list of pre-tokenizers, texts are searched by regular expression where one of them does.
pub proof fn law_is_searching_in_sequence(
    definition: &[u8],
    j: Json,
    part: Json,
    items: Seq<Json>,
    i: int,
    r: bool,
)
    requires
        call_ensures(is_searching, (definition,), r),
        json_text(definition@) == Some(j),
        field(j, "pre_tokenizer"@) == Some(part),
        field(part, "pretokenizers"@) == Some(Json::List(items)),
        0 <= i < items.len(),
        field(items[i], "type"@) == Some(Json::Text("ByteLevel"@)),
        field(items[i], "use_regex"@) != Some(Json::Bool(false)),
    ensures
        r,
{
    let pred = |n: Json| !searches(n);
    assert(!pred(items[i]));
    assert(!all_items(items, pred));
}

} // verus!
