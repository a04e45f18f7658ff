//! What the OTLP signals share: attribute values, ids, and enums that arrive in more than
//! one spelling.
//!
//! 64-bit integers may arrive as decimal texts or as numbers, and enums as numbers or as
//! names. Both are legitimate OTLP, so both are accepted here rather than in each
//! signal's decoder.
use vstd::prelude::*;

use crate::json::{
    json_array, json_bool, json_copy, json_null, json_number, json_object, json_shape, json_string,
    json_to_text, json_written, keyed, lemma_members_push, members, shapes, Shape,
};
use crate::labels::{inserted, lookup, sanitize_label_name, sanitized, Labels, Pair};
use crate::text::{
    chars_of, is_hex_digit, lower, lowered, option_view, parse_signed, parse_unsigned, read_signed,
    read_unsigned, signed_decimal, signed_text, trim, trimmed, views,
};

verus! {

// ---------------------------------------------------------------------------
// Numbers and enums
// ---------------------------------------------------------------------------

/// A `uint64` that may arrive as a text or as a number.
#[derive(Debug, Clone, Copy, PartialEq, Eq, Structural)]
pub enum FlexU64 {
    Absent,
    Number(u64),
    /// A text, read as a number where it is one, so that one bad field never costs a
    /// whole request.
    Text(FlexText),
}

/// A number that arrived as a text; nothing where the text is no number.
#[derive(Debug, Clone, Copy, PartialEq, Eq, Structural)]
pub struct FlexText(pub Option<u64>);

impl FlexText {
    /// Reads a decimal text.
    pub fn read(raw: &str) -> (text: FlexText)
        ensures
            parse_unsigned(trim(raw@), u64::MAX as nat) == (match text.0 {
                Some(n) => Some(n as nat),
                None => None,
            }),
    {
        FlexText(read_unsigned(trimmed(raw).as_str(), u64::MAX))
    }
}

impl FlexU64 {
    pub open spec fn value(self) -> Option<u64> {
        match self {
            FlexU64::Absent => None,
            FlexU64::Number(n) => Some(n),
            FlexU64::Text(text) => text.0,
        }
    }

    pub fn get(self) -> (n: Option<u64>)
        ensures
            n == self.value(),
    {
        match self {
            FlexU64::Absent => None,
            FlexU64::Number(n) => Some(n),
            FlexU64::Text(text) => text.0,
        }
    }
}

/// An `int64` that may arrive as a text or as a number.
#[derive(Debug, Clone, Copy, PartialEq, Eq, Structural)]
pub enum FlexI64 {
    Absent,
    Number(i64),
    Text(SignedText),
}

/// A signed number that arrived as a text; nothing where the text is no number.
#[derive(Debug, Clone, Copy, PartialEq, Eq, Structural)]
pub struct SignedText(pub Option<i64>);

impl SignedText {
    /// Reads a decimal text.
    pub fn read(raw: &str) -> (text: SignedText)
        ensures
            parse_signed(trim(raw@)) == (match text.0 {
                Some(n) => Some(n as int),
                None => None,
            }),
    {
        SignedText(read_signed(trimmed(raw).as_str()))
    }
}

impl FlexI64 {
    pub open spec fn value(self) -> Option<i64> {
        match self {
            FlexI64::Absent => None,
            FlexI64::Number(n) => Some(n),
            FlexI64::Text(text) => text.0,
        }
    }

    pub fn get(self) -> (n: Option<i64>)
        ensures
            n == self.value(),
    {
        match self {
            FlexI64::Absent => None,
            FlexI64::Number(n) => Some(n),
            FlexI64::Text(text) => text.0,
        }
    }
}

/// The signed number that 64 bits stand for in two's complement.
pub open spec fn signed_of(raw: u64) -> i64 {
    if raw <= i64::MAX {
        raw as i64
    } else {
        (raw - u64::MAX - 1) as i64
    }
}

/// The bits of a signed number in two's complement.
pub open spec fn raw_of(n: i64) -> u64 {
    if n >= 0 {
        n as u64
    } else {
        (n + u64::MAX + 1) as u64
    }
}

/// The signed number that 64 bits stand for.
pub fn signed(raw: u64) -> (n: i64)
    ensures
        n == signed_of(raw),
{
    if raw <= i64::MAX as u64 {
        raw as i64
    } else {
        -((u64::MAX - raw) as i64) - 1
    }
}

/// An enum that may arrive as a number or as its proto name, over the type that carries
/// the name.
#[derive(Debug)]
pub enum Flexible<S> {
    Absent,
    Number(i32),
    Name(S),
}

pub type FlexEnum = Flexible<String>;

pub type FlexEnumView = Flexible<Seq<char>>;

impl View for Flexible<String> {
    type V = Flexible<Seq<char>>;

    open spec fn view(&self) -> Flexible<Seq<char>> {
        match self {
            Flexible::Absent => Flexible::Absent,
            Flexible::Number(n) => Flexible::Number(*n),
            Flexible::Name(name) => Flexible::Name(name@),
        }
    }
}

/// A signed 32-bit number in decimal.
pub open spec fn parse_i32(s: Seq<char>) -> Option<i32> {
    match parse_signed(s) {
        Some(n) => if i32::MIN <= n <= i32::MAX {
            Some(n as i32)
        } else {
            None
        },
        None => None,
    }
}

/// The number of an enum, names looked up in `table` where they are no numbers.
pub open spec fn enum_number(e: FlexEnumView, table: spec_fn(Seq<char>) -> Option<i32>) -> Option<
    i32,
> {
    match e {
        Flexible::Absent => None,
        Flexible::Number(n) => Some(n),
        Flexible::Name(name) => match parse_i32(name) {
            Some(n) => Some(n),
            None => table(name),
        },
    }
}

fn read_i32(text: &str) -> (n: Option<i32>)
    ensures
        n == parse_i32(text@),
{
    match read_signed(text) {
        Some(n) => if i32::MIN as i64 <= n && n <= i32::MAX as i64 {
            Some(n as i32)
        } else {
            None
        },
        None => None,
    }
}

impl Flexible<String> {
    /// The numeric value, with proto enum names mapped through `lookup`.
    pub fn resolve<F: Fn(&str) -> Option<i32>>(&self, lookup: F) -> (n: Option<i32>)
        requires
            forall|name: &str| lookup.requires((name,)),
        ensures
            match self@ {
                Flexible::Absent => n is None,
                Flexible::Number(number) => n == Some(number),
                Flexible::Name(name) => match parse_i32(name) {
                    Some(number) => n == Some(number),
                    None => exists|asked: &str|
                        asked@ == name && #[trigger] lookup.ensures((asked,), n),
                },
            },
    {
        match self {
            Flexible::Absent => None,
            Flexible::Number(n) => Some(*n),
            Flexible::Name(name) => match read_i32(name.as_str()) {
                Some(n) => Some(n),
                None => lookup(name.as_str()),
            },
        }
    }
}

// ---------------------------------------------------------------------------
// Values
// ---------------------------------------------------------------------------

/// A double: its bits, its text without a trailing `.0`, and its JSON number (`null`
/// where it is not finite).
#[derive(Debug)]
pub struct Numeral {
    pub bits: u64,
    pub text: String,
    pub json: serde_json::Value,
}

pub struct NumeralView {
    pub bits: u64,
    pub text: Seq<char>,
    pub json: Shape,
}

impl View for Numeral {
    type V = NumeralView;

    open spec fn view(&self) -> NumeralView {
        NumeralView { bits: self.bits, text: self.text@, json: json_shape(&self.json) }
    }
}

/// OTLP's `AnyValue` union. Exactly one field is expected to be set.
#[derive(Debug)]
pub struct AnyValue {
    pub string_value: Option<String>,
    pub bool_value: Option<bool>,
    pub int_value: FlexI64,
    pub double_value: Option<Numeral>,
    pub array_value: Option<ArrayValue>,
    pub kvlist_value: Option<KvList>,
    /// Base64, passed through unchanged: a label value has to be text either way.
    pub bytes_value: Option<String>,
}

#[derive(Debug)]
pub struct ArrayValue {
    pub values: Vec<AnyValue>,
}

#[derive(Debug)]
pub struct KvList {
    pub values: Vec<KeyValue>,
}

#[derive(Debug)]
pub struct KeyValue {
    pub key: String,
    pub value: Option<AnyValue>,
}

pub struct AnyView {
    pub string_value: Option<Seq<char>>,
    pub bool_value: Option<bool>,
    pub int_value: Option<i64>,
    pub double_value: Option<NumeralView>,
    pub array_value: Option<Seq<AnyView>>,
    pub kvlist_value: Option<Seq<KeyView>>,
    pub bytes_value: Option<Seq<char>>,
}

pub struct KeyView {
    pub key: Seq<char>,
    pub value: Option<AnyView>,
}

pub open spec fn any_view(v: AnyValue) -> AnyView
    decreases v,
{
    AnyView {
        string_value: option_view(v.string_value),
        bool_value: v.bool_value,
        int_value: v.int_value.value(),
        double_value: option_view(v.double_value),
        array_value: match v.array_value {
            Some(array) => Some(
                Seq::new(
                    array.values@.len(),
                    |i: int|
                        if 0 <= i < array.values@.len() {
                            any_view(array.values@[i])
                        } else {
                            arbitrary()
                        },
                ),
            ),
            None => None,
        },
        kvlist_value: match v.kvlist_value {
            Some(list) => Some(
                Seq::new(
                    list.values@.len(),
                    |i: int|
                        if 0 <= i < list.values@.len() {
                            key_view(list.values@[i])
                        } else {
                            arbitrary()
                        },
                ),
            ),
            None => None,
        },
        bytes_value: option_view(v.bytes_value),
    }
}

pub open spec fn key_view(kv: KeyValue) -> KeyView
    decreases kv,
{
    KeyView {
        key: kv.key@,
        value: match kv.value {
            Some(value) => Some(any_view(value)),
            None => None,
        },
    }
}

impl View for AnyValue {
    type V = AnyView;

    open spec fn view(&self) -> AnyView {
        any_view(*self)
    }
}

impl View for KeyValue {
    type V = KeyView;

    open spec fn view(&self) -> KeyView {
        key_view(*self)
    }
}

/// A value's view holds the views of what it holds.
pub proof fn lemma_any_view(v: AnyValue)
    ensures
        v@.array_value == (match v.array_value {
            Some(array) => Some(views(array.values@)),
            None => None,
        }),
        v@.kvlist_value == (match v.kvlist_value {
            Some(list) => Some(views(list.values@)),
            None => None,
        }),
{
    match v.array_value {
        Some(array) => {
            assert(v@.array_value->Some_0 =~= views(array.values@));
        },
        None => {},
    }
    match v.kvlist_value {
        Some(list) => {
            assert(v@.kvlist_value->Some_0 =~= views(list.values@));
        },
        None => {},
    }
}

impl AnyView {
    /// No value.
    pub open spec fn none() -> AnyView {
        AnyView {
            string_value: None,
            bool_value: None,
            int_value: None,
            double_value: None,
            array_value: None,
            kvlist_value: None,
            bytes_value: None,
        }
    }
}

impl Default for AnyValue {
    fn default() -> (value: AnyValue)
        ensures
            value@ == AnyView::none(),
    {
        AnyValue {
            string_value: None,
            bool_value: None,
            int_value: FlexI64::Absent,
            double_value: None,
            array_value: None,
            kvlist_value: None,
            bytes_value: None,
        }
    }
}

/// A value as JSON, nesting preserved.
pub open spec fn any_shape(v: AnyView) -> Shape
    decreases v,
{
    if v.string_value is Some {
        Shape::Text(v.string_value->Some_0)
    } else if v.bool_value is Some {
        Shape::Bool(v.bool_value->Some_0)
    } else if v.int_value is Some {
        Shape::Number(signed_decimal(v.int_value->Some_0 as int))
    } else if v.double_value is Some {
        v.double_value->Some_0.json
    } else if v.bytes_value is Some {
        Shape::Text(v.bytes_value->Some_0)
    } else {
        match v.array_value {
            Some(values) => Shape::Array(
                Seq::new(
                    values.len(),
                    |i: int|
                        if 0 <= i < values.len() {
                            any_shape(values[i])
                        } else {
                            arbitrary()
                        },
                ),
            ),
            None => match v.kvlist_value {
                Some(entries) => Shape::Object(keyed(entry_shapes(entries))),
                None => Shape::Null,
            },
        }
    }
}

/// The entries of a list of keys and values as members of a JSON object.
pub open spec fn entry_shapes(entries: Seq<KeyView>) -> Seq<(Seq<char>, Shape)>
    decreases entries,
{
    Seq::new(
        entries.len(),
        |i: int|
            if 0 <= i < entries.len() {
                (
                    entries[i].key,
                    match entries[i].value {
                        Some(value) => any_shape(value),
                        None => Shape::Null,
                    },
                )
            } else {
                arbitrary()
            },
    )
}

/// A value as the text of a label or a log body. A composite value is JSON, so that it
/// stays machine-readable.
pub open spec fn any_text(v: AnyView) -> Option<Seq<char>> {
    if v.string_value is Some {
        v.string_value
    } else if v.bool_value is Some {
        Some(
            if v.bool_value->Some_0 {
                "true"@
            } else {
                "false"@
            },
        )
    } else if v.int_value is Some {
        Some(signed_decimal(v.int_value->Some_0 as int))
    } else if v.double_value is Some {
        Some(v.double_value->Some_0.text)
    } else if v.bytes_value is Some {
        v.bytes_value
    } else if v.array_value is Some || v.kvlist_value is Some {
        Some(json_written(any_shape(v)))
    } else {
        None
    }
}

impl AnyValue {
    /// The value as the text of a label or a log body.
    pub fn to_text(&self) -> (text: Option<String>)
        ensures
            option_view(text) == any_text(self@),
    {
        match &self.string_value {
            Some(value) => {
                return Some(value.clone());
            },
            None => {},
        }
        match self.bool_value {
            Some(value) => {
                return Some(
                    if value {
                        "true".to_owned()
                    } else {
                        "false".to_owned()
                    },
                );
            },
            None => {},
        }
        match self.int_value.get() {
            Some(value) => {
                return Some(signed_text(value));
            },
            None => {},
        }
        match &self.double_value {
            Some(value) => {
                return Some(value.text.clone());
            },
            None => {},
        }
        match &self.bytes_value {
            Some(value) => {
                return Some(value.clone());
            },
            None => {},
        }
        proof {
            lemma_any_view(*self);
        }
        if self.array_value.is_some() || self.kvlist_value.is_some() {
            let json: serde_json::Value = self.to_json();
            return Some(json_to_text(&json));
        }
        None
    }

    /// The value as JSON, nesting preserved.
    fn to_json(&self) -> (json: serde_json::Value)
        ensures
            json_shape(&json) == any_shape(self@),
        decreases self,
    {
        proof {
            lemma_any_view(*self);
        }
        match &self.string_value {
            Some(value) => {
                return json_string(value.clone());
            },
            None => {},
        }
        match self.bool_value {
            Some(value) => {
                return json_bool(value);
            },
            None => {},
        }
        match self.int_value.get() {
            Some(value) => {
                return json_number(value);
            },
            None => {},
        }
        match &self.double_value {
            Some(value) => {
                return json_copy(&value.json);
            },
            None => {},
        }
        match &self.bytes_value {
            Some(value) => {
                return json_string(value.clone());
            },
            None => {},
        }
        match &self.array_value {
            Some(array) => {
                let ghost held = views(array.values@);
                let mut values: Vec<serde_json::Value> = Vec::new();
                let mut i: usize = 0;
                #[verifier::loop_isolation(false)]
                while i < array.values.len()
                    invariant
                        i <= array.values@.len(),
                        values@.len() == i,
                        forall|j: int|
                            0 <= j < i ==> json_shape(&#[trigger] values@[j]) == any_shape(
                                held[j],
                            ),
                    decreases array.values@.len() - i,
                {
                    let json: serde_json::Value = array.values[i].to_json();
                    assert(held[i as int] == array.values@[i as int]@);
                    values.push(json);
                    i += 1;
                }
                let ghost whole = any_shape(self@);
                assert(whole->Array_0 =~= shapes(values@));
                return json_array(values);
            },
            None => {},
        }
        match &self.kvlist_value {
            Some(list) => {
                let ghost held = views(list.values@);
                let mut entries: Vec<(String, serde_json::Value)> = Vec::new();
                let mut i: usize = 0;
                #[verifier::loop_isolation(false)]
                while i < list.values.len()
                    invariant
                        i <= list.values@.len(),
                        entries@.len() == i,
                        forall|j: int|
                            0 <= j < i ==> #[trigger] members(entries@)[j] == (
                                held[j].key,
                                match held[j].value {
                                    Some(value) => any_shape(value),
                                    None => Shape::Null,
                                },
                            ),
                    decreases list.values@.len() - i,
                {
                    let kv: &KeyValue = &list.values[i];
                    assert(held[i as int] == list.values@[i as int]@);
                    let json: serde_json::Value = match &kv.value {
                        Some(value) => value.to_json(),
                        None => json_null(),
                    };
                    let entry: (String, serde_json::Value) = (kv.key.clone(), json);
                    proof {
                        lemma_members_push(entries@, entry);
                    }
                    entries.push(entry);
                    i += 1;
                }
                assert(members(entries@) =~= entry_shapes(held));
                return json_object(entries);
            },
            None => {},
        }
        json_null()
    }
}

// ---------------------------------------------------------------------------
// Attributes
// ---------------------------------------------------------------------------

/// What produced the records beneath it.
#[derive(Debug)]
pub struct Resource {
    pub attributes: Vec<KeyValue>,
}

impl View for Resource {
    type V = Seq<KeyView>;

    open spec fn view(&self) -> Seq<KeyView> {
        views(self.attributes@)
    }
}

impl Default for Resource {
    fn default() -> (resource: Resource)
        ensures
            resource@ == Seq::<KeyView>::empty(),
    {
        let resource = Resource { attributes: Vec::new() };
        assert(resource@ =~= Seq::<KeyView>::empty());
        resource
    }
}

/// The library that produced the records beneath it.
#[derive(Debug)]
pub struct InstrumentationScope {
    pub name: String,
    pub version: String,
    pub attributes: Vec<KeyValue>,
}

pub struct ScopeView {
    pub name: Seq<char>,
    pub version: Seq<char>,
    pub attributes: Seq<KeyView>,
}

impl View for InstrumentationScope {
    type V = ScopeView;

    open spec fn view(&self) -> ScopeView {
        ScopeView {
            name: self.name@,
            version: self.version@,
            attributes: views(self.attributes@),
        }
    }
}

impl ScopeView {
    pub open spec fn none() -> ScopeView {
        ScopeView { name: Seq::empty(), version: Seq::empty(), attributes: Seq::empty() }
    }
}

impl Default for InstrumentationScope {
    fn default() -> (scope: InstrumentationScope)
        ensures
            scope@ == ScopeView::none(),
    {
        let scope = InstrumentationScope {
            name: String::new(),
            version: String::new(),
            attributes: Vec::new(),
        };
        assert(scope@.name =~= Seq::<char>::empty());
        assert(scope@.version =~= Seq::<char>::empty());
        assert(scope@.attributes =~= Seq::<KeyView>::empty());
        scope
    }
}

/// The labels with one attribute folded in. An attribute without a key or a value is
/// left out.
pub open spec fn with_attribute(labels: Seq<Pair>, kv: KeyView, sanitize: bool) -> Seq<Pair> {
    let text = match kv.value {
        Some(value) => any_text(value),
        None => None,
    };
    if kv.key.len() == 0 || text is None {
        labels
    } else if sanitize {
        inserted(labels, sanitized(kv.key), text->Some_0)
    } else {
        inserted(labels, kv.key, text->Some_0)
    }
}

/// The labels with attributes folded in, in order: later keys win, which lets narrower
/// scopes override wider ones.
pub open spec fn extended(labels: Seq<Pair>, attributes: Seq<KeyView>, sanitize: bool) -> Seq<Pair>
    decreases attributes.len(),
{
    if attributes.len() == 0 {
        labels
    } else {
        with_attribute(
            extended(labels, attributes.drop_last(), sanitize),
            attributes.last(),
            sanitize,
        )
    }
}

fn extend(target: &mut Labels, attributes: &Vec<KeyValue>, sanitize: bool)
    ensures
        final(target)@ == extended(old(target)@, views(attributes@), sanitize),
{
    let ghost start = target@;
    let ghost all = views(attributes@);
    let mut i: usize = 0;
    assert(all.take(0) =~= Seq::empty());
    while i < attributes.len()
        invariant
            i <= attributes@.len(),
            all == views(attributes@),
            target@ == extended(start, all.take(i as int), sanitize),
        decreases attributes@.len() - i,
    {
        let kv: &KeyValue = &attributes[i];
        proof {
            assert(all.take(i as int + 1).drop_last() =~= all.take(i as int));
            assert(all.take(i as int + 1).last() == attributes@[i as int]@);
        }
        let text: Option<String> = match &kv.value {
            Some(value) => value.to_text(),
            None => None,
        };
        match &text {
            Some(text) => {
                if !kv.key.as_str().is_empty() {
                    if sanitize {
                        target.insert(sanitize_label_name(kv.key.as_str()).as_str(), text.as_str());
                    } else {
                        target.insert(kv.key.as_str(), text.as_str());
                    }
                }
            },
            None => {},
        }
        i += 1;
    }
    assert(all.take(i as int) =~= all);
}

/// Folds attributes into a label set, with names made label names.
pub fn extend_labels(target: &mut Labels, attributes: &Vec<KeyValue>)
    ensures
        final(target)@ == extended(old(target)@, views(attributes@), true),
{
    extend(target, attributes, true);
}

/// Folds attributes in verbatim, with the producer's key spelling preserved.
pub fn extend_attributes(target: &mut Labels, attributes: &Vec<KeyValue>)
    ensures
        final(target)@ == extended(old(target)@, views(attributes@), false),
{
    extend(target, attributes, false);
}

/// The attributes with those inherited ones added that no stream label claims and no
/// attribute of the record overrides.
pub open spec fn unpromoted(
    target: Seq<Pair>,
    inherited: Seq<Pair>,
    stream: Seq<Pair>,
) -> Seq<Pair>
    decreases inherited.len(),
{
    if inherited.len() == 0 {
        target
    } else {
        let sofar = unpromoted(target, inherited.drop_last(), stream);
        let (name, value) = inherited.last();
        if lookup(stream, sanitized(name)) is Some || lookup(sofar, name) is Some {
            sofar
        } else {
            inserted(sofar, name, value)
        }
    }
}

/// Keeps the inherited attributes that did not become stream labels, under the
/// producer's own key spelling. A record attribute of the same name wins; a name that is
/// a stream label, once made a label name, is not stored twice.
pub fn keep_unpromoted(target: &mut Labels, inherited: &Labels, stream: &Labels)
    ensures
        final(target)@ == unpromoted(old(target)@, inherited@, stream@),
{
    let ghost start = target@;
    let mut i: usize = 0;
    assert(inherited@.take(0) =~= Seq::empty());
    while i < inherited.len()
        invariant
            i <= inherited@.len(),
            target@ == unpromoted(start, inherited@.take(i as int), stream@),
        decreases inherited@.len() - i,
    {
        assert(inherited@.take(i as int + 1).drop_last() =~= inherited@.take(i as int));
        let name: &str = inherited.name_at(i);
        let promoted: bool = stream.get(sanitize_label_name(name).as_str()).is_some();
        if !promoted && target.get(name).is_none() {
            target.insert(name, inherited.value_at(i));
        }
        i += 1;
    }
    assert(inherited@.take(i as int) =~= inherited@);
}

// ---------------------------------------------------------------------------
// Ids
// ---------------------------------------------------------------------------

pub open spec fn all_zeros(s: Seq<char>) -> bool {
    forall|i: int| 0 <= i < s.len() ==> #[trigger] s[i] == '0'
}

/// A trace or span id: hexadecimal, in small letters. All zeros means that there is none.
pub open spec fn id_of(raw: Seq<char>) -> Option<Seq<char>> {
    let trimmed = trim(raw);
    if all_zeros(trimmed) || !crate::pb::all_hex(trimmed) {
        None
    } else {
        Some(lower(trimmed))
    }
}

/// Normalises a hexadecimal trace or span id. An all-zero id is the OTLP encoding for
/// "absent".
pub fn normalize_id(raw: &str) -> (id: Option<String>)
    ensures
        option_view(id) == id_of(raw@),
{
    let trimmed: String = trimmed(raw);
    let chars: Vec<char> = chars_of(trimmed.as_str());
    let mut zeros: bool = true;
    let mut i: usize = 0;
    while i < chars.len()
        invariant
            i <= chars@.len(),
            chars@ == trimmed@,
            trimmed@ == trim(raw@),
            zeros == (forall|j: int| 0 <= j < i ==> #[trigger] chars@[j] == '0'),
            forall|j: int| 0 <= j < i ==> is_hex_digit(#[trigger] chars@[j]),
        decreases chars@.len() - i,
    {
        if !is_hex_digit(chars[i]) {
            assert(!crate::pb::all_hex(trimmed@));
            return None;
        }
        if chars[i] != '0' {
            zeros = false;
        }
        i += 1;
    }
    if zeros {
        return None;
    }
    Some(lowered(trimmed.as_str()))
}

// ---------------------------------------------------------------------------
// Laws
// ---------------------------------------------------------------------------

/// An id that was normalised is normalised to itself: hexadecimal, in small letters, not
/// all zeros and without white space round it.
pub proof fn law_normalizing_an_id_is_idempotent(raw: Seq<char>)
    ensures
        match id_of(raw) {
            Some(id) => id_of(id) == Some(id),
            None => true,
        },
{
    match id_of(raw) {
        Some(id) => {
            let t = trim(raw);
            assert forall|i: int| 0 <= i < id.len() implies is_hex_digit(#[trigger] id[i])
                && lower_stays(id[i]) && (id[i] == '0' <==> t[i] == '0') by {
                assert(is_hex_digit(t[i]));
            }
            if all_zeros(id) {
                assert forall|i: int| 0 <= i < t.len() implies #[trigger] t[i] == '0' by {
                    assert(id[i] == '0');
                }
            }
            let k = choose|k: int| 0 <= k < t.len() && t[k] != '0';
            assert(is_hex_digit(id[0]) && is_hex_digit(id.last())) by {
                assert(id.last() == id[id.len() - 1]);
            }
            assert(trim(id) == id);
            assert(lower(id) =~= id);
        },
        None => {},
    }
}

spec fn lower_stays(c: char) -> bool {
    crate::text::lower_char(c) == c
}

/// A record's own attribute stays as it is, whatever it inherits; a name that a stream
/// label claims is not added.
pub proof fn law_own_attributes_win(
    target: Seq<Pair>,
    inherited: Seq<Pair>,
    stream: Seq<Pair>,
    name: Seq<char>,
)
    requires
        crate::labels::sorted(target),
    ensures
        crate::labels::sorted(unpromoted(target, inherited, stream)),
        lookup(target, name) is Some ==> lookup(unpromoted(target, inherited, stream), name)
            == lookup(target, name),
        lookup(target, name) is None && lookup(stream, sanitized(name)) is Some ==> lookup(
            unpromoted(target, inherited, stream),
            name,
        ) is None,
    decreases inherited.len(),
{
    if inherited.len() > 0 {
        law_own_attributes_win(target, inherited.drop_last(), stream, name);
        let sofar = unpromoted(target, inherited.drop_last(), stream);
        let (added, value) = inherited.last();
        crate::labels::law_insert_keeps_order(sofar, added, value);
        crate::labels::law_insert_then_get(sofar, added, value, name);
    }
}

} // verus!
