//! Reading configuration files.

use vstd::prelude::*;

use crate::acl::{AclAction, AclConfig, AclConfigView, AclRuleConfig, AclRuleConfigView};
use crate::config;
use crate::config::{
    BackendConfig, BackendConfigView, BackendType, BackendTypeView, RuleConfig, RuleConfigView,
    SniConfig, SniConfigView, TlsFiles, TlsView,
};
use crate::schema;
use crate::schema::config_schema;

verus! {

/// How deeply messages may be nested in a configuration file. The deepest one
/// that can be loaded has five levels: the TLS files of a sorry server.
pub const MAX_NESTING: usize = 32;

/// What a place in a text belongs to.
#[derive(Clone, Copy, PartialEq, Eq, Structural)]
pub enum Place {
    /// Neither a comment nor a string.
    Plain,
    /// A comment, which reaches to the end of its line.
    Comment,
    /// A string between quotes like this one.
    Quoted(u8),
    /// What a backslash in such a string stands before.
    Escaped(u8),
}

/// How far reading a text has come: what the next byte belongs to, how many
/// messages are open, and how many have been at once.
pub struct Nesting {
    pub place: Place,
    pub open: nat,
    pub deepest: nat,
}

/// What a byte makes of its place: `#` (35) starts a comment and a newline (10)
/// ends it; `"` (34) and `'` (39) start and end strings, and a backslash (92)
/// in them covers the next byte.
pub open spec fn place_after(place: Place, byte: u8) -> Place {
    match place {
        Place::Plain => if byte == 35 {
            Place::Comment
        } else if byte == 34 || byte == 39 {
            Place::Quoted(byte)
        } else {
            Place::Plain
        },
        Place::Comment => if byte == 10 {
            Place::Plain
        } else {
            Place::Comment
        },
        Place::Quoted(quote) => if byte == 92 {
            Place::Escaped(quote)
        } else if byte == quote {
            Place::Plain
        } else {
            Place::Quoted(quote)
        },
        Place::Escaped(quote) => Place::Quoted(quote),
    }
}

/// What a byte makes of the nesting: outside comments and strings, `<` (60) and
/// `{` (123) open a message, and `>` (62) and `}` (125) close one.
pub open spec fn nesting_after(n: Nesting, byte: u8) -> Nesting {
    let plain = n.place == Place::Plain;
    let open = if plain && (byte == 60 || byte == 123) {
        n.open + 1
    } else if plain && (byte == 62 || byte == 125) && n.open > 0 {
        (n.open - 1) as nat
    } else {
        n.open
    };
    Nesting {
        place: place_after(n.place, byte),
        open,
        deepest: if open > n.deepest {
            open
        } else {
            n.deepest
        },
    }
}

/// How far reading all of a text comes.
pub open spec fn nesting_of(text: Seq<u8>) -> Nesting
    decreases text.len(),
{
    if text.len() == 0 {
        Nesting { place: Place::Plain, open: 0, deepest: 0 }
    } else {
        nesting_after(nesting_of(text.drop_last()), text.last())
    }
}

/// How deeply messages are nested in a text.
pub open spec fn nesting(text: Seq<char>) -> nat {
    nesting_of(vstd::utf8::encode_utf8(text)).deepest
}

fn next_place(place: Place, byte: u8) -> (r: Place)
    ensures
        r == place_after(place, byte),
{
    match place {
        Place::Plain => if byte == 35 {
            Place::Comment
        } else if byte == 34 || byte == 39 {
            Place::Quoted(byte)
        } else {
            Place::Plain
        },
        Place::Comment => if byte == 10 {
            Place::Plain
        } else {
            Place::Comment
        },
        Place::Quoted(quote) => if byte == 92 {
            Place::Escaped(quote)
        } else if byte == quote {
            Place::Plain
        } else {
            Place::Quoted(quote)
        },
        Place::Escaped(quote) => Place::Quoted(quote),
    }
}

/// Finds how deeply messages are nested in a text.
pub fn text_nesting(text: &str) -> (r: usize)
    ensures
        r == nesting(text@),
{
    let bytes = text.as_bytes();
    let mut place: Place = Place::Plain;
    let mut open: usize = 0;
    let mut deepest: usize = 0;
    let mut i: usize = 0;
    while i < bytes.len()
        invariant
            i <= bytes@.len(),
            nesting_of(bytes@.take(i as int)) == (Nesting {
                place,
                open: open as nat,
                deepest: deepest as nat,
            }),
            open <= i,
        decreases bytes@.len() - i,
    {
        let byte: u8 = bytes[i];
        assert(bytes@.take(i + 1).drop_last() =~= bytes@.take(i as int));
        if place == Place::Plain {
            if byte == 60 || byte == 123 {
                open = open + 1;
            } else if (byte == 62 || byte == 125) && open > 0 {
                open = open - 1;
            }
        }
        if open > deepest {
            deepest = open;
        }
        place = next_place(place, byte);
        i = i + 1;
    }
    assert(bytes@.take(bytes@.len() as int) =~= bytes@);
    deepest
}

/// A message of prost-reflect.
#[verifier::external_type_specification]
#[verifier::external_body]
pub struct ExDynamicMessage(prost_reflect::DynamicMessage);

/// The value of a field.
pub enum Value {
    Number(u64),
    Flag(bool),
    Text(Seq<char>),
    /// The number of a value of an enumeration.
    Choice(i32),
    Message(Map<u32, Value>),
    Messages(Seq<Map<u32, Value>>),
    /// Anything else.
    Other,
}

/// The fields that are given in a message, by their numbers. Where the schema
/// does not tell zero, false, or empty from absent, such a field is not given.
pub uninterp spec fn contents(message: prost_reflect::DynamicMessage) -> Map<u32, Value>;

/// The fields of the message `sni_router.SNIConfig` that a text in text format
/// stands for; `None` where the text is not such a message.
pub uninterp spec fn config_message(text: Seq<char>) -> Option<Map<u32, Value>>;

/// Reads the schema with `prost_reflect::DescriptorPool::decode` and the text
/// with `prost_reflect::DynamicMessage::parse_text_format`.
///
/// Believed: under the schema of configurations, the outcome depends on the
/// text alone. Which fields a text gives is named, not said. The parser calls
/// itself once for each message that is open, which is why their number is
/// bounded.
#[verifier::external_body]
fn parse_message(schema_bytes: &[u8], name: &str, text: &str) -> (r: Option<
    prost_reflect::DynamicMessage,
>)
    requires
        schema_bytes@ == schema::schema(),
        name@ == "sni_router.SNIConfig"@,
        nesting(text@) <= MAX_NESTING,
    ensures
        (match r {
            Some(message) => Some(contents(message)),
            None => None,
        }) == config_message(text@),
{
    let pool = prost_reflect::DescriptorPool::decode(schema_bytes).ok()?;
    let descriptor = pool.get_message_by_name(name)?;
    prost_reflect::DynamicMessage::parse_text_format(descriptor, text).ok()
}

/// Asks with `prost_reflect::DynamicMessage::has_field_by_number`.
///
/// Believed: it says whether the field is given.
#[verifier::external_body]
fn has_field(message: &prost_reflect::DynamicMessage, number: u32) -> (r: bool)
    ensures
        r == contents(*message).contains_key(number),
{
    message.has_field_by_number(number)
}

/// The value of a field that is given once.
pub enum Field {
    Number(u64),
    Flag(bool),
    Text(String),
    Choice(i32),
    Message(prost_reflect::DynamicMessage),
    /// Anything else.
    Other,
}

/// Whether `field` is `value`.
pub open spec fn is_value(field: Field, value: Value) -> bool {
    match field {
        Field::Number(n) => value == Value::Number(n),
        Field::Flag(b) => value == Value::Flag(b),
        Field::Text(s) => value == Value::Text(s@),
        Field::Choice(n) => value == Value::Choice(n),
        Field::Message(m) => value == Value::Message(contents(m)),
        Field::Other => value is Messages || value is Other,
    }
}

/// Gets a field that is given with
/// `prost_reflect::DynamicMessage::get_field_by_number`.
///
/// Believed: it gives the field's value.
#[verifier::external_body]
fn field_at(message: &prost_reflect::DynamicMessage, number: u32) -> (r: Field)
    requires
        contents(*message).contains_key(number),
    ensures
        is_value(r, contents(*message)[number]),
{
    match message.get_field_by_number(number).as_deref() {
        Some(prost_reflect::Value::U64(n)) => Field::Number(*n),
        Some(prost_reflect::Value::Bool(b)) => Field::Flag(*b),
        Some(prost_reflect::Value::String(s)) => Field::Text(s.clone()),
        Some(prost_reflect::Value::EnumNumber(n)) => Field::Choice(*n),
        Some(prost_reflect::Value::Message(m)) => Field::Message(m.clone()),
        _ => Field::Other,
    }
}

/// The contents of messages.
pub open spec fn all_contents(messages: Seq<prost_reflect::DynamicMessage>) -> Seq<
    Map<u32, Value>,
> {
    messages.map_values(|message: prost_reflect::DynamicMessage| contents(message))
}

/// Gets a message out of a list that is given with
/// `prost_reflect::DynamicMessage::get_field_by_number`,
/// `prost_reflect::Value::as_list` and `prost_reflect::Value::as_message`.
///
/// Believed: it gives the message at that place, where the field's value is a
/// list of messages that reaches so far.
#[verifier::external_body]
fn message_at(message: &prost_reflect::DynamicMessage, number: u32, place: usize) -> (r: Option<
    prost_reflect::DynamicMessage,
>)
    requires
        contents(*message).contains_key(number),
    ensures
        match r {
            Some(item) => {
                &&& contents(*message)[number] matches Value::Messages(list)
                &&& place < list.len()
                &&& contents(item) == list[place as int]
            },
            None => contents(*message)[number] matches Value::Messages(list) ==> place
                >= list.len(),
        },
{
    message.get_field_by_number(number)?.as_list()?.get(place)?.as_message().cloned()
}

/// The number in a field; 0 where there is none.
pub open spec fn number_in(m: Map<u32, Value>, number: u32) -> u64 {
    match m[number] {
        Value::Number(n) if m.contains_key(number) => n,
        _ => 0,
    }
}

/// The flag in a field; false where there is none.
pub open spec fn flag_in(m: Map<u32, Value>, number: u32) -> bool {
    m.contains_key(number) && m[number] == Value::Flag(true)
}

/// The text in a field, if there is one.
pub open spec fn text_in(m: Map<u32, Value>, number: u32) -> Option<Seq<char>> {
    match m[number] {
        Value::Text(s) if m.contains_key(number) => Some(s),
        _ => None,
    }
}

/// The text in a field; empty where there is none.
pub open spec fn text_or_empty(m: Map<u32, Value>, number: u32) -> Seq<char> {
    match text_in(m, number) {
        Some(s) => s,
        None => Seq::empty(),
    }
}

/// What access control says in a field: nothing where there is none, or a
/// number that stands for nothing.
pub open spec fn action_in(m: Map<u32, Value>, number: u32) -> AclAction {
    if !m.contains_key(number) {
        AclAction::Unspecified
    } else if m[number] == Value::Choice(1) {
        AclAction::Accept
    } else if m[number] == Value::Choice(2) {
        AclAction::Drop
    } else if m[number] == Value::Choice(3) {
        AclAction::Continue
    } else {
        AclAction::Unspecified
    }
}

/// The message in a field, if there is one.
pub open spec fn message_in(m: Map<u32, Value>, number: u32) -> Option<Map<u32, Value>> {
    match m[number] {
        Value::Message(sub) if m.contains_key(number) => Some(sub),
        _ => None,
    }
}

/// The messages in a field.
pub open spec fn messages_in(m: Map<u32, Value>, number: u32) -> Seq<Map<u32, Value>> {
    match m[number] {
        Value::Messages(list) if m.contains_key(number) => list,
        _ => Seq::empty(),
    }
}

/// The TLS files that a field names.
pub open spec fn tls_in(m: Map<u32, Value>, number: u32) -> Option<TlsView> {
    match message_in(m, number) {
        None => None,
        Some(tls) => Some(
            TlsView { cert_file: text_or_empty(tls, 1), key_file: text_or_empty(tls, 2) },
        ),
    }
}

/// Where connections go: the first of the alternatives that is given.
pub open spec fn backend_type_of(m: Map<u32, Value>) -> Option<BackendTypeView> {
    if message_in(m, 1) is Some {
        Some(BackendTypeView::Null)
    } else {
        match (message_in(m, 2), message_in(m, 3)) {
            (Some(proxy), _) => Some(
                BackendTypeView::Proxy {
                    addr: text_or_empty(proxy, 1),
                    proxy_header: flag_in(proxy, 2),
                    frontend_tls: tls_in(proxy, 3),
                },
            ),
            (None, Some(pass)) => Some(
                BackendTypeView::Pass {
                    path: text_or_empty(pass, 1),
                    frontend_tls: tls_in(pass, 2),
                },
            ),
            (None, None) => None,
        }
    }
}

/// The fields of a message; none for anything else.
pub open spec fn fields_of(value: Value) -> Map<u32, Value> {
    match value {
        Value::Message(m) => m,
        _ => Map::empty(),
    }
}

/// The backend in a message.
pub open spec fn backend_of(value: Value) -> BackendConfigView
    decreases value,
{
    let m = fields_of(value);
    BackendConfigView {
        backend_type: backend_type_of(m),
        frontend_tls: tls_in(m, 4),
        sorry: if value is Message && m.contains_key(5) && m[5] is Message {
            Some(Box::new(backend_of(m[5])))
        } else {
            None
        },
    }
}

/// The rule for a network in a message.
pub open spec fn acl_rule_of(m: Map<u32, Value>) -> AclRuleConfigView {
    AclRuleConfigView { source: text_or_empty(m, 1), action: action_in(m, 2) }
}

/// The access control in a message.
pub open spec fn acl_of(m: Map<u32, Value>) -> AclConfigView {
    AclConfigView {
        rules: messages_in(m, 1).map_values(|rule: Map<u32, Value>| acl_rule_of(rule)),
        default_action: action_in(m, 2),
    }
}

/// The rule in a message.
pub open spec fn rule_of(m: Map<u32, Value>) -> RuleConfigView {
    RuleConfigView {
        regex: text_in(m, 1),
        acl: match message_in(m, 4) {
            None => None,
            Some(acl) => Some(acl_of(acl)),
        },
        max_lifetime_ms: number_in(m, 3),
        backend: match message_in(m, 2) {
            None => None,
            Some(backend) => Some(backend_of(Value::Message(backend))),
        },
    }
}

/// The configuration in a message.
pub open spec fn config_of(m: Map<u32, Value>) -> SniConfigView {
    SniConfigView {
        max_lifetime_ms: number_in(m, 3),
        handshake_timeout_ms: number_in(m, 4),
        rules: messages_in(m, 1).map_values(|rule: Map<u32, Value>| rule_of(rule)),
        default: match message_in(m, 2) {
            None => None,
            Some(rule) => Some(rule_of(rule)),
        },
    }
}

/// The configuration that a text stands for; `None` where it stands for none.
pub open spec fn config_in(text: Seq<char>) -> Option<SniConfigView> {
    if nesting(text) > MAX_NESTING {
        None
    } else {
        match config_message(text) {
            None => None,
            Some(m) => Some(config_of(m)),
        }
    }
}

fn read_number(message: &prost_reflect::DynamicMessage, number: u32) -> (r: u64)
    ensures
        r == number_in(contents(*message), number),
{
    if !has_field(message, number) {
        return 0;
    }
    match field_at(message, number) {
        Field::Number(n) => n,
        _ => 0,
    }
}

fn read_flag(message: &prost_reflect::DynamicMessage, number: u32) -> (r: bool)
    ensures
        r == flag_in(contents(*message), number),
{
    if !has_field(message, number) {
        return false;
    }
    match field_at(message, number) {
        Field::Flag(b) => b,
        _ => false,
    }
}

fn read_text(message: &prost_reflect::DynamicMessage, number: u32) -> (r: Option<String>)
    ensures
        (match r {
            Some(s) => Some(s@),
            None => None,
        }) == text_in(contents(*message), number),
{
    if !has_field(message, number) {
        return None;
    }
    match field_at(message, number) {
        Field::Text(s) => Some(s),
        _ => None,
    }
}

fn read_text_or_empty(message: &prost_reflect::DynamicMessage, number: u32) -> (r: String)
    ensures
        r@ == text_or_empty(contents(*message), number),
{
    match read_text(message, number) {
        Some(s) => s,
        None => {
            let empty = String::new();
            assert(empty@ =~= Seq::<char>::empty());
            empty
        },
    }
}

fn read_action(message: &prost_reflect::DynamicMessage, number: u32) -> (r: AclAction)
    ensures
        r == action_in(contents(*message), number),
{
    if !has_field(message, number) {
        return AclAction::Unspecified;
    }
    match field_at(message, number) {
        Field::Choice(1) => AclAction::Accept,
        Field::Choice(2) => AclAction::Drop,
        Field::Choice(3) => AclAction::Continue,
        _ => AclAction::Unspecified,
    }
}

fn read_message(message: &prost_reflect::DynamicMessage, number: u32) -> (r: Option<
    prost_reflect::DynamicMessage,
>)
    ensures
        (match r {
            Some(sub) => Some(contents(sub)),
            None => None,
        }) == message_in(contents(*message), number),
{
    if !has_field(message, number) {
        return None;
    }
    match field_at(message, number) {
        Field::Message(sub) => Some(sub),
        _ => None,
    }
}

fn read_messages(message: &prost_reflect::DynamicMessage, number: u32) -> (r: Vec<
    prost_reflect::DynamicMessage,
>)
    ensures
        all_contents(r@) == messages_in(contents(*message), number),
{
    let mut list: Vec<prost_reflect::DynamicMessage> = Vec::new();
    let ghost given = messages_in(contents(*message), number);
    assert(all_contents(list@) =~= Seq::<Map<u32, Value>>::empty());
    if !has_field(message, number) {
        return list;
    }
    assert(given.take(0) =~= Seq::<Map<u32, Value>>::empty());
    loop
        invariant
            contents(*message).contains_key(number),
            given == messages_in(contents(*message), number),
            list@.len() <= given.len(),
            all_contents(list@) == given.take(list@.len() as int),
        decreases given.len() - list@.len(),
    {
        let item = match message_at(message, number, list.len()) {
            Some(item) => item,
            None => {
                assert(given.take(list@.len() as int) =~= given);
                return list;
            },
        };
        let ghost before = list@;
        list.push(item);
        assert(all_contents(list@) =~= all_contents(before).push(contents(item)));
        assert(given.take(list@.len() as int) =~= given.take(before.len() as int).push(
            contents(item),
        ));
    }
}

fn read_tls(message: &prost_reflect::DynamicMessage, number: u32) -> (r: Option<TlsFiles>)
    ensures
        config::tls_view(r) == tls_in(contents(*message), number),
{
    match read_message(message, number) {
        Some(tls) => Some(
            TlsFiles {
                cert_file: read_text_or_empty(&tls, 1),
                key_file: read_text_or_empty(&tls, 2),
            },
        ),
        None => None,
    }
}

fn read_backend_type(message: &prost_reflect::DynamicMessage) -> (r: Option<BackendType>)
    ensures
        (match r {
            Some(be) => Some(be@),
            None => None,
        }) == backend_type_of(contents(*message)),
{
    if read_message(message, 1).is_some() {
        return Some(BackendType::Null);
    }
    if let Some(proxy) = read_message(message, 2) {
        return Some(
            BackendType::Proxy {
                addr: read_text_or_empty(&proxy, 1),
                proxy_header: read_flag(&proxy, 2),
                frontend_tls: read_tls(&proxy, 3),
            },
        );
    }
    match read_message(message, 3) {
        Some(pass) => Some(
            BackendType::Pass {
                path: read_text_or_empty(&pass, 1),
                frontend_tls: read_tls(&pass, 2),
            },
        ),
        None => None,
    }
}

fn read_backend(message: &prost_reflect::DynamicMessage) -> (r: BackendConfig)
    ensures
        r@ == backend_of(Value::Message(contents(*message))),
    decreases Value::Message(contents(*message)),
{
    let sorry = match read_message(message, 5) {
        Some(sub) => Some(Box::new(read_backend(&sub))),
        None => None,
    };
    BackendConfig {
        backend_type: read_backend_type(message),
        frontend_tls: read_tls(message, 4),
        sorry,
    }
}

fn read_acl(message: &prost_reflect::DynamicMessage) -> (r: AclConfig)
    ensures
        r@ == acl_of(contents(*message)),
{
    let list = read_messages(message, 1);
    let mut rules: Vec<AclRuleConfig> = Vec::new();
    let mut i: usize = 0;
    while i < list.len()
        invariant
            i <= list@.len(),
            rules@.len() == i,
            forall|j: int|
                0 <= j < i ==> (#[trigger] rules@[j])@ == acl_rule_of(contents(list@[j])),
        decreases list@.len() - i,
    {
        let rule = AclRuleConfig {
            source: read_text_or_empty(&list[i], 1),
            action: read_action(&list[i], 2),
        };
        rules.push(rule);
        i = i + 1;
    }
    let acl = AclConfig { rules, default_action: read_action(message, 2) };
    proof {
        let given = messages_in(contents(*message), 1);
        assert forall|j: int| 0 <= j < list@.len() implies #[trigger] given[j] == contents(
            list@[j],
        ) by {
            assert(given == all_contents(list@));
        }
        assert(acl@.rules =~= acl_of(contents(*message)).rules);
    }
    acl
}

fn read_rule(message: &prost_reflect::DynamicMessage) -> (r: RuleConfig)
    ensures
        r@ == rule_of(contents(*message)),
{
    let acl = match read_message(message, 4) {
        Some(acl) => Some(read_acl(&acl)),
        None => None,
    };
    let backend = match read_message(message, 2) {
        Some(backend) => Some(read_backend(&backend)),
        None => None,
    };
    RuleConfig {
        regex: read_text(message, 1),
        acl,
        max_lifetime_ms: read_number(message, 3),
        backend,
    }
}

/// Reads the configuration in a message.
fn read_config(message: &prost_reflect::DynamicMessage) -> (r: SniConfig)
    ensures
        r@ == config_of(contents(*message)),
{
    let list = read_messages(message, 1);
    let mut rules: Vec<RuleConfig> = Vec::new();
    let mut i: usize = 0;
    while i < list.len()
        invariant
            i <= list@.len(),
            rules@.len() == i,
            forall|j: int| 0 <= j < i ==> (#[trigger] rules@[j])@ == rule_of(contents(list@[j])),
        decreases list@.len() - i,
    {
        rules.push(read_rule(&list[i]));
        i = i + 1;
    }
    let default = match read_message(message, 2) {
        Some(rule) => Some(read_rule(&rule)),
        None => None,
    };
    let config = SniConfig {
        max_lifetime_ms: read_number(message, 3),
        handshake_timeout_ms: read_number(message, 4),
        rules,
        default,
    };
    proof {
        let given = messages_in(contents(*message), 1);
        assert forall|j: int| 0 <= j < list@.len() implies #[trigger] given[j] == contents(
            list@[j],
        ) by {
            assert(given == all_contents(list@));
        }
        assert(config@.rules =~= config_of(contents(*message)).rules);
    }
    config
}

/// Reads a configuration file. Gives `None` where the text does not follow the
/// schema, or nests more messages than [`MAX_NESTING`].
pub fn parse_config(text: &str) -> (r: Option<SniConfig>)
    ensures
        (match r {
            Some(pb) => Some(pb@),
            None => None,
        }) == config_in(text@),
{
    if text_nesting(text) > MAX_NESTING {
        return None;
    }
    match parse_message(config_schema().as_slice(), "sni_router.SNIConfig", text) {
        Some(message) => Some(read_config(&message)),
        None => None,
    }
}

/// A message with a field for a number, unless it is 0.
pub open spec fn with_number(m: Map<u32, Value>, number: u32, n: u64) -> Map<u32, Value> {
    if n == 0 {
        m
    } else {
        m.insert(number, Value::Number(n))
    }
}

/// A message with a field for a text, unless it is empty.
pub open spec fn with_text(m: Map<u32, Value>, number: u32, text: Seq<char>) -> Map<u32, Value> {
    if text.len() == 0 {
        m
    } else {
        m.insert(number, Value::Text(text))
    }
}

/// A message with a field for an action, unless it is unspecified: 1 stands for
/// letting clients through, 2 for turning them away, 3 for going on.
pub open spec fn with_action(m: Map<u32, Value>, number: u32, action: AclAction) -> Map<
    u32,
    Value,
> {
    match action {
        AclAction::Unspecified => m,
        AclAction::Accept => m.insert(number, Value::Choice(1)),
        AclAction::Drop => m.insert(number, Value::Choice(2)),
        AclAction::Continue => m.insert(number, Value::Choice(3)),
    }
}

/// A message with a field for messages, unless there are none.
pub open spec fn with_messages(m: Map<u32, Value>, number: u32, list: Seq<Map<u32, Value>>) -> Map<
    u32,
    Value,
> {
    if list.len() == 0 {
        m
    } else {
        m.insert(number, Value::Messages(list))
    }
}

/// A message with a field for TLS files, if there are any: the certificate in
/// field 1, the key in field 2.
pub open spec fn with_tls(m: Map<u32, Value>, number: u32, files: Option<TlsView>) -> Map<
    u32,
    Value,
> {
    match files {
        None => m,
        Some(files) => m.insert(
            number,
            Value::Message(
                with_text(with_text(Map::empty(), 1, files.cert_file), 2, files.key_file),
            ),
        ),
    }
}

/// A message with the field for where connections go, if it is said: 1 for
/// nowhere; 2 for a server with its address in field 1, whether it gets a PROXY
/// line in field 2, and TLS files in field 3; 3 for a socket with its path in
/// field 1 and TLS files in field 2.
pub open spec fn with_backend_type(m: Map<u32, Value>, be: Option<BackendTypeView>) -> Map<
    u32,
    Value,
> {
    match be {
        None => m,
        Some(BackendTypeView::Null) => m.insert(1, Value::Message(Map::empty())),
        Some(BackendTypeView::Proxy { addr, proxy_header, frontend_tls }) => {
            let named = with_text(Map::empty(), 1, addr);
            let flagged = if proxy_header {
                named.insert(2, Value::Flag(true))
            } else {
                named
            };
            m.insert(2, Value::Message(with_tls(flagged, 3, frontend_tls)))
        },
        Some(BackendTypeView::Pass { path, frontend_tls }) => m.insert(
            3,
            Value::Message(with_tls(with_text(Map::empty(), 1, path), 2, frontend_tls)),
        ),
    }
}

/// The message that gives a backend: beside where connections go, TLS files in
/// field 4 and the sorry server in field 5.
pub open spec fn backend_message(backend: BackendConfigView) -> Map<u32, Value>
    decreases backend,
{
    let m = with_tls(
        with_backend_type(Map::empty(), backend.backend_type),
        4,
        backend.frontend_tls,
    );
    match backend.sorry {
        None => m,
        Some(s) => m.insert(5, Value::Message(backend_message(*s))),
    }
}

/// The message that gives a rule for a network: its source in field 1 and its
/// action in field 2.
pub open spec fn acl_rule_message(rule: AclRuleConfigView) -> Map<u32, Value> {
    with_action(with_text(Map::empty(), 1, rule.source), 2, rule.action)
}

/// The message that gives access control: its rules in field 1 and the default
/// in field 2.
pub open spec fn acl_message(acl: AclConfigView) -> Map<u32, Value> {
    with_action(
        with_messages(
            Map::empty(),
            1,
            acl.rules.map_values(|rule: AclRuleConfigView| acl_rule_message(rule)),
        ),
        2,
        acl.default_action,
    )
}

/// The message that gives a rule: its regular expression in field 1, its backend
/// in field 2, its limit in field 3 and its access control in field 4.
pub open spec fn rule_message(rule: RuleConfigView) -> Map<u32, Value> {
    let named = match rule.regex {
        None => Map::empty(),
        Some(regex) => Map::empty().insert(1, Value::Text(regex)),
    };
    let backed = match rule.backend {
        None => named,
        Some(backend) => named.insert(2, Value::Message(backend_message(backend))),
    };
    let limited = with_number(backed, 3, rule.max_lifetime_ms);
    match rule.acl {
        None => limited,
        Some(acl) => limited.insert(4, Value::Message(acl_message(acl))),
    }
}

/// The message that gives a configuration: its rules in field 1, its default
/// rule in field 2, and its two limits in fields 3 and 4.
pub open spec fn message_of(pb: SniConfigView) -> Map<u32, Value> {
    let ruled = with_messages(
        Map::empty(),
        1,
        pb.rules.map_values(|rule: RuleConfigView| rule_message(rule)),
    );
    let defaulted = match pb.default {
        None => ruled,
        Some(rule) => ruled.insert(2, Value::Message(rule_message(rule))),
    };
    with_number(with_number(defaulted, 3, pb.max_lifetime_ms), 4, pb.handshake_timeout_ms)
}

proof fn lemma_text_reads_back(m: Map<u32, Value>, number: u32, text: Seq<char>)
    requires
        !m.contains_key(number),
    ensures
        text_or_empty(with_text(m, number, text), number) == text,
{
    if text.len() == 0 {
        assert(text =~= Seq::<char>::empty());
    }
}

proof fn lemma_tls_reads_back(m: Map<u32, Value>, number: u32, files: Option<TlsView>)
    requires
        !m.contains_key(number),
    ensures
        tls_in(with_tls(m, number, files), number) == files,
{
    if let Some(files) = files {
        let empty = Map::<u32, Value>::empty();
        let one = with_text(empty, 1, files.cert_file);
        lemma_text_reads_back(empty, 1, files.cert_file);
        lemma_text_reads_back(one, 2, files.key_file);
        let both = with_text(one, 2, files.key_file);
        assert(text_or_empty(both, 1) == text_or_empty(one, 1));
    }
}

proof fn lemma_backend_type_reads_back(be: Option<BackendTypeView>)
    ensures
        backend_type_of(with_backend_type(Map::empty(), be)) == be,
{
    let empty = Map::<u32, Value>::empty();
    match be {
        None => {},
        Some(BackendTypeView::Null) => {},
        Some(BackendTypeView::Proxy { addr, proxy_header, frontend_tls }) => {
            let named = with_text(empty, 1, addr);
            let flagged = if proxy_header {
                named.insert(2, Value::Flag(true))
            } else {
                named
            };
            lemma_text_reads_back(empty, 1, addr);
            lemma_tls_reads_back(flagged, 3, frontend_tls);
            let all = with_tls(flagged, 3, frontend_tls);
            assert(text_or_empty(all, 1) == text_or_empty(named, 1));
            assert(flag_in(all, 2) == proxy_header);
        },
        Some(BackendTypeView::Pass { path, frontend_tls }) => {
            let named = with_text(empty, 1, path);
            lemma_text_reads_back(empty, 1, path);
            lemma_tls_reads_back(named, 2, frontend_tls);
            let all = with_tls(named, 2, frontend_tls);
            assert(text_or_empty(all, 1) == text_or_empty(named, 1));
        },
    }
}

proof fn lemma_backend_reads_back(backend: BackendConfigView)
    ensures
        backend_of(Value::Message(backend_message(backend))) == backend,
    decreases backend,
{
    let kind = with_backend_type(Map::empty(), backend.backend_type);
    let tls = with_tls(kind, 4, backend.frontend_tls);
    let m = backend_message(backend);
    lemma_backend_type_reads_back(backend.backend_type);
    lemma_tls_reads_back(kind, 4, backend.frontend_tls);
    assert(forall|n: u32| n != 5 ==> m.contains_key(n) == tls.contains_key(n) && (m.contains_key(n)
        ==> m[n] == tls[n]));
    assert(forall|n: u32|
        n != 4 ==> tls.contains_key(n) == kind.contains_key(n) && (tls.contains_key(n) ==> tls[n]
            == kind[n]));
    assert(message_in(m, 1) == message_in(kind, 1));
    assert(message_in(m, 2) == message_in(kind, 2));
    assert(message_in(m, 3) == message_in(kind, 3));
    assert(message_in(m, 4) == message_in(tls, 4));
    if let Some(s) = backend.sorry {
        lemma_backend_reads_back(*s);
    }
}

proof fn lemma_acl_rule_reads_back(rule: AclRuleConfigView)
    ensures
        acl_rule_of(acl_rule_message(rule)) == rule,
{
    let empty = Map::<u32, Value>::empty();
    let named = with_text(empty, 1, rule.source);
    lemma_text_reads_back(empty, 1, rule.source);
    let all = with_action(named, 2, rule.action);
    assert(text_or_empty(all, 1) == text_or_empty(named, 1));
}

proof fn lemma_acl_reads_back(acl: AclConfigView)
    ensures
        acl_of(acl_message(acl)) == acl,
{
    let list = acl.rules.map_values(|rule: AclRuleConfigView| acl_rule_message(rule));
    let read = acl_of(acl_message(acl)).rules;
    assert forall|i: int| 0 <= i < acl.rules.len() implies acl_rule_of(list[i])
        == #[trigger] acl.rules[i] by {
        lemma_acl_rule_reads_back(acl.rules[i]);
    }
    if list.len() == 0 {
        assert(read =~= acl.rules);
    } else {
        assert(messages_in(acl_message(acl), 1) == list);
        assert(read =~= acl.rules);
    }
}

proof fn lemma_rule_reads_back(rule: RuleConfigView)
    ensures
        rule_of(rule_message(rule)) == rule,
{
    if let Some(backend) = rule.backend {
        lemma_backend_reads_back(backend);
    }
    if let Some(acl) = rule.acl {
        lemma_acl_reads_back(acl);
    }
}

/// Reading a message gives back the configuration that the message was made
/// from, with all of its rules in order and all that they hold.
pub proof fn lemma_message_reads_back(pb: SniConfigView)
    ensures
        config_of(message_of(pb)) == pb,
{
    let list = pb.rules.map_values(|rule: RuleConfigView| rule_message(rule));
    let read = config_of(message_of(pb)).rules;
    assert forall|i: int| 0 <= i < pb.rules.len() implies rule_of(list[i])
        == #[trigger] pb.rules[i] by {
        lemma_rule_reads_back(pb.rules[i]);
    }
    if let Some(rule) = pb.default {
        lemma_rule_reads_back(rule);
    }
    if list.len() > 0 {
        assert(messages_in(message_of(pb), 1) == list);
    }
    assert(read =~= pb.rules);
}

/// How many of the bytes of a text are `<` (60) or `{` (123).
pub open spec fn brackets(text: Seq<u8>) -> nat
    decreases text.len(),
{
    if text.len() == 0 {
        0
    } else {
        brackets(text.drop_last()) + if text.last() == 60 || text.last() == 123 {
            1nat
        } else {
            0
        }
    }
}

proof fn lemma_no_deeper_than_brackets(text: Seq<u8>)
    ensures
        nesting_of(text).deepest <= brackets(text),
        nesting_of(text).open <= brackets(text),
    decreases text.len(),
{
    if text.len() > 0 {
        lemma_no_deeper_than_brackets(text.drop_last());
    }
}

/// No text with at most 32 opening brackets is refused for its nesting: it
/// stands for the configuration in the message that it stands for.
pub proof fn lemma_few_brackets_are_read(text: Seq<char>)
    requires
        brackets(vstd::utf8::encode_utf8(text)) <= 32,
    ensures
        config_in(text) == (match config_message(text) {
            None => None,
            Some(m) => Some(config_of(m)),
        }),
{
    lemma_no_deeper_than_brackets(vstd::utf8::encode_utf8(text));
}

/// Whether a byte is neither a bracket, nor a quote, nor the start of a comment.
pub open spec fn is_plain(byte: u8) -> bool {
    byte != 60 && byte != 62 && byte != 123 && byte != 125 && byte != 34 && byte != 39 && byte != 35
}

/// A start and further texts, each behind an opening bracket.
pub open spec fn opened(start: Seq<u8>, parts: Seq<Seq<u8>>, brace: bool) -> Seq<u8>
    decreases parts.len(),
{
    if parts.len() == 0 {
        start
    } else {
        opened(start, parts.drop_last(), brace) + seq![
            if brace {
                123u8
            } else {
                60
            },
        ] + parts.last()
    }
}

proof fn lemma_plain_keeps_nesting(before: Seq<u8>, part: Seq<u8>)
    requires
        nesting_of(before).place == Place::Plain,
        forall|i: int| 0 <= i < part.len() ==> is_plain(#[trigger] part[i]),
    ensures
        nesting_of(before + part).place == Place::Plain,
        nesting_of(before + part).open == nesting_of(before).open,
        nesting_of(before + part).deepest >= nesting_of(before).deepest,
    decreases part.len(),
{
    if part.len() == 0 {
        assert(before + part =~= before);
    } else {
        let start = part.drop_last();
        assert forall|i: int| 0 <= i < start.len() implies is_plain(#[trigger] start[i]) by {
            assert(is_plain(part[i]));
        }
        lemma_plain_keeps_nesting(before, start);
        assert((before + part).drop_last() =~= before + start);
        assert(is_plain(part[part.len() - 1]));
    }
}

proof fn lemma_opened_nests(start: Seq<u8>, parts: Seq<Seq<u8>>, brace: bool)
    requires
        forall|i: int| 0 <= i < start.len() ==> is_plain(#[trigger] start[i]),
        forall|i: int, j: int|
            0 <= i < parts.len() && 0 <= j < parts[i].len() ==> is_plain(#[trigger] parts[i][j]),
    ensures
        nesting_of(opened(start, parts, brace)).place == Place::Plain,
        nesting_of(opened(start, parts, brace)).open == parts.len(),
        nesting_of(opened(start, parts, brace)).deepest >= parts.len(),
    decreases parts.len(),
{
    if parts.len() == 0 {
        lemma_plain_keeps_nesting(Seq::empty(), start);
        assert(Seq::<u8>::empty() + start =~= start);
    } else {
        let rest = parts.drop_last();
        let last = parts.last();
        assert forall|i: int, j: int|
            0 <= i < rest.len() && 0 <= j < rest[i].len() implies is_plain(
            #[trigger] rest[i][j],
        ) by {
            assert(is_plain(parts[i][j]));
        }
        lemma_opened_nests(start, rest, brace);
        let bracket = if brace {
            123u8
        } else {
            60
        };
        let before = opened(start, rest, brace);
        let with = before + seq![bracket];
        assert(with.drop_last() =~= before);
        assert(with.last() == bracket);
        assert forall|j: int| 0 <= j < last.len() implies is_plain(#[trigger] last[j]) by {
            assert(is_plain(parts[parts.len() - 1][j]));
        }
        lemma_plain_keeps_nesting(with, last);
    }
}

proof fn lemma_deepest_stays(text: Seq<u8>, more: Seq<u8>)
    ensures
        nesting_of(text + more).deepest >= nesting_of(text).deepest,
    decreases more.len(),
{
    if more.len() == 0 {
        assert(text + more =~= text);
    } else {
        lemma_deepest_stays(text, more.drop_last());
        assert((text + more).drop_last() =~= text + more.drop_last());
    }
}

/// A text that opens more than 32 messages within each other is refused,
/// whatever stands between the brackets and behind them.
pub proof fn lemma_many_open_messages_are_refused(
    text: Seq<char>,
    start: Seq<u8>,
    parts: Seq<Seq<u8>>,
    brace: bool,
    more: Seq<u8>,
)
    requires
        parts.len() > 32,
        forall|i: int| 0 <= i < start.len() ==> is_plain(#[trigger] start[i]),
        forall|i: int, j: int|
            0 <= i < parts.len() && 0 <= j < parts[i].len() ==> is_plain(#[trigger] parts[i][j]),
        vstd::utf8::encode_utf8(text) == opened(start, parts, brace) + more,
    ensures
        config_in(text) is None,
{
    lemma_opened_nests(start, parts, brace);
    lemma_deepest_stays(opened(start, parts, brace), more);
}

/// Comments do not count: behind any text that is not within a comment or a
/// string, a comment changes nothing.
pub proof fn lemma_comments_do_not_count(text: Seq<u8>, comment: Seq<u8>)
    requires
        nesting_of(text).place == Place::Plain,
        !comment.contains(10),
    ensures
        nesting_of(text + seq![35u8] + comment + seq![10u8]) == nesting_of(text),
{
    lemma_within_comment(text, comment);
    lemma_one_byte_more(text + seq![35u8] + comment, 10);
}

proof fn lemma_one_byte_more(text: Seq<u8>, byte: u8)
    ensures
        nesting_of(text + seq![byte]) == nesting_after(nesting_of(text), byte),
{
    let longer = text + seq![byte];
    assert(longer.drop_last() =~= text);
    assert(longer.last() == byte);
}

proof fn lemma_within_comment(text: Seq<u8>, comment: Seq<u8>)
    requires
        nesting_of(text).place == Place::Plain,
        !comment.contains(10),
    ensures
        nesting_of(text + seq![35u8] + comment) == (Nesting {
            place: Place::Comment,
            ..nesting_of(text)
        }),
    decreases comment.len(),
{
    if comment.len() == 0 {
        assert(text + seq![35u8] + comment =~= text + seq![35u8]);
        lemma_deepest_is_reached(text);
        lemma_one_byte_more(text, 35);
    } else {
        let rest = comment.drop_last();
        assert forall|i: int| 0 <= i < rest.len() implies rest[i] != 10 by {
            assert(comment.contains(comment[i]));
        }
        lemma_within_comment(text, rest);
        assert(comment.contains(comment.last()));
        assert(text + seq![35u8] + comment =~= text + seq![35u8] + rest + seq![comment.last()]);
        lemma_deepest_is_reached(text);
        lemma_one_byte_more(text + seq![35u8] + rest, comment.last());
    }
}

proof fn lemma_deepest_is_reached(text: Seq<u8>)
    ensures
        nesting_of(text).open <= nesting_of(text).deepest,
    decreases text.len(),
{
    if text.len() > 0 {
        lemma_deepest_is_reached(text.drop_last());
    }
}

/// What can stand in a string: bytes other than its quote and the backslash, and
/// any byte behind a backslash.
pub open spec fn can_be_quoted(content: Seq<u8>, quote: u8) -> bool
    decreases content.len(),
{
    if content.len() == 0 {
        true
    } else if content.len() >= 2 && content[content.len() - 2] == 92 && can_be_quoted(
        content.take(content.len() - 2),
        quote,
    ) {
        true
    } else {
        content.last() != quote && content.last() != 92 && can_be_quoted(
            content.drop_last(),
            quote,
        )
    }
}

/// Strings do not count: behind any text that is not within a comment or a
/// string, a string changes nothing.
pub proof fn lemma_strings_do_not_count(text: Seq<u8>, quote: u8, content: Seq<u8>)
    requires
        nesting_of(text).place == Place::Plain,
        quote == 34 || quote == 39,
        can_be_quoted(content, quote),
    ensures
        nesting_of(text + seq![quote] + content + seq![quote]) == nesting_of(text),
{
    lemma_within_string(text, quote, content);
    lemma_deepest_is_reached(text);
    lemma_one_byte_more(text + seq![quote] + content, quote);
}

proof fn lemma_within_string(text: Seq<u8>, quote: u8, content: Seq<u8>)
    requires
        nesting_of(text).place == Place::Plain,
        quote == 34 || quote == 39,
        can_be_quoted(content, quote),
    ensures
        nesting_of(text + seq![quote] + content) == (Nesting {
            place: Place::Quoted(quote),
            ..nesting_of(text)
        }),
    decreases content.len(),
{
    lemma_deepest_is_reached(text);
    let start = text + seq![quote];
    let n = content.len() as int;
    if n == 0 {
        assert(start + content =~= start);
        lemma_one_byte_more(text, quote);
    } else if n >= 2 && content[n - 2] == 92 && can_be_quoted(content.take(n - 2), quote) {
        let rest = content.take(n - 2);
        lemma_within_string(text, quote, rest);
        lemma_one_byte_more(start + rest, 92);
        lemma_one_byte_more(start + rest + seq![92u8], content.last());
        assert(start + content =~= start + rest + seq![92u8] + seq![content.last()]);
    } else {
        let rest = content.drop_last();
        lemma_within_string(text, quote, rest);
        lemma_one_byte_more(start + rest, content.last());
        assert(start + content =~= start + rest + seq![content.last()]);
    }
}

/// Outside comments and strings, each bracket that opens a message makes one more
/// open, each that closes one makes one fewer if any is open, and no other byte
/// changes that; the most that have been open at once is what is counted.
pub proof fn lemma_brackets_count(text: Seq<u8>, byte: u8)
    requires
        nesting_of(text).place == Place::Plain,
    ensures
        ({
            let before = nesting_of(text);
            let after = nesting_of(text + seq![byte]);
            &&& byte == 60 || byte == 123 ==> after.open == before.open + 1
            &&& byte == 62 || byte == 125 ==> after.open == before.open - 1 || (before.open == 0
                && after.open == 0)
            &&& byte != 60 && byte != 123 && byte != 62 && byte != 125 ==> after.open
                == before.open
            &&& after.open <= after.deepest
            &&& before.deepest <= after.deepest
            &&& after.deepest == before.deepest || after.deepest == after.open
        }),
{
    lemma_deepest_is_reached(text);
    lemma_one_byte_more(text, byte);
}

} // verus!
