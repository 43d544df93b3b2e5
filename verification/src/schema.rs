//! The schema of configuration files.
//!
//! A configuration is written as a protobuf message in text format. The schema
//! of that message is made here.

use vstd::prelude::*;

verus! {

/// A number in protobuf's variable-length form.
pub open spec fn varint(n: nat) -> Seq<u8>
    decreases n,
{
    if n < 128 {
        seq![n as u8]
    } else {
        seq![(128 + n % 128) as u8] + varint(n / 128)
    }
}

/// A length-delimited field.
pub open spec fn field(tag: u8, body: Seq<u8>) -> Seq<u8> {
    seq![tag] + varint(body.len()) + body
}

/// A text field.
pub open spec fn text_field(tag: u8, text: Seq<char>) -> Seq<u8> {
    field(tag, vstd::utf8::encode_utf8(text))
}

fn push_varint(out: &mut Vec<u8>, n: usize)
    ensures
        final(out)@ == old(out)@ + varint(n as nat),
    decreases n,
{
    let ghost before = out@;
    if n < 128 {
        out.push(n as u8);
        assert(out@ =~= before + varint(n as nat));
    } else {
        out.push((128 + n % 128) as u8);
        let ghost first = out@;
        push_varint(out, n / 128);
        assert(first + varint(n as nat / 128) =~= before + varint(n as nat));
    }
}

fn push_field(out: &mut Vec<u8>, tag: u8, body: &[u8])
    ensures
        final(out)@ == old(out)@ + field(tag, body@),
{
    let ghost before = out@;
    out.push(tag);
    push_varint(out, body.len());
    out.extend_from_slice(body);
    assert(out@ =~= before + field(tag, body@));
}

fn push_text(out: &mut Vec<u8>, tag: u8, text: &str)
    ensures
        final(out)@ == old(out)@ + text_field(tag, text@),
{
    push_field(out, tag, text.as_bytes());
}

/// What a field of a message holds.
#[derive(Clone, Copy)]
pub enum Kind<'a> {
    Number,
    Flag,
    Text,
    Message(&'a str),
    Choice(&'a str),
}

/// The type of a field, as descriptors number them.
pub open spec fn kind_number(kind: Kind) -> u8 {
    match kind {
        Kind::Number => 4,
        Kind::Flag => 8,
        Kind::Text => 9,
        Kind::Message(_) => 11,
        Kind::Choice(_) => 14,
    }
}

/// How often a field of a message can be given.
#[derive(Clone, Copy, PartialEq, Eq, Structural)]
pub enum Occurrence {
    /// Once at most. Not giving a number, flag or text is giving zero, false or
    /// the empty text.
    Single,
    /// Once at most. Not giving it differs from giving anything.
    Optional,
    /// Any number of times.
    Repeated,
    /// Once at most, and only if none of the message's other alternatives is
    /// given.
    Alternative,
}

/// The label of a field, as descriptors number them: repeated or not.
pub open spec fn label_number(occurrence: Occurrence) -> u8 {
    if occurrence == Occurrence::Repeated {
        3
    } else {
        1
    }
}

/// The name of the type of a field, where it has one.
pub open spec fn type_field(kind: Kind) -> Seq<u8> {
    match kind {
        Kind::Message(of) => text_field(0x32, of@),
        Kind::Choice(of) => text_field(0x32, of@),
        _ => Seq::empty(),
    }
}

/// The group of fields of which one at most is given. An optional field is the
/// only one of its group.
pub open spec fn group_field(occurrence: Occurrence) -> Seq<u8> {
    match occurrence {
        Occurrence::Optional => seq![0x48, 0, 0x88, 0x01, 1],
        Occurrence::Alternative => seq![0x48, 0],
        _ => Seq::empty(),
    }
}

/// A field of a message.
#[derive(Clone, Copy)]
pub struct Member<'a> {
    pub name: &'a str,
    pub number: u8,
    pub occurrence: Occurrence,
    pub kind: Kind<'a>,
}

/// The number, label and type of a member.
pub open spec fn member_numbers(m: Member) -> Seq<u8> {
    seq![0x18, m.number, 0x20, label_number(m.occurrence), 0x28, kind_number(m.kind)]
}

/// The descriptor of a member: its name, number, label, type and group.
pub open spec fn member_descriptor(m: Member) -> Seq<u8> {
    text_field(0x0a, m.name@) + member_numbers(m) + type_field(m.kind) + group_field(m.occurrence)
}

/// The fields of a message descriptor.
pub open spec fn members_descriptor(members: Seq<Member>) -> Seq<u8>
    decreases members.len(),
{
    if members.len() == 0 {
        Seq::empty()
    } else {
        members_descriptor(members.drop_last()) + field(0x12, member_descriptor(members.last()))
    }
}

/// The descriptor of a message, up to what is nested in it.
pub open spec fn message_start(name: Seq<char>, members: Seq<Member>) -> Seq<u8> {
    text_field(0x0a, name) + members_descriptor(members)
}

fn push_numbers(out: &mut Vec<u8>, m: Member)
    ensures
        final(out)@ == old(out)@ + member_numbers(m),
{
    let label: u8 = if m.occurrence == Occurrence::Repeated {
        3
    } else {
        1
    };
    let kind: u8 = match m.kind {
        Kind::Number => 4,
        Kind::Flag => 8,
        Kind::Text => 9,
        Kind::Message(_) => 11,
        Kind::Choice(_) => 14,
    };
    out.push(0x18);
    out.push(m.number);
    out.push(0x20);
    out.push(label);
    out.push(0x28);
    out.push(kind);
    assert(out@ =~= old(out)@ + member_numbers(m));
}

fn push_type(out: &mut Vec<u8>, kind: Kind)
    ensures
        final(out)@ == old(out)@ + type_field(kind),
{
    match kind {
        Kind::Message(of) => push_text(out, 0x32, of),
        Kind::Choice(of) => push_text(out, 0x32, of),
        _ => {
            assert(out@ =~= old(out)@ + type_field(kind));
        },
    }
}

fn push_group(out: &mut Vec<u8>, occurrence: Occurrence)
    ensures
        final(out)@ == old(out)@ + group_field(occurrence),
{
    match occurrence {
        Occurrence::Optional => {
            out.push(0x48);
            out.push(0);
            out.push(0x88);
            out.push(0x01);
            out.push(1);
        },
        Occurrence::Alternative => {
            out.push(0x48);
            out.push(0);
        },
        _ => {},
    }
    assert(out@ =~= old(out)@ + group_field(occurrence));
}

fn describe_member(m: Member) -> (r: Vec<u8>)
    ensures
        r@ == member_descriptor(m),
{
    let mut out: Vec<u8> = Vec::new();
    push_text(&mut out, 0x0a, m.name);
    assert(out@ =~= text_field(0x0a, m.name@));
    push_numbers(&mut out, m);
    push_type(&mut out, m.kind);
    push_group(&mut out, m.occurrence);
    out
}

fn describe_message(name: &str, members: &[Member]) -> (r: Vec<u8>)
    ensures
        r@ == message_start(name@, members@),
{
    let mut out: Vec<u8> = Vec::new();
    push_text(&mut out, 0x0a, name);
    let ghost head = out@;
    assert(head =~= text_field(0x0a, name@));
    let mut i: usize = 0;
    assert(out@ =~= head + members_descriptor(members@.take(0)));
    while i < members.len()
        invariant
            i <= members@.len(),
            out@ == head + members_descriptor(members@.take(i as int)),
        decreases members@.len() - i,
    {
        let ghost before = out@;
        let member = describe_member(members[i]);
        push_field(&mut out, 0x12, member.as_slice());
        proof {
            let next = members@.take(i + 1);
            assert(next.drop_last() =~= members@.take(i as int));
            assert(out@ =~= head + members_descriptor(next));
        }
        i = i + 1;
    }
    assert(members@.take(members@.len() as int) =~= members@);
    out
}

/// The member with the given properties.
pub open spec fn member_of<'a>(
    name: &'a str,
    number: u8,
    occurrence: Occurrence,
    kind: Kind<'a>,
) -> Member<'a> {
    Member { name, number, occurrence, kind }
}

fn member<'a>(name: &'a str, number: u8, occurrence: Occurrence, kind: Kind<'a>) -> (r: Member<'a>)
    ensures
        r == member_of(name, number, occurrence, kind),
{
    Member { name, number, occurrence, kind }
}

/// The fields of a configuration.
pub open spec fn config_members() -> Seq<Member<'static>> {
    seq![
        member_of("rules", 1, Occurrence::Repeated, Kind::Message(".sni_router.Rule")),
        member_of("default", 2, Occurrence::Single, Kind::Message(".sni_router.Rule")),
        member_of("max_lifetime_ms", 3, Occurrence::Single, Kind::Number),
        member_of("handshake_timeout_ms", 4, Occurrence::Single, Kind::Number),
    ]
}

/// The fields of a rule.
pub open spec fn rule_members() -> Seq<Member<'static>> {
    seq![
        member_of("regex", 1, Occurrence::Optional, Kind::Text),
        member_of("backend", 2, Occurrence::Single, Kind::Message(".sni_router.Backend")),
        member_of("max_lifetime_ms", 3, Occurrence::Single, Kind::Number),
        member_of("acl", 4, Occurrence::Single, Kind::Message(".sni_router.Acl")),
    ]
}

/// The fields of access control.
pub open spec fn acl_members() -> Seq<Member<'static>> {
    seq![
        member_of("rules", 1, Occurrence::Repeated, Kind::Message(".sni_router.AclRule")),
        member_of("default_action", 2, Occurrence::Single, Kind::Choice(".sni_router.AclAction")),
    ]
}

/// The fields of a rule for a network.
pub open spec fn acl_rule_members() -> Seq<Member<'static>> {
    seq![
        member_of("source", 1, Occurrence::Single, Kind::Text),
        member_of("action", 2, Occurrence::Single, Kind::Choice(".sni_router.AclAction")),
    ]
}

/// The fields of a backend.
pub open spec fn backend_members() -> Seq<Member<'static>> {
    seq![
        member_of("null", 1, Occurrence::Alternative, Kind::Message(".sni_router.Backend.Null")),
        member_of("proxy", 2, Occurrence::Alternative, Kind::Message(".sni_router.Backend.Proxy")),
        member_of("pass", 3, Occurrence::Alternative, Kind::Message(".sni_router.Backend.Pass")),
        member_of("frontend_tls", 4, Occurrence::Single, Kind::Message(".sni_router.Backend.Tls")),
        member_of("sorry", 5, Occurrence::Single, Kind::Message(".sni_router.Backend")),
    ]
}

/// The fields of a backend that is connected to.
pub open spec fn proxy_members() -> Seq<Member<'static>> {
    seq![
        member_of("addr", 1, Occurrence::Single, Kind::Text),
        member_of("proxy_header", 2, Occurrence::Single, Kind::Flag),
        member_of("frontend_tls", 3, Occurrence::Single, Kind::Message(".sni_router.Backend.Tls")),
    ]
}

/// The fields of a backend that is handed the socket.
pub open spec fn pass_members() -> Seq<Member<'static>> {
    seq![
        member_of("path", 1, Occurrence::Single, Kind::Text),
        member_of("frontend_tls", 2, Occurrence::Single, Kind::Message(".sni_router.Backend.Tls")),
    ]
}

/// The files of a TLS certificate and its key.
pub open spec fn tls_members() -> Seq<Member<'static>> {
    seq![
        member_of("cert_file", 1, Occurrence::Single, Kind::Text),
        member_of("key_file", 2, Occurrence::Single, Kind::Text),
    ]
}

/// The descriptor of a backend.
pub open spec fn backend_descriptor() -> Seq<u8> {
    message_start("Backend"@, backend_members()) + field(
        0x1a,
        message_start("Null"@, Seq::empty()),
    ) + field(0x1a, message_start("Proxy"@, proxy_members())) + field(
        0x1a,
        message_start("Pass"@, pass_members()),
    ) + field(0x1a, message_start("Tls"@, tls_members())) + field(
        0x42,
        text_field(0x0a, "backend_type"@),
    )
}

/// The descriptor of a rule.
pub open spec fn rule_descriptor() -> Seq<u8> {
    message_start("Rule"@, rule_members()) + field(0x42, text_field(0x0a, "_regex"@))
}

/// The descriptor of a value of an enumeration.
pub open spec fn value_descriptor(name: Seq<char>, number: u8) -> Seq<u8> {
    text_field(0x0a, name) + seq![0x10, number]
}

/// The descriptor of what access control can say.
pub open spec fn action_descriptor() -> Seq<u8> {
    text_field(0x0a, "AclAction"@) + field(0x12, value_descriptor("UNSPECIFIED"@, 0)) + field(
        0x12,
        value_descriptor("ACCEPT"@, 1),
    ) + field(0x12, value_descriptor("DROP"@, 2)) + field(
        0x12,
        value_descriptor("CONTINUE"@, 3),
    )
}

/// The descriptor of the file with all messages.
pub open spec fn file_descriptor() -> Seq<u8> {
    text_field(0x0a, "sni_router.proto"@) + text_field(0x12, "sni_router"@) + field(
        0x22,
        message_start("SNIConfig"@, config_members()),
    ) + field(0x22, rule_descriptor()) + field(
        0x22,
        message_start("Acl"@, acl_members()),
    ) + field(0x22, message_start("AclRule"@, acl_rule_members())) + field(
        0x22,
        backend_descriptor(),
    ) + field(0x2a, action_descriptor()) + text_field(0x62, "proto3"@)
}

/// The schema of configurations: a set of one file descriptor.
pub open spec fn schema() -> Seq<u8> {
    field(0x0a, file_descriptor())
}

fn describe_backend() -> (r: Vec<u8>)
    ensures
        r@ == backend_descriptor(),
{
    let backend = vec![
        member("null", 1, Occurrence::Alternative, Kind::Message(".sni_router.Backend.Null")),
        member("proxy", 2, Occurrence::Alternative, Kind::Message(".sni_router.Backend.Proxy")),
        member("pass", 3, Occurrence::Alternative, Kind::Message(".sni_router.Backend.Pass")),
        member("frontend_tls", 4, Occurrence::Single, Kind::Message(".sni_router.Backend.Tls")),
        member("sorry", 5, Occurrence::Single, Kind::Message(".sni_router.Backend")),
    ];
    assert(backend@ =~= backend_members());
    let proxy = vec![
        member("addr", 1, Occurrence::Single, Kind::Text),
        member("proxy_header", 2, Occurrence::Single, Kind::Flag),
        member("frontend_tls", 3, Occurrence::Single, Kind::Message(".sni_router.Backend.Tls")),
    ];
    assert(proxy@ =~= proxy_members());
    let pass = vec![
        member("path", 1, Occurrence::Single, Kind::Text),
        member("frontend_tls", 2, Occurrence::Single, Kind::Message(".sni_router.Backend.Tls")),
    ];
    assert(pass@ =~= pass_members());
    let tls = vec![
        member("cert_file", 1, Occurrence::Single, Kind::Text),
        member("key_file", 2, Occurrence::Single, Kind::Text),
    ];
    assert(tls@ =~= tls_members());
    let none: Vec<Member> = Vec::new();
    assert(none@ =~= Seq::<Member>::empty());
    let mut group: Vec<u8> = Vec::new();
    push_text(&mut group, 0x0a, "backend_type");
    assert(group@ =~= text_field(0x0a, "backend_type"@));
    let mut out = describe_message("Backend", backend.as_slice());
    push_field(&mut out, 0x1a, describe_message("Null", none.as_slice()).as_slice());
    push_field(&mut out, 0x1a, describe_message("Proxy", proxy.as_slice()).as_slice());
    push_field(&mut out, 0x1a, describe_message("Pass", pass.as_slice()).as_slice());
    push_field(&mut out, 0x1a, describe_message("Tls", tls.as_slice()).as_slice());
    push_field(&mut out, 0x42, group.as_slice());
    out
}

fn describe_rule() -> (r: Vec<u8>)
    ensures
        r@ == rule_descriptor(),
{
    let rule = vec![
        member("regex", 1, Occurrence::Optional, Kind::Text),
        member("backend", 2, Occurrence::Single, Kind::Message(".sni_router.Backend")),
        member("max_lifetime_ms", 3, Occurrence::Single, Kind::Number),
        member("acl", 4, Occurrence::Single, Kind::Message(".sni_router.Acl")),
    ];
    assert(rule@ =~= rule_members());
    let mut group: Vec<u8> = Vec::new();
    push_text(&mut group, 0x0a, "_regex");
    assert(group@ =~= text_field(0x0a, "_regex"@));
    let mut out = describe_message("Rule", rule.as_slice());
    push_field(&mut out, 0x42, group.as_slice());
    out
}

fn describe_value(name: &str, number: u8) -> (r: Vec<u8>)
    ensures
        r@ == value_descriptor(name@, number),
{
    let mut out: Vec<u8> = Vec::new();
    push_text(&mut out, 0x0a, name);
    out.push(0x10);
    out.push(number);
    assert(out@ =~= value_descriptor(name@, number));
    out
}

fn describe_action() -> (r: Vec<u8>)
    ensures
        r@ == action_descriptor(),
{
    let mut out: Vec<u8> = Vec::new();
    push_text(&mut out, 0x0a, "AclAction");
    assert(out@ =~= text_field(0x0a, "AclAction"@));
    push_field(&mut out, 0x12, describe_value("UNSPECIFIED", 0).as_slice());
    push_field(&mut out, 0x12, describe_value("ACCEPT", 1).as_slice());
    push_field(&mut out, 0x12, describe_value("DROP", 2).as_slice());
    push_field(&mut out, 0x12, describe_value("CONTINUE", 3).as_slice());
    out
}

/// Makes the schema of configurations.
pub fn config_schema() -> (r: Vec<u8>)
    ensures
        r@ == schema(),
{
    let config = vec![
        member("rules", 1, Occurrence::Repeated, Kind::Message(".sni_router.Rule")),
        member("default", 2, Occurrence::Single, Kind::Message(".sni_router.Rule")),
        member("max_lifetime_ms", 3, Occurrence::Single, Kind::Number),
        member("handshake_timeout_ms", 4, Occurrence::Single, Kind::Number),
    ];
    assert(config@ =~= config_members());
    let acl = vec![
        member("rules", 1, Occurrence::Repeated, Kind::Message(".sni_router.AclRule")),
        member("default_action", 2, Occurrence::Single, Kind::Choice(".sni_router.AclAction")),
    ];
    assert(acl@ =~= acl_members());
    let acl_rule = vec![
        member("source", 1, Occurrence::Single, Kind::Text),
        member("action", 2, Occurrence::Single, Kind::Choice(".sni_router.AclAction")),
    ];
    assert(acl_rule@ =~= acl_rule_members());
    let mut file: Vec<u8> = Vec::new();
    push_text(&mut file, 0x0a, "sni_router.proto");
    assert(file@ =~= text_field(0x0a, "sni_router.proto"@));
    push_text(&mut file, 0x12, "sni_router");
    push_field(&mut file, 0x22, describe_message("SNIConfig", config.as_slice()).as_slice());
    push_field(&mut file, 0x22, describe_rule().as_slice());
    push_field(&mut file, 0x22, describe_message("Acl", acl.as_slice()).as_slice());
    push_field(&mut file, 0x22, describe_message("AclRule", acl_rule.as_slice()).as_slice());
    push_field(&mut file, 0x22, describe_backend().as_slice());
    push_field(&mut file, 0x2a, describe_action().as_slice());
    push_text(&mut file, 0x62, "proto3");
    let mut out: Vec<u8> = Vec::new();
    push_field(&mut out, 0x0a, file.as_slice());
    assert(out@ =~= schema());
    out
}

/// The number that the bytes of a variable-length form stand for: seven bits
/// each, the least significant first.
pub open spec fn varint_value(coded: Seq<u8>) -> nat
    decreases coded.len(),
{
    if coded.len() == 0 {
        0
    } else {
        coded[0] as nat % 128 + 128 * varint_value(coded.skip(1))
    }
}

/// A number in variable-length form stands for itself, and all of its bytes but
/// the last have their high bit set.
pub proof fn lemma_varint_reads_back(n: nat)
    ensures
        varint_value(varint(n)) == n,
        varint(n).len() > 0,
        varint(n).last() < 128,
        forall|i: int| 0 <= i < varint(n).len() - 1 ==> #[trigger] varint(n)[i] >= 128,
    decreases n,
{
    if n < 128 {
        assert(varint(n).skip(1) =~= Seq::<u8>::empty());
        reveal_with_fuel(varint_value, 2);
    } else {
        lemma_varint_reads_back(n / 128);
        assert(varint(n).skip(1) =~= varint(n / 128));
        assert forall|i: int| 0 <= i < varint(n).len() - 1 implies #[trigger] varint(n)[i]
            >= 128 by {
            if i > 0 {
                assert(varint(n)[i] == varint(n / 128)[i - 1]);
            }
        }
    }
}

/// The names and numbers of all fields.
pub proof fn lemma_fields_by_name_and_number()
    ensures
        ({
            let c = config_members();
            &&& c.len() == 4
            &&& c[0].name == "rules" && c[0].number == 1
            &&& c[0].occurrence == Occurrence::Repeated
            &&& c[0].kind == Kind::Message(".sni_router.Rule")
            &&& c[1].name == "default" && c[1].number == 2
            &&& c[1].occurrence == Occurrence::Single
            &&& c[1].kind == Kind::Message(".sni_router.Rule")
            &&& c[2].name == "max_lifetime_ms" && c[2].number == 3 && c[2].kind == Kind::Number
            &&& c[3].name == "handshake_timeout_ms" && c[3].number == 4
            &&& c[3].kind == Kind::Number
        }),
        ({
            let r = rule_members();
            &&& r.len() == 4
            &&& r[0].name == "regex" && r[0].number == 1 && r[0].kind == Kind::Text
            &&& r[0].occurrence == Occurrence::Optional
            &&& r[1].name == "backend" && r[1].number == 2
            &&& r[1].kind == Kind::Message(".sni_router.Backend")
            &&& r[2].name == "max_lifetime_ms" && r[2].number == 3 && r[2].kind == Kind::Number
            &&& r[3].name == "acl" && r[3].number == 4
            &&& r[3].kind == Kind::Message(".sni_router.Acl")
        }),
        ({
            let a = acl_members();
            &&& a.len() == 2
            &&& a[0].name == "rules" && a[0].number == 1
            &&& a[0].occurrence == Occurrence::Repeated
            &&& a[0].kind == Kind::Message(".sni_router.AclRule")
            &&& a[1].name == "default_action" && a[1].number == 2
            &&& a[1].kind == Kind::Choice(".sni_router.AclAction")
        }),
        ({
            let a = acl_rule_members();
            &&& a.len() == 2
            &&& a[0].name == "source" && a[0].number == 1 && a[0].kind == Kind::Text
            &&& a[1].name == "action" && a[1].number == 2
            &&& a[1].kind == Kind::Choice(".sni_router.AclAction")
        }),
        ({
            let b = backend_members();
            &&& b.len() == 5
            &&& b[0].name == "null" && b[0].number == 1
            &&& b[1].name == "proxy" && b[1].number == 2
            &&& b[2].name == "pass" && b[2].number == 3
            &&& b[3].name == "frontend_tls" && b[3].number == 4
            &&& b[4].name == "sorry" && b[4].number == 5
            &&& b[0].kind == Kind::Message(".sni_router.Backend.Null")
            &&& b[1].kind == Kind::Message(".sni_router.Backend.Proxy")
            &&& b[2].kind == Kind::Message(".sni_router.Backend.Pass")
            &&& b[3].kind == Kind::Message(".sni_router.Backend.Tls")
            &&& b[4].kind == Kind::Message(".sni_router.Backend")
            &&& forall|i: int|
                0 <= i < 3 ==> (#[trigger] b[i]).occurrence == Occurrence::Alternative
        }),
        ({
            let p = proxy_members();
            &&& p.len() == 3
            &&& p[0].name == "addr" && p[0].number == 1 && p[0].kind == Kind::Text
            &&& p[1].name == "proxy_header" && p[1].number == 2 && p[1].kind == Kind::Flag
            &&& p[2].name == "frontend_tls" && p[2].number == 3
            &&& p[2].kind == Kind::Message(".sni_router.Backend.Tls")
        }),
        ({
            let p = pass_members();
            &&& p.len() == 2
            &&& p[0].name == "path" && p[0].number == 1 && p[0].kind == Kind::Text
            &&& p[1].name == "frontend_tls" && p[1].number == 2
            &&& p[1].kind == Kind::Message(".sni_router.Backend.Tls")
        }),
        ({
            let t = tls_members();
            &&& t.len() == 2
            &&& t[0].name == "cert_file" && t[0].number == 1 && t[0].kind == Kind::Text
            &&& t[1].name == "key_file" && t[1].number == 2 && t[1].kind == Kind::Text
        }),
{
}

} // verus!
