//! Access control by client address.

use vstd::prelude::*;

use crate::addr;
use crate::addr::to_mapped;

verus! {

/// What to do with a client.
#[derive(Clone, Copy, Debug, PartialEq, Eq, Structural)]
pub enum AclAction {
    /// Nothing was said.
    Unspecified,
    /// Let the client through.
    Accept,
    /// Turn the client away.
    Drop,
    /// Go on with the next rule.
    Continue,
}

/// A network as it is written: an address and how many of its leading bits
/// count.
#[derive(Clone, Copy, Debug, PartialEq, Eq, Structural)]
#[allow(inconsistent_fields)]
pub enum IpNetwork {
    V4 { addr: u32, prefix_len: u8 },
    V6 { addr: u128, prefix_len: u8 },
}

/// The error of the ipnet crate's parser.
#[verifier::external_type_specification]
#[verifier::external_body]
pub struct ExAddrParseError(ipnet::AddrParseError);

/// The network that a text such as `192.168.0.0/16` stands for.
pub uninterp spec fn network_named(text: Seq<char>) -> Option<IpNetwork>;

/// Parses with `ipnet::IpNet`'s `FromStr`.
///
/// Believed: the outcome depends on the text alone, and the prefix is no longer
/// than an address of its family.
#[verifier::external_body]
fn parse_network(text: &str) -> (r: Result<IpNetwork, ipnet::AddrParseError>)
    ensures
        match r {
            Ok(network) => network_named(text@) == Some(network),
            Err(_) => network_named(text@) is None,
        },
        r matches Ok(IpNetwork::V4 { prefix_len, .. }) ==> prefix_len <= 32,
        r matches Ok(IpNetwork::V6 { prefix_len, .. }) ==> prefix_len <= 128,
{
    Ok(match text.parse::<ipnet::IpNet>()? {
        ipnet::IpNet::V4(n) => IpNetwork::V4 { addr: n.addr().into(), prefix_len: n.prefix_len() },
        ipnet::IpNet::V6(n) => IpNetwork::V6 { addr: n.addr().into(), prefix_len: n.prefix_len() },
    })
}

/// How many addresses share their leading `prefix_len` bits of `width`.
pub open spec fn block_size(width: nat, prefix_len: u8) -> nat {
    vstd::arithmetic::power2::pow2((width - prefix_len) as nat)
}

/// The first address of an IPv4 network.
pub open spec fn v4_network(addr: u32, prefix_len: u8) -> u32 {
    (addr - addr as nat % block_size(32, prefix_len)) as u32
}

/// Whether an IPv6 address is in a network: their leading bits agree.
pub open spec fn in_network(addr: u128, prefix_len: u8, peer: u128) -> bool {
    prefix_len <= 128 && addr as nat / block_size(128, prefix_len) == peer as nat / block_size(
        128,
        prefix_len,
    )
}

/// Computes with `ipnet::Ipv4Net::network`.
///
/// Believed: the bits behind the prefix are zero, the others are kept.
#[verifier::external_body]
fn network_of_v4(addr: u32, prefix_len: u8) -> (r: u32)
    requires
        prefix_len <= 32,
    ensures
        r == v4_network(addr, prefix_len),
{
    ipnet::Ipv4Net::new_assert(addr.into(), prefix_len).network().into()
}

/// Decides with `ipnet::Ipv6Net::contains`.
///
/// Believed: an address is in a network when the bits of the prefix agree, and
/// in none with a prefix longer than an address.
#[verifier::external_body]
fn network_contains(addr: u128, prefix_len: u8, peer: u128) -> (r: bool)
    ensures
        r == in_network(addr, prefix_len, peer),
{
    let host = ipnet::Ipv6Net::new_assert(peer.into(), 128);
    match ipnet::Ipv6Net::new(addr.into(), prefix_len) {
        Ok(network) => network.contains(&host.addr()),
        Err(_) => false,
    }
}

/// A rule for the clients of one network, IPv4 networks mapped into IPv6.
#[derive(Clone, Copy, Debug, PartialEq, Eq, Structural)]
pub struct AclRule {
    pub addr: u128,
    pub prefix_len: u8,
    pub action: AclAction,
}

/// Rules in the order in which they apply, and what to do where none does.
#[derive(Debug)]
pub struct Acl {
    pub rules: Vec<AclRule>,
    pub default_action: AclAction,
}

/// The contents of an [`Acl`].
pub struct AclView {
    pub rules: Seq<AclRule>,
    pub default_action: AclAction,
}

impl View for Acl {
    type V = AclView;

    open spec fn view(&self) -> AclView {
        AclView { rules: self.rules@, default_action: self.default_action }
    }
}

/// A rule as it is configured.
#[derive(Debug)]
pub struct AclRuleConfig {
    pub source: String,
    pub action: AclAction,
}

/// Access control as it is configured.
#[derive(Debug)]
pub struct AclConfig {
    pub rules: Vec<AclRuleConfig>,
    pub default_action: AclAction,
}

/// The contents of an [`AclRuleConfig`].
pub struct AclRuleConfigView {
    pub source: Seq<char>,
    pub action: AclAction,
}

impl View for AclRuleConfig {
    type V = AclRuleConfigView;

    open spec fn view(&self) -> AclRuleConfigView {
        AclRuleConfigView { source: self.source@, action: self.action }
    }
}

/// The contents of an [`AclConfig`].
pub struct AclConfigView {
    pub rules: Seq<AclRuleConfigView>,
    pub default_action: AclAction,
}

impl View for AclConfig {
    type V = AclConfigView;

    open spec fn view(&self) -> AclConfigView {
        AclConfigView {
            rules: self.rules@.map_values(|rule: AclRuleConfig| rule@),
            default_action: self.default_action,
        }
    }
}

/// Why access control cannot be loaded.
#[derive(Clone, Copy, Debug, PartialEq, Eq, Structural)]
pub enum AclError {
    /// The source of a rule is not a network.
    BadSource,
    /// A rule does not say what to do.
    UnspecifiedAction,
}

/// Whether a rule's prefix is one that an address can have.
pub open spec fn rule_wf(rule: AclRule) -> bool {
    rule.prefix_len <= 128
}

impl AclView {
    /// Whether all rules have prefixes that addresses can have and say what to
    /// do.
    pub open spec fn wf(self) -> bool {
        forall|i: int|
            0 <= i < self.rules.len() ==> rule_wf(#[trigger] self.rules[i])
                && self.rules[i].action != AclAction::Unspecified
    }
}

/// The rule for a network: IPv4 networks are mapped into IPv6.
pub open spec fn rule_for(network: IpNetwork, action: AclAction) -> Result<AclRule, AclError> {
    if action == AclAction::Unspecified {
        Err(AclError::UnspecifiedAction)
    } else {
        Ok(
            match network {
                IpNetwork::V4 { addr, prefix_len } => AclRule {
                    addr: addr::mapped(v4_network(addr, prefix_len)),
                    prefix_len: (96 + prefix_len) as u8,
                    action,
                },
                IpNetwork::V6 { addr, prefix_len } => AclRule { addr, prefix_len, action },
            },
        )
    }
}

/// What loading one rule gives.
pub open spec fn rule_loaded(rule: AclRuleConfigView) -> Result<AclRule, AclError> {
    match network_named(rule.source) {
        None => Err(AclError::BadSource),
        Some(network) => rule_for(network, rule.action),
    }
}

/// What loading rules gives: the first rule that cannot be loaded decides.
pub open spec fn rules_loaded(rules: Seq<AclRuleConfigView>) -> Result<Seq<AclRule>, AclError>
    decreases rules.len(),
{
    if rules.len() == 0 {
        Ok(Seq::empty())
    } else {
        match rule_loaded(rules[0]) {
            Err(e) => Err(e),
            Ok(first) => match rules_loaded(rules.skip(1)) {
                Err(e) => Err(e),
                Ok(rest) => Ok(seq![first] + rest),
            },
        }
    }
}

/// What loading access control gives.
pub open spec fn acl_loaded(pb: AclConfigView) -> Result<AclView, AclError> {
    match rules_loaded(pb.rules) {
        Err(e) => Err(e),
        Ok(rules) => Ok(AclView { rules, default_action: pb.default_action }),
    }
}

/// What the first of the rules that a peer's address is in says.
pub open spec fn first_action(rules: Seq<AclRule>, peer: u128) -> Option<AclAction>
    decreases rules.len(),
{
    if rules.len() == 0 {
        None
    } else if in_network(rules[0].addr, rules[0].prefix_len, peer) {
        Some(rules[0].action)
    } else {
        first_action(rules.skip(1), peer)
    }
}

/// What to do with a peer.
pub open spec fn action_for(acl: AclView, peer: u128) -> AclAction {
    match first_action(acl.rules, peer) {
        Some(action) => action,
        None => acl.default_action,
    }
}

/// Makes the rule for a network.
pub fn rule_for_network(network: IpNetwork, action: AclAction) -> (r: Result<AclRule, AclError>)
    requires
        match network {
            IpNetwork::V4 { prefix_len, .. } => prefix_len <= 32,
            IpNetwork::V6 { prefix_len, .. } => prefix_len <= 128,
        },
    ensures
        r == rule_for(network, action),
        r matches Ok(rule) ==> rule_wf(rule) && rule.action != AclAction::Unspecified,
{
    let (addr, prefix_len): (u128, u8) = match network {
        IpNetwork::V4 { addr, prefix_len } => (
            to_mapped(network_of_v4(addr, prefix_len)),
            96 + prefix_len,
        ),
        IpNetwork::V6 { addr, prefix_len } => (addr, prefix_len),
    };
    if action == AclAction::Unspecified {
        return Err(AclError::UnspecifiedAction);
    }
    Ok(AclRule { addr, prefix_len, action })
}

/// Loads access control from its configuration.
pub fn load_acl(pb: &AclConfig) -> (r: Result<Acl, AclError>)
    ensures
        match r {
            Ok(acl) => acl_loaded(pb@) == Ok::<AclView, AclError>(acl@) && acl@.wf(),
            Err(e) => acl_loaded(pb@) == Err::<AclView, AclError>(e),
        },
{
    let mut rules: Vec<AclRule> = Vec::new();
    let mut i: usize = 0;
    let ghost all = pb@.rules;
    assert(all.skip(0) =~= all);
    proof {
        if let Ok(rest) = rules_loaded(all) {
            assert(Seq::<AclRule>::empty() + rest =~= rest);
        }
    }
    while i < pb.rules.len()
        invariant
            i <= pb.rules@.len(),
            all == pb@.rules,
            rules_loaded(all) == (match rules_loaded(all.skip(i as int)) {
                Err(e) => Err::<Seq<AclRule>, AclError>(e),
                Ok(rest) => Ok(rules@ + rest),
            }),
            forall|j: int|
                0 <= j < rules@.len() ==> rule_wf(#[trigger] rules@[j]) && rules@[j].action
                    != AclAction::Unspecified,
        decreases pb.rules@.len() - i,
    {
        let source = &pb.rules[i];
        assert(all.skip(i as int)[0] == source@);
        assert(all.skip(i as int).skip(1) =~= all.skip(i + 1));
        let network = match parse_network(source.source.as_str()) {
            Ok(network) => network,
            Err(_) => return Err(AclError::BadSource),
        };
        let rule = match rule_for_network(network, source.action) {
            Ok(rule) => rule,
            Err(e) => return Err(e),
        };
        proof {
            if let Ok(rest) = rules_loaded(all.skip(i + 1)) {
                assert(rules@ + (seq![rule] + rest) =~= rules@.push(rule) + rest);
            }
        }
        rules.push(rule);
        i = i + 1;
    }
    assert(rules@ + Seq::<AclRule>::empty() =~= rules@);
    Ok(Acl { rules, default_action: pb.default_action })
}

/// What to do with the client at `peer`.
pub fn acl_action(acl: &Acl, peer: u128) -> (r: AclAction)
    ensures
        r == action_for(acl@, peer),
{
    let mut i: usize = 0;
    assert(acl.rules@.skip(0) =~= acl.rules@);
    while i < acl.rules.len()
        invariant
            i <= acl.rules@.len(),
            first_action(acl.rules@, peer) == first_action(acl.rules@.skip(i as int), peer),
        decreases acl.rules@.len() - i,
    {
        let rule = acl.rules[i];
        assert(acl.rules@.skip(i as int)[0] == rule);
        assert(acl.rules@.skip(i as int).skip(1) =~= acl.rules@.skip(i + 1));
        if network_contains(rule.addr, rule.prefix_len, peer) {
            return rule.action;
        }
        i = i + 1;
    }
    acl.default_action
}

/// The first rule whose network a peer is in decides.
pub proof fn lemma_first_rule_decides(acl: AclView, peer: u128, i: int)
    requires
        0 <= i < acl.rules.len(),
        in_network(acl.rules[i].addr, acl.rules[i].prefix_len, peer),
        forall|j: int|
            0 <= j < i ==> !in_network(
                (#[trigger] acl.rules[j]).addr,
                acl.rules[j].prefix_len,
                peer,
            ),
    ensures
        action_for(acl, peer) == acl.rules[i].action,
    decreases i,
{
    if i > 0 {
        assert(!in_network(acl.rules[0].addr, acl.rules[0].prefix_len, peer));
        let rest = AclView { rules: acl.rules.skip(1), default_action: acl.default_action };
        assert forall|j: int| 0 <= j < i - 1 implies !in_network(
            (#[trigger] rest.rules[j]).addr,
            rest.rules[j].prefix_len,
            peer,
        ) by {
            assert(rest.rules[j] == acl.rules[j + 1]);
        }
        lemma_first_rule_decides(rest, peer, i - 1);
    }
}

/// A peer that is in no rule's network gets the default.
pub proof fn lemma_no_rule_gives_default(acl: AclView, peer: u128)
    requires
        forall|j: int|
            0 <= j < acl.rules.len() ==> !in_network(
                (#[trigger] acl.rules[j]).addr,
                acl.rules[j].prefix_len,
                peer,
            ),
    ensures
        action_for(acl, peer) == acl.default_action,
    decreases acl.rules.len(),
{
    if acl.rules.len() > 0 {
        assert(!in_network(acl.rules[0].addr, acl.rules[0].prefix_len, peer));
        let rest = AclView { rules: acl.rules.skip(1), default_action: acl.default_action };
        assert forall|j: int| 0 <= j < rest.rules.len() implies !in_network(
            (#[trigger] rest.rules[j]).addr,
            rest.rules[j].prefix_len,
            peer,
        ) by {
            assert(rest.rules[j] == acl.rules[j + 1]);
        }
        lemma_no_rule_gives_default(rest, peer);
    }
}

/// Of a block of `small` addresses in one of `large`: where the leading bits of
/// addresses above a multiple of `large` agree.
proof fn lemma_blocks(x: int, y: int, base: int, small: int, times: int, large: int)
    by (nonlinear_arith)
    requires
        small > 0,
        times > 0,
        large == small * times,
        0 <= x < large,
        y >= 0,
        base >= 0,
    ensures
        (base * large + (x - x % small)) / small == base * times + x / small,
        (base * large + x) / small == base * times + x / small,
        y / small == base * times + x / small ==> base * large <= y < base * large + large,
{
    let q = x / small;
    assert(x == q * small + x % small);
    assert(base * large == (base * times) * small);
    assert(base * large + (x - x % small) == (base * times + q) * small);
    assert(((base * times + q) * small) / small == base * times + q);
    assert(base * large + x == (base * times + q) * small + x % small);
    assert((base * large + x) / small == base * times + q);
    assert(q < times);
    let z = y / small;
    assert(y == z * small + y % small);
    if z == base * times + q {
        assert(z * small == base * large + q * small);
        assert((q + 1) * small <= times * small);
        assert(q * small + y % small < (q + 1) * small);
        assert(q * small >= 0);
    }
}

/// A rule for an IPv4 network applies to exactly the IPv4 peers, mapped into
/// IPv6 or not, whose leading bits are those of the network.
pub proof fn lemma_v4_rule_applies_to_v4_peers(
    network: u32,
    prefix_len: u8,
    action: AclAction,
    peer: addr::SocketAddr,
)
    requires
        prefix_len <= 32,
        action != AclAction::Unspecified,
    ensures
        rule_for(IpNetwork::V4 { addr: network, prefix_len }, action) matches Ok(rule) && (
        in_network(rule.addr, rule.prefix_len, addr::v6_of(peer)) <==> (addr::normal(
            peer,
        ) matches addr::SocketAddr::V4 { ip, .. } && network as nat / block_size(32, prefix_len)
            == ip as nat / block_size(32, prefix_len))),
{
    let small = block_size(32, prefix_len);
    let times = vstd::arithmetic::power2::pow2(prefix_len as nat);
    vstd::arithmetic::power2::lemma_pow2_pos((32 - prefix_len) as nat);
    vstd::arithmetic::power2::lemma_pow2_pos(prefix_len as nat);
    vstd::arithmetic::power2::lemma_pow2_adds((32 - prefix_len) as nat, prefix_len as nat);
    vstd::arithmetic::power2::lemma2_to64();
    assert(small * times == 0x1_0000_0000);
    assert(block_size(128, (96 + prefix_len) as u8) == small);
    let y = addr::v6_of(peer) as int;
    lemma_blocks(network as int, y, 0xffff, small as int, times as int, 0x1_0000_0000);
    vstd::arithmetic::div_mod::lemma_mod_bound(network as int, small as int);
    vstd::arithmetic::div_mod::lemma_mod_decreases(network as nat, small);
    if let addr::SocketAddr::V4 { ip, .. } = addr::normal(peer) {
        assert(y == 0xffff_0000_0000 + ip);
        lemma_blocks(ip as int, y, 0xffff, small as int, times as int, 0x1_0000_0000);
    }
}

/// Every loaded rule is the loaded form of the rule at the same place.
proof fn lemma_rules_keep_their_order(rules: Seq<AclRuleConfigView>, i: int)
    requires
        rules_loaded(rules) is Ok,
        0 <= i < rules.len(),
    ensures
        rules_loaded(rules) matches Ok(loaded) && loaded.len() == rules.len() && rule_loaded(
            rules[i],
        ) == Ok::<AclRule, AclError>(loaded[i]),
    decreases rules.len(),
{
    if i > 0 {
        lemma_rules_keep_their_order(rules.skip(1), i - 1);
        assert(rules.skip(1)[i - 1] == rules[i]);
    } else if rules.len() > 1 {
        lemma_rules_keep_their_order(rules.skip(1), 0);
    }
}

proof fn lemma_same_number_of_rules(rules: Seq<AclRuleConfigView>)
    ensures
        rules_loaded(rules) matches Ok(loaded) ==> loaded.len() == rules.len(),
    decreases rules.len(),
{
    if rules.len() > 0 {
        lemma_same_number_of_rules(rules.skip(1));
    }
}

/// Whether a prefix is one that an address of the network's family can have.
pub open spec fn network_wf(network: IpNetwork) -> bool {
    match network {
        IpNetwork::V4 { prefix_len, .. } => prefix_len <= 32,
        IpNetwork::V6 { prefix_len, .. } => prefix_len <= 128,
    }
}

/// Whether a peer is in a network: its leading bits are those of the network,
/// and for an IPv4 network it is an IPv4 peer, mapped into IPv6.
pub open spec fn is_in(network: IpNetwork, peer: u128) -> bool {
    match network {
        IpNetwork::V4 { addr, prefix_len } => {
            &&& 0xffff_0000_0000 <= peer <= 0xffff_ffff_ffff
            &&& addr as nat / vstd::arithmetic::power2::pow2((32 - prefix_len) as nat) == (peer
                - 0xffff_0000_0000) as nat / vstd::arithmetic::power2::pow2(
                (32 - prefix_len) as nat,
            )
        },
        IpNetwork::V6 { addr, prefix_len } => addr as nat / vstd::arithmetic::power2::pow2(
            (128 - prefix_len) as nat,
        ) == peer as nat / vstd::arithmetic::power2::pow2((128 - prefix_len) as nat),
    }
}

/// The rule for a network applies to exactly the peers in the network, and says
/// what it was made to say. A rule that says nothing is refused.
pub proof fn lemma_rule_applies_to_its_network(network: IpNetwork, action: AclAction, peer: u128)
    requires
        network_wf(network),
    ensures
        action == AclAction::Unspecified ==> rule_for(network, action) == Err::<AclRule, AclError>(
            AclError::UnspecifiedAction,
        ),
        action != AclAction::Unspecified ==> (rule_for(network, action) matches Ok(rule)
            && rule.action == action && (in_network(rule.addr, rule.prefix_len, peer) <==> is_in(
            network,
            peer,
        ))),
{
    if let IpNetwork::V4 { addr, prefix_len } = network {
        if action != AclAction::Unspecified {
            let at = addr::SocketAddr::V6 { ip: peer, port: 0, flowinfo: 0, scope_id: 0 };
            lemma_v4_rule_applies_to_v4_peers(addr, prefix_len, action, at);
        }
    }
}

/// Of configured access control, the first rule whose source is a network that
/// a peer is in decides; where there is none, the default does.
pub proof fn lemma_configured_rules_decide(pb: AclConfigView, acl: AclView, peer: u128)
    requires
        acl_loaded(pb) == Ok::<AclView, AclError>(acl),
        forall|i: int|
            0 <= i < pb.rules.len() ==> (network_named(
                (#[trigger] pb.rules[i]).source,
            ) matches Some(network) ==> network_wf(network)),
    ensures
        forall|i: int|
            0 <= i < pb.rules.len() && named_in((#[trigger] pb.rules[i]).source, peer) && (
            forall|j: int| 0 <= j < i ==> !named_in((#[trigger] pb.rules[j]).source, peer))
                ==> action_for(acl, peer) == pb.rules[i].action,
        (forall|i: int|
            0 <= i < pb.rules.len() ==> !named_in((#[trigger] pb.rules[i]).source, peer))
            ==> action_for(acl, peer) == pb.default_action,
{
    lemma_same_number_of_rules(pb.rules);
    assert forall|i: int| 0 <= i < pb.rules.len() implies acl.rules[i].action == (
    #[trigger] pb.rules[i]).action && (in_network(
        (#[trigger] acl.rules[i]).addr,
        acl.rules[i].prefix_len,
        peer,
    ) <==> named_in(pb.rules[i].source, peer)) by {
        lemma_rules_keep_their_order(pb.rules, i);
        let network = network_named(pb.rules[i].source)->Some_0;
        lemma_rule_applies_to_its_network(network, pb.rules[i].action, peer);
    }
    assert forall|i: int|
        0 <= i < pb.rules.len() && named_in((#[trigger] pb.rules[i]).source, peer) && (forall|
            j: int,
        | 0 <= j < i ==> !named_in((#[trigger] pb.rules[j]).source, peer)) implies action_for(
        acl,
        peer,
    ) == pb.rules[i].action by {
        assert(in_network(acl.rules[i].addr, acl.rules[i].prefix_len, peer));
        assert forall|j: int| 0 <= j < i implies !in_network(
            (#[trigger] acl.rules[j]).addr,
            acl.rules[j].prefix_len,
            peer,
        ) by {
            assert(!named_in(pb.rules[j].source, peer));
        }
        lemma_first_rule_decides(acl, peer, i);
    }
    if forall|i: int|
        0 <= i < pb.rules.len() ==> !named_in((#[trigger] pb.rules[i]).source, peer) {
        assert forall|j: int| 0 <= j < acl.rules.len() implies !in_network(
            (#[trigger] acl.rules[j]).addr,
            acl.rules[j].prefix_len,
            peer,
        ) by {
            assert(!named_in(pb.rules[j].source, peer));
        }
        lemma_no_rule_gives_default(acl, peer);
    }
}

/// Whether a peer is in the network that a text stands for.
pub open spec fn named_in(source: Seq<char>, peer: u128) -> bool {
    network_named(source) matches Some(network) && is_in(network, peer)
}

/// Access control is refused for the first of its rules whose source is not a
/// network or that does not say what to do, and only for such a rule.
pub proof fn lemma_first_bad_rule_is_reported(rules: Seq<AclRuleConfigView>, i: int)
    requires
        0 <= i <= rules.len(),
        forall|j: int|
            0 <= j < i ==> network_named((#[trigger] rules[j]).source) is Some && rules[j].action
                != AclAction::Unspecified,
    ensures
        i == rules.len() ==> rules_loaded(rules) is Ok,
        i < rules.len() && network_named(rules[i].source) is None ==> rules_loaded(rules) == Err::<
            Seq<AclRule>,
            AclError,
        >(AclError::BadSource),
        i < rules.len() && network_named(rules[i].source) is Some && rules[i].action
            == AclAction::Unspecified ==> rules_loaded(rules) == Err::<Seq<AclRule>, AclError>(
            AclError::UnspecifiedAction,
        ),
    decreases i,
{
    if i > 0 {
        let rest = rules.skip(1);
        assert(network_named(rules[0].source) is Some);
        assert forall|j: int| 0 <= j < i - 1 implies network_named((#[trigger] rest[j]).source)
            is Some && rest[j].action != AclAction::Unspecified by {
            assert(rest[j] == rules[j + 1]);
        }
        lemma_first_bad_rule_is_reported(rest, i - 1);
        if i < rules.len() {
            assert(rest[i - 1] == rules[i]);
        }
    }
}

/// What an access list says is what it holds, and so is what a configured one
/// says.
pub proof fn lemma_lists_say_what_they_hold(acl: Acl, pb: AclConfig)
    ensures
        acl@.default_action == acl.default_action,
        acl@.rules == acl.rules@,
        pb@.default_action == pb.default_action,
        pb@.rules.len() == pb.rules.len(),
        forall|i: int|
            0 <= i < pb.rules.len() ==> (#[trigger] pb@.rules[i]).source == pb.rules[i].source@
                && pb@.rules[i].action == pb.rules[i].action,
{
}

/// A list that was loaded is sound: no network is longer than an address, and
/// every rule says what to do.
pub proof fn lemma_loaded_lists_are_sound(pb: &AclConfig, r: Result<Acl, AclError>)
    requires
        call_ensures(load_acl, (pb,), r),
    ensures
        r matches Ok(acl) ==> forall|i: int|
            0 <= i < acl.rules.len() ==> (#[trigger] acl.rules[i]).prefix_len <= 128
                && acl.rules[i].action != AclAction::Unspecified,
{
    if let Ok(acl) = r {
        assert forall|i: int| 0 <= i < acl.rules.len() implies (#[trigger] acl.rules[i]).prefix_len
            <= 128 && acl.rules[i].action != AclAction::Unspecified by {
            assert(rule_wf(acl@.rules[i]));
        }
    }
}

} // verus!
