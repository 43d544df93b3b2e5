//! Which rule a client falls under.

use vstd::prelude::*;

use crate::acl;
use crate::acl::{acl_action, Acl, AclAction, AclView};

verus! {

/// What one rule says about a client.
#[derive(Clone, Copy, Debug, PartialEq, Eq, Structural)]
pub enum Verdict {
    /// Nothing: the next rule is asked.
    Next,
    /// The client goes to the rule's backend.
    Accept,
    /// The client is turned away.
    Reject,
    /// The rule's access control does not say what to do.
    Unspecified,
}

/// What a rule says about a client at `peer`, given whether the rule's pattern
/// matches the name that the client asks for.
pub open spec fn verdict_of(acl: AclView, matched: bool, peer: u128) -> Verdict {
    if !matched {
        Verdict::Next
    } else {
        match acl::action_for(acl, peer) {
            AclAction::Unspecified => Verdict::Unspecified,
            AclAction::Continue => Verdict::Next,
            AclAction::Drop => Verdict::Reject,
            AclAction::Accept => Verdict::Accept,
        }
    }
}

/// The first rule from `i` on that says anything, by what each rule says.
pub open spec fn first_decided(verdicts: Seq<Verdict>, i: int) -> Option<int>
    decreases verdicts.len() - i,
{
    if i >= verdicts.len() {
        None
    } else if verdicts[i] == Verdict::Next {
        first_decided(verdicts, i + 1)
    } else {
        Some(i)
    }
}

/// Decides what a rule says about a client at `peer`, given whether the rule's
/// pattern matches the name that the client asks for.
pub fn verdict(acl: &Acl, matched: bool, peer: u128) -> (r: Verdict)
    ensures
        r == verdict_of(acl@, matched, peer),
{
    if !matched {
        return Verdict::Next;
    }
    match acl_action(acl, peer) {
        AclAction::Unspecified => Verdict::Unspecified,
        AclAction::Continue => Verdict::Next,
        AclAction::Drop => Verdict::Reject,
        AclAction::Accept => Verdict::Accept,
    }
}

/// The rule found is the first that says anything.
pub proof fn lemma_first_decided_is_first(verdicts: Seq<Verdict>, i: int)
    requires
        0 <= i <= verdicts.len(),
    ensures
        match first_decided(verdicts, i) {
            Some(k) => {
                &&& i <= k < verdicts.len()
                &&& verdicts[k] != Verdict::Next
                &&& forall|j: int| i <= j < k ==> #[trigger] verdicts[j] == Verdict::Next
            },
            None => forall|j: int|
                i <= j < verdicts.len() ==> #[trigger] verdicts[j] == Verdict::Next,
        },
    decreases verdicts.len() - i,
{
    if i < verdicts.len() && verdicts[i] == Verdict::Next {
        lemma_first_decided_is_first(verdicts, i + 1);
    }
}

/// Rules behind the one that decides have no say.
pub proof fn lemma_later_rules_have_no_say(verdicts: Seq<Verdict>, later: Seq<Verdict>, i: int)
    requires
        0 <= i <= verdicts.len(),
        first_decided(verdicts, i) is Some,
    ensures
        first_decided(verdicts + later, i) == first_decided(verdicts, i),
    decreases verdicts.len() - i,
{
    assert((verdicts + later)[i] == verdicts[i]);
    if verdicts[i] == Verdict::Next {
        lemma_later_rules_have_no_say(verdicts, later, i + 1);
    }
}

/// A rule says nothing about a client exactly when its pattern does not match or
/// its access control says to go on; it turns the client away exactly when the
/// pattern matches and its access control says to drop the client, whatever it
/// says of others; and so for the two other actions.
pub proof fn lemma_verdict_is_the_action(acl: AclView, matched: bool, peer: u128)
    ensures
        verdict_of(acl, matched, peer) == Verdict::Next <==> !matched || acl::action_for(acl, peer)
            == AclAction::Continue,
        verdict_of(acl, matched, peer) == Verdict::Reject <==> matched && acl::action_for(acl, peer)
            == AclAction::Drop,
        verdict_of(acl, matched, peer) == Verdict::Accept <==> matched && acl::action_for(acl, peer)
            == AclAction::Accept,
        verdict_of(acl, matched, peer) == Verdict::Unspecified <==> matched && acl::action_for(
            acl,
            peer,
        ) == AclAction::Unspecified,
{
}

/// What is decided for a client is what the rule's access control says about the
/// client's address, where the rule's pattern matches, and nothing otherwise.
pub proof fn lemma_decision_is_the_action(acl: &Acl, matched: bool, peer: u128, decided: Verdict)
    requires
        call_ensures(verdict, (acl, matched, peer), decided),
    ensures
        !matched ==> decided == Verdict::Next,
        matched ==> {
            &&& acl::action_for(acl@, peer) == AclAction::Continue ==> decided == Verdict::Next
            &&& acl::action_for(acl@, peer) == AclAction::Drop ==> decided == Verdict::Reject
            &&& acl::action_for(acl@, peer) == AclAction::Accept ==> decided == Verdict::Accept
            &&& acl::action_for(acl@, peer) == AclAction::Unspecified ==> decided
                == Verdict::Unspecified
        },
{
}

} // verus!
