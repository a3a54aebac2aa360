//! Properties of the registry's operations, stated over the registry's view
//! and proved from the operations' own specifications.

use crate::common::ProfilID;
use crate::data_server::keyed::{has_key, lemma_upsert};
use crate::data_server::permissions::InteractionPermission;
use crate::data_server::text::{is_white_space, lemma_trimmed_not_blank, trimmed};
use crate::data_server::{
    allowed_by, has_text, is_first_text, other_than, swap_remove, text_position,
    vote_on, vote_props, PropositionView, ServerView,
};
use vstd::prelude::*;

verus! {

/// The predicate "is `v`".
pub open spec fn same_as(v: ProfilID) -> spec_fn(ProfilID) -> bool {
    |x: ProfilID| x == v
}

/// How many times `v` occurs in `s`.
pub open spec fn occurrences(s: Seq<ProfilID>, v: ProfilID) -> nat {
    s.filter(same_as(v)).len()
}

/// Under the same-class policy, an action between two profiles is allowed
/// exactly when some class holds both; an unknown id, or one that no class
/// holds, is never allowed, nor acted upon.
pub proof fn lemma_same_class_policy(s: ServerView, a: ProfilID, b: ProfilID)
    ensures
        s.has_profile(a) && s.has_profile(b) ==> (allowed_by(s, InteractionPermission::SameClass, a, b)
            <==> exists|c: int|
            0 <= c < s.classes.len() && (#[trigger] s.classes[c]).1.members.contains(a)
                && s.classes[c].1.members.contains(b)),
        !s.has_profile(a) ==> !allowed_by(s, InteractionPermission::SameClass, a, b),
        !s.has_profile(b) ==> !allowed_by(s, InteractionPermission::SameClass, a, b),
        !s.in_some_class(a) ==> !allowed_by(s, InteractionPermission::SameClass, a, b),
        !s.in_some_class(b) ==> !allowed_by(s, InteractionPermission::SameClass, a, b),
{
}

proof fn lemma_filter_push_other<A>(s: Seq<A>, x: A, p: spec_fn(A) -> bool)
    requires
        !p(x),
    ensures
        s.push(x).filter(p) == s.filter(p),
{
    reveal(Seq::filter);
    assert(s.push(x).drop_last() =~= s);
}

/// Filtering twice by one predicate is filtering once.
pub proof fn lemma_filter_twice<A>(s: Seq<A>, p: spec_fn(A) -> bool)
    ensures
        s.filter(p).filter(p) == s.filter(p),
    decreases s.len(),
{
    reveal(Seq::filter);
    if s.len() > 0 {
        lemma_filter_twice(s.drop_last(), p);
        if p(s.last()) {
            let t = s.drop_last().filter(p);
            assert(t.push(s.last()).drop_last() =~= t);
        }
    }
}

proof fn lemma_filter_excludes<A>(s: Seq<A>, p: spec_fn(A) -> bool, x: A)
    requires
        !p(x),
    ensures
        !s.filter(p).contains(x),
{
    if s.filter(p).contains(x) {
        let i = choose|i: int| 0 <= i < s.filter(p).len() && s.filter(p)[i] == x;
        s.lemma_filter_pred(p, i);
    }
}

proof fn lemma_vote_on_twice(p: PropositionView, voter: ProfilID, chosen: bool)
    ensures
        vote_on(vote_on(p, voter, chosen), voter, chosen) == vote_on(p, voter, chosen),
{
    let kept = p.votes.filter(other_than(voter));
    lemma_filter_twice(p.votes, other_than(voter));
    if chosen {
        lemma_filter_push_other(kept, voter, other_than(voter));
    }
}

/// The texts of the propositions are kept by a vote, and the first
/// proposition carrying the text afterwards is the one that got the vote.
proof fn lemma_vote_props_first(props: Seq<PropositionView>, voter: ProfilID, text: Seq<char>)
    ensures
        ({
            let once = vote_props(props, voter, text);
            &&& once.len() >= props.len()
            &&& forall|j: int| 0 <= j < props.len() ==> (#[trigger] once[j]).text == props[j].text
                && once[j] == vote_on(props[j], voter, is_first_text(props, text, j))
            &&& has_text(once, text)
            &&& forall|j: int| 0 <= j < once.len() ==> (is_first_text(once, text, j) <==> (
                if j < props.len() { is_first_text(props, text, j) } else { !has_text(props, text) }))
        }),
{
    let once = vote_props(props, voter, text);
    if has_text(props, text) {
        let j = choose|j: int| 0 <= j < props.len() && (#[trigger] props[j]).text == text;
        assert(once[j].text == text);
    } else {
        assert(once[props.len() as int].text == text);
    }
    assert forall|j: int| 0 <= j < once.len() implies (is_first_text(once, text, j) <==> (
        if j < props.len() { is_first_text(props, text, j) } else { !has_text(props, text) })) by {
        if j < props.len() {
            if is_first_text(props, text, j) {
                assert forall|k: int| 0 <= k < j implies (#[trigger] once[k]).text != text by {
                    assert(props[k].text != text);
                }
            }
            if is_first_text(once, text, j) {
                assert forall|k: int| 0 <= k < j implies (#[trigger] props[k]).text != text by {
                    assert(once[k].text != text);
                }
            }
        } else {
            if !has_text(props, text) {
                assert forall|k: int| 0 <= k < j implies (#[trigger] once[k]).text != text by {
                    assert(once[k].text == props[k].text);
                }
            }
        }
    }
}

proof fn lemma_vote_props_twice(props: Seq<PropositionView>, voter: ProfilID, text: Seq<char>)
    ensures
        vote_props(vote_props(props, voter, text), voter, text) == vote_props(props, voter, text),
{
    let once = vote_props(props, voter, text);
    lemma_vote_props_first(props, voter, text);
    assert forall|j: int| 0 <= j < once.len() implies #[trigger] vote_on(once[j], voter, is_first_text(once, text, j)) == once[j] by {
        if j < props.len() {
            lemma_vote_on_twice(props[j], voter, is_first_text(props, text, j));
        } else {
            reveal(Seq::filter);
            assert(seq![voter].drop_last() =~= Seq::<ProfilID>::empty());
            assert(Seq::<ProfilID>::empty().filter(other_than(voter)) =~= Seq::<ProfilID>::empty());
            assert(seq![voter].filter(other_than(voter)) =~= Seq::<ProfilID>::empty());
            assert(Seq::<ProfilID>::empty().push(voter) =~= seq![voter]);
        }
    }
    assert(vote_props(once, voter, text) =~= once);
}

/// Voting is idempotent: a second identical vote leaves the registry as the
/// first one left it.
pub proof fn lemma_vote_idempotent(s: ServerView, voter: ProfilID, target: ProfilID, text: Seq<char>)
    requires
        s.wf(),
    ensures
        s.after_vote(voter, target, text).after_vote(voter, target, text) == s.after_vote(
            voter,
            target,
            text,
        ),
{
    let once = s.after_vote(voter, target, text);
    if s.permission_flags(voter, target).0 && text.len() > 0 && (has_key(s.ledger, target)
        || s.has_profile(target)) {
        let props = vote_props(s.propositions(target), voter, text);
        s.lemma_with_propositions(target, props);
        assert(once.permission_flags(voter, target) == s.permission_flags(voter, target));
        lemma_upsert(s.ledger, target, props);
        assert(has_key(once.ledger, target));
        lemma_vote_props_twice(s.propositions(target), voter, text);
        lemma_upsert(once.ledger, target, props);
        assert(once.with_propositions(target, props).ledger =~= once.ledger) by {
            let i = crate::data_server::keyed::index_of(once.ledger, target);
            crate::data_server::keyed::lemma_index_of(once.ledger, i);
        }
    }
}

/// After a vote that takes effect, the voter holds exactly one vote for the
/// target: it is in the vote set of the first proposition carrying the
/// text, once, and in no other.
pub proof fn lemma_vote_single_membership(s: ServerView, voter: ProfilID, target: ProfilID, text: Seq<char>)
    requires
        s.wf(),
        s.permission_flags(voter, target).0,
        text.len() > 0,
        has_key(s.ledger, target) || s.has_profile(target),
    ensures
        ({
            let props = s.after_vote(voter, target, text).propositions(target);
            &&& has_text(props, text)
            &&& exists|j: int| {
                &&& is_first_text(props, text, j)
                &&& occurrences((#[trigger] props[j]).votes, voter) == 1
                &&& forall|k: int| 0 <= k < props.len() && k != j ==> !(#[trigger] props[k]).votes.contains(voter)
            }
        }),
{
    let props0 = s.propositions(target);
    let props = vote_props(props0, voter, text);
    s.lemma_with_propositions(target, props);
    lemma_vote_props_first(props0, voter, text);
    assert forall|j: int| 0 <= j < props.len() implies ((#[trigger] props[j]).votes.contains(voter) <==> is_first_text(props, text, j))
        && (is_first_text(props, text, j) ==> occurrences(props[j].votes, voter) == 1) by {
        let chosen = if j < props0.len() { is_first_text(props0, text, j) } else { true };
        let kept = if j < props0.len() { props0[j].votes.filter(other_than(voter)) } else { Seq::<ProfilID>::empty() };
        lemma_filter_excludes(if j < props0.len() { props0[j].votes } else { Seq::<ProfilID>::empty() }, other_than(voter), voter);
        if j >= props0.len() {
            reveal(Seq::filter);
            assert(Seq::<ProfilID>::empty().filter(other_than(voter)) =~= Seq::<ProfilID>::empty());
            assert(props[j].votes =~= kept.push(voter));
        }
        if chosen {
            assert(props[j].votes == kept.push(voter));
            assert(props[j].votes[kept.len() as int] == voter);
            lemma_none_equal(kept, voter);
            reveal(Seq::filter);
            assert(kept.push(voter).drop_last() =~= kept);
            assert(props[j].votes.filter(same_as(voter)) =~= kept.filter(same_as(voter)).push(voter));
        } else {
            assert(props[j].votes == kept);
        }
    }
    let j = choose|j: int| 0 <= j < props.len() && (#[trigger] props[j]).text == text;
    assert(is_first_text(props, text, crate::data_server::text_position(props, text))) by {
        assert(exists|f: int| is_first_text(props, text, f)) by {
            lemma_first_exists(props, text, j);
        }
    }
    let f = crate::data_server::text_position(props, text);
    assert forall|k: int| 0 <= k < props.len() && k != f implies !(#[trigger] props[k]).votes.contains(voter) by {
        if is_first_text(props, text, k) {
            crate::data_server::lemma_text_position(props, text, k);
        }
    }
    assert(occurrences(props[f].votes, voter) == 1);
}

/// Some proposition is the first carrying a text that one of them carries.
proof fn lemma_first_exists(props: Seq<PropositionView>, text: Seq<char>, j: int)
    requires
        0 <= j < props.len(),
        props[j].text == text,
    ensures
        exists|f: int| is_first_text(props, text, f),
    decreases j,
{
    if exists|k: int| 0 <= k < j && (#[trigger] props[k]).text == text {
        let k = choose|k: int| 0 <= k < j && (#[trigger] props[k]).text == text;
        lemma_first_exists(props, text, k);
    } else {
        assert(is_first_text(props, text, j));
    }
}

proof fn lemma_none_equal(s: Seq<ProfilID>, v: ProfilID)
    requires
        !s.contains(v),
    ensures
        occurrences(s, v) == 0,
    decreases s.len(),
{
    reveal(Seq::filter);
    if s.len() > 0 {
        assert(!s.drop_last().contains(v)) by {
            if s.drop_last().contains(v) {
                let i = choose|i: int| 0 <= i < s.drop_last().len() && s.drop_last()[i] == v;
                assert(s[i] == v);
            }
        }
        lemma_none_equal(s.drop_last(), v);
    }
}

/// A new vote of the same voter for another text on the same target moves
/// the vote: the propositions carrying the first text lose it and are kept,
/// and the first proposition carrying the new text (created if needed)
/// gains it.
pub proof fn lemma_vote_moves(s: ServerView, voter: ProfilID, target: ProfilID, a: Seq<char>, b: Seq<char>)
    requires
        s.wf(),
        s.permission_flags(voter, target).0,
        a.len() > 0,
        b.len() > 0,
        a != b,
        has_key(s.ledger, target) || s.has_profile(target),
    ensures
        ({
            let first = s.after_vote(voter, target, a).propositions(target);
            let second = s.after_vote(voter, target, a).after_vote(voter, target, b).propositions(target);
            &&& second.len() >= first.len()
            &&& has_text(second, a)
            &&& has_text(second, b)
            &&& forall|j: int| 0 <= j < second.len() && second[j].text == a ==> !(#[trigger] second[j]).votes.contains(voter)
            &&& forall|j: int| is_first_text(second, b, j) ==> (#[trigger] second[j]).votes.contains(voter)
        }),
{
    let s1 = s.after_vote(voter, target, a);
    lemma_vote_single_membership(s, voter, target, a);
    s.lemma_with_propositions(target, vote_props(s.propositions(target), voter, a));
    assert(s1.permission_flags(voter, target) == s.permission_flags(voter, target));
    lemma_upsert(s.ledger, target, vote_props(s.propositions(target), voter, a));
    assert(s1.wf());
    assert(has_key(s1.ledger, target));
    lemma_vote_single_membership(s1, voter, target, b);
    let first = s1.propositions(target);
    let second = s1.after_vote(voter, target, b).propositions(target);
    s1.lemma_with_propositions(target, vote_props(first, voter, b));
    lemma_vote_props_first(first, voter, b);
    let j = choose|j: int| 0 <= j < first.len() && (#[trigger] first[j]).text == a;
    assert(second[j].text == a);
    let f = choose|f: int| is_first_text(second, b, f) && occurrences((#[trigger] second[f]).votes, voter) == 1
        && forall|k: int| 0 <= k < second.len() && k != f ==> !(#[trigger] second[k]).votes.contains(voter);
    assert forall|j: int| 0 <= j < second.len() && second[j].text == a implies !(#[trigger] second[j]).votes.contains(voter) by {
        assert(second[f].text == b);
    }
    assert forall|j: int| is_first_text(second, b, j) implies (#[trigger] second[j]).votes.contains(voter) by {
        crate::data_server::lemma_text_position(second, b, j);
        crate::data_server::lemma_text_position(second, b, f);
        assert(occurrences(second[f].votes, voter) == 1);
        if !second[f].votes.contains(voter) {
            lemma_none_equal(second[f].votes, voter);
        }
    }
}

/// A vote never stores a text that is empty or only whitespace: it keeps
/// the texts already there, and a proposition it adds carries the trimmed
/// text, which starts with a character that is not whitespace.
pub proof fn lemma_vote_text_not_blank(s: ServerView, voter: ProfilID, target: ProfilID, text: Seq<char>)
    requires
        s.wf(),
    ensures
        ({
            let before = s.propositions(target);
            let after = s.after_vote(voter, target, trimmed(text)).propositions(target);
            &&& before.len() <= after.len() <= before.len() + 1
            &&& forall|j: int| 0 <= j < before.len() ==> (#[trigger] after[j]).text == before[j].text
            &&& forall|j: int| before.len() <= j < after.len() ==> (#[trigger] after[j]).text == trimmed(text)
                && after[j].text.len() > 0 && !is_white_space(after[j].text[0])
        }),
{
    let t = trimmed(text);
    lemma_trimmed_not_blank(text);
    let before = s.propositions(target);
    if s.permission_flags(voter, target).0 && t.len() > 0 && (has_key(s.ledger, target) || s.has_profile(target)) {
        let props = vote_props(before, voter, t);
        s.lemma_with_propositions(target, props);
        lemma_vote_props_first(before, voter, t);
    }
}

/// The author of a proposition may delete it, whatever its delete policy,
/// as long as the proposition is not protected or the author may bypass
/// the protection.
pub proof fn lemma_author_may_delete(s: ServerView, deleter: ProfilID, target: ProfilID, text: Seq<char>)
    requires
        s.wf(),
        s.permission_of(deleter) is Some,
        has_text(s.propositions(target), text),
        s.propositions(target)[text_position(s.propositions(target), text)].author == deleter,
        !s.propositions(target)[text_position(s.propositions(target), text)].protected
            || s.permission_flags(deleter, target).2,
    ensures
        s.after_delete(deleter, target, text) == s.with_propositions(
            target,
            swap_remove(s.propositions(target), text_position(s.propositions(target), text)),
        ),
{
}

/// A protected proposition stays when the deleter may not bypass the
/// protection, whether or not it is the author.
pub proof fn lemma_protected_stays(s: ServerView, deleter: ProfilID, target: ProfilID, text: Seq<char>)
    requires
        s.wf(),
        has_text(s.propositions(target), text),
        s.propositions(target)[text_position(s.propositions(target), text)].protected,
        !s.permission_flags(deleter, target).2,
    ensures
        s.after_delete(deleter, target, text) == s,
{
}

} // verus!
