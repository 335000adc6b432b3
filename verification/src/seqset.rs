//! Small facts about sequences and finite sets shared by the other
//! modules.

use vstd::prelude::*;
use vstd::set_lib::group_set_properties;

verus! {

pub proof fn lemma_contains_push<A>(s: Seq<A>, v: A, x: A)
    ensures
        s.push(v).contains(x) <==> (s.contains(x) || x == v),
{
    if s.contains(x) {
        let i = choose|i: int| 0 <= i < s.len() && s[i] == x;
        assert(s.push(v)[i] == x);
    }
    if x == v {
        assert(s.push(v)[s.len() as int] == x);
    }
    if s.push(v).contains(x) {
        let i = choose|i: int| 0 <= i < s.push(v).len() && s.push(v)[i] == x;
        if i < s.len() {
            assert(s[i] == x);
        }
    }
}

pub proof fn lemma_no_dup_push<A>(s: Seq<A>, v: A)
    requires
        s.no_duplicates(),
        !s.contains(v),
    ensures
        s.push(v).no_duplicates(),
{
    assert forall|i: int, j: int|
        0 <= i < s.push(v).len() && 0 <= j < s.push(v).len() && i != j implies s.push(v)[i]
        != s.push(v)[j] by {
        if i < s.len() && j < s.len() {
        } else if i < s.len() {
            assert(s[i] == s.push(v)[i]);
        } else {
            assert(s[j] == s.push(v)[j]);
        }
    }
}

/// In a finite set of size one, every member is the chosen one.
pub proof fn lemma_singleton_member<A>(s: Set<A>, a: A)
    requires
        s.finite(),
        s.len() == 1,
        s.contains(a),
    ensures
        s.choose() == a,
{
    Set::lemma_is_singleton(s);
    assert(s.contains(s.choose()));
}

/// A finite set with two distinct members has at least two elements.
pub proof fn lemma_two_members_len<A>(s: Set<A>, a: A, b: A)
    requires
        s.finite(),
        s.contains(a),
        s.contains(b),
        a != b,
    ensures
        s.len() >= 2,
{
    broadcast use group_set_properties;

    let s1 = s.remove(a);
    assert(s1.contains(b));
    if s1.len() == 0 {
        s1.lemma_len0_is_empty();
    }
    assert(s1.len() >= 1);
    assert(s.len() == s1.len() + 1);
}

} // verus!
