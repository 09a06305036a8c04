//! The first element of a sequence that has a property, and the least number that has one.
use vstd::prelude::*;

verus! {

/// The first element of `s` for which `p` holds, if there is one.
pub open spec fn first_match<T>(s: Seq<T>, p: spec_fn(T) -> bool) -> Option<T>
    decreases s.len(),
{
    if s.len() == 0 {
        None
    } else if p(s[0]) {
        Some(s[0])
    } else {
        first_match(s.skip(1), p)
    }
}

/// Looking from position `i` on is looking at the element there, then from the next position on.
pub proof fn lemma_first_match_step<T>(s: Seq<T>, p: spec_fn(T) -> bool, i: int)
    requires
        0 <= i < s.len(),
    ensures
        first_match(s.skip(i), p) == if p(s[i]) {
            Some(s[i])
        } else {
            first_match(s.skip(i + 1), p)
        },
{
    assert(s.skip(i)[0] == s[i]);
    assert(s.skip(i).skip(1) =~= s.skip(i + 1));
}

/// A match is an element of the sequence that has the property; without a match no element has it.
pub proof fn lemma_first_match<T>(s: Seq<T>, p: spec_fn(T) -> bool)
    ensures
        match first_match(s, p) {
            Some(x) => p(x) && s.contains(x),
            None => forall|i: int| 0 <= i < s.len() ==> !p(#[trigger] s[i]),
        },
    decreases s.len(),
{
    if s.len() > 0 && !p(s[0]) {
        lemma_first_match(s.skip(1), p);
        match first_match(s, p) {
            Some(x) => {
                let j = choose|j: int| 0 <= j < s.skip(1).len() && s.skip(1)[j] == x;
                assert(s[j + 1] == x);
            },
            None => {
                assert forall|i: int| 0 <= i < s.len() implies !p(#[trigger] s[i]) by {
                    if i > 0 {
                        assert(s.skip(1)[i - 1] == s[i]);
                    }
                }
            },
        }
    }
}

/// The place of a match: no element before it has the property.
pub proof fn lemma_first_match_at<T>(s: Seq<T>, p: spec_fn(T) -> bool) -> (i: int)
    requires
        first_match(s, p) is Some,
    ensures
        0 <= i < s.len(),
        first_match(s, p) == Some(s[i]),
        p(s[i]),
        forall|j: int| 0 <= j < i ==> !p(#[trigger] s[j]),
    decreases s.len(),
{
    if p(s[0]) {
        0
    } else {
        let i = lemma_first_match_at(s.skip(1), p) + 1;
        assert forall|j: int| 0 <= j < i implies !p(#[trigger] s[j]) by {
            if j > 0 {
                assert(s.skip(1)[j - 1] == s[j]);
            }
        }
        i
    }
}

/// An element that has the property is the match where none before it has it.
pub proof fn lemma_is_first_match<T>(s: Seq<T>, p: spec_fn(T) -> bool, i: int)
    requires
        0 <= i < s.len(),
        p(s[i]),
        forall|j: int| 0 <= j < i ==> !p(#[trigger] s[j]),
    ensures
        first_match(s, p) == Some(s[i]),
    decreases s.len(),
{
    if i > 0 {
        assert(!p(s[0]));
        assert forall|j: int| 0 <= j < i - 1 implies !p(#[trigger] s.skip(1)[j]) by {
            assert(s.skip(1)[j] == s[j + 1]);
        }
        lemma_is_first_match(s.skip(1), p, i - 1);
    }
}

/// The least number for which `p` holds, where there is one.
pub open spec fn least(p: spec_fn(nat) -> bool) -> nat {
    choose|n: nat| #[trigger] p(n) && forall|m: nat| m < n ==> !#[trigger] p(m)
}

/// Where `p` holds of some number, it holds of the least one, which is no larger.
pub proof fn lemma_least(p: spec_fn(nat) -> bool, n: nat)
    requires
        p(n),
    ensures
        p(least(p)),
        least(p) <= n,
        forall|m: nat| m < least(p) ==> !#[trigger] p(m),
{
    lemma_least_exists(p, n);
    let l = least(p);
    assert(p(l) && forall|m: nat| m < l ==> !#[trigger] p(m));
}

proof fn lemma_least_exists(p: spec_fn(nat) -> bool, n: nat)
    requires
        p(n),
    ensures
        exists|l: nat| #[trigger] p(l) && forall|m: nat| m < l ==> !#[trigger] p(m),
    decreases n,
{
    if exists|m: nat| m < n && #[trigger] p(m) {
        let m = choose|m: nat| m < n && #[trigger] p(m);
        lemma_least_exists(p, m);
    } else {
        assert(p(n) && forall|m: nat| m < n ==> !#[trigger] p(m));
    }
}

} // verus!
