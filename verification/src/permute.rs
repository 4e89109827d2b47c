//! Negative examples: windows whose tokens are in another order.

use vstd::prelude::*;
use vstd::multiset::group_multiset_axioms;
use vstd::seq_lib::group_to_multiset_ensures;
use rand::rngs::StdRng;
use crate::generator::{generator_state, shuffle, shuffled_by};
use crate::tensor::copy_all;

verus! {

/// Whether there are two different tokens.
pub open spec fn has_two_kinds(tokens: Seq<u32>) -> bool {
    exists|i: int, j: int|
        0 <= i < tokens.len() && 0 <= j < tokens.len() && #[trigger] tokens[i]
            != #[trigger] tokens[j]
}

/// Whether two windows of the same length differ in two places.
pub open spec fn differ_twice(a: Seq<u32>, b: Seq<u32>) -> bool {
    exists|i: int, j: int|
        0 <= i < j < a.len() && #[trigger] a[i] != b[i] && #[trigger] a[j] != b[j]
}

/// Whether `negative` has the tokens of `tokens` in another order, or in the same order if
/// there is no other.
pub open spec fn is_negative_of(negative: Seq<u32>, tokens: Seq<u32>) -> bool {
    &&& negative.len() == tokens.len()
    &&& negative.to_multiset() == tokens.to_multiset()
    &&& has_two_kinds(tokens) ==> differ_twice(negative, tokens)
}

/// Whether two windows are equal.
fn same_tokens(a: &[u32], b: &[u32]) -> (r: bool)
    requires
        a@.len() == b@.len(),
    ensures
        r == (a@ == b@),
{
    for i in 0..a.len()
        invariant
            a@.len() == b@.len(),
            forall|j: int| 0 <= j < i ==> a@[j] == b@[j],
    {
        if a[i] != b[i] {
            return false;
        }
    }
    assert(a@ =~= b@);
    true
}

/// Two windows with the same tokens that differ at all differ in two places.
pub proof fn law_differ_twice(a: Seq<u32>, b: Seq<u32>)
    requires
        a.to_multiset() == b.to_multiset(),
        a != b,
    ensures
        a.len() == b.len(),
        differ_twice(a, b),
{
    broadcast use {group_to_multiset_ensures, group_multiset_axioms};

    assert(a.len() == a.to_multiset().len());
    assert(b.len() == b.to_multiset().len());
    if forall|i: int| 0 <= i < a.len() ==> a[i] == b[i] {
        assert(a =~= b);
    }
    let i = choose|i: int| 0 <= i < a.len() && a[i] != b[i];
    if !differ_twice(a, b) {
        assert forall|j: int| 0 <= j < a.len() && j != i implies a[j] == b[j] by {
            if a[j] != b[j] {
                if i < j {
                    assert(a[i] != b[i] && a[j] != b[j]);
                } else {
                    assert(a[j] != b[j] && a[i] != b[i]);
                }
            }
        }
        assert(a =~= b.update(i, a[i]));
        assert(b.contains(b[i]));
        assert(a.to_multiset() == b.to_multiset().insert(a[i]).remove(b[i]));
        assert(a.to_multiset().count(b[i]) == b.to_multiset().count(b[i]) - 1);
    }
}

/// The first place, from `i` on, with a token that differs from the first one.
pub open spec fn first_other(tokens: Seq<u32>, i: nat) -> nat
    decreases tokens.len() - i,
{
    if i >= tokens.len() || tokens[i as int] != tokens[0] {
        i
    } else {
        first_other(tokens, i + 1)
    }
}

/// The window with the first token exchanged for the first one that differs from it.
pub open spec fn exchanged_first(tokens: Seq<u32>) -> Seq<u32> {
    let i = first_other(tokens, 0) as int;
    if i < tokens.len() {
        tokens.update(0, tokens[i]).update(i, tokens[0])
    } else {
        tokens
    }
}

/// The window with the first token exchanged for the first one that differs from it. A
/// window with two different tokens changes in this way.
pub fn exchange_first(tokens: &[u32]) -> (r: Vec<u32>)
    ensures
        r@ == exchanged_first(tokens@),
        r@.len() == tokens@.len(),
        r@.to_multiset() == tokens@.to_multiset(),
        has_two_kinds(tokens@) ==> r@ != tokens@,
{
    let mut p = copy_all(tokens);
    for i in 0..tokens.len()
        invariant
            p@ == tokens@,
            first_other(tokens@, 0) == first_other(tokens@, i as nat),
            forall|j: int| 0 <= j < i ==> #[trigger] tokens@[j] == tokens@[0],
    {
        if tokens[i] != tokens[0] {
            let first: u32 = tokens[0];
            p[0] = tokens[i];
            p[i] = first;
            proof {
                lemma_exchange_keeps(tokens@, i as int);
                assert(p@ == tokens@.update(0, tokens@[i as int]).update(i as int, tokens@[0]));
                assert(p@[0] != tokens@[0]);
            }
            return p;
        }
    }
    proof {
        if has_two_kinds(tokens@) {
            let (i, j) = choose|i: int, j: int|
                0 <= i < tokens@.len() && 0 <= j < tokens@.len() && #[trigger] tokens@[i]
                    != #[trigger] tokens@[j];
            assert(tokens@[i] == tokens@[0] && tokens@[j] == tokens@[0]);
        }
    }
    p
}

proof fn lemma_exchange_keeps(s: Seq<u32>, i: int)
    requires
        0 < i < s.len(),
    ensures
        s.update(0, s[i]).update(i, s[0]).to_multiset() == s.to_multiset(),
{
    broadcast use {group_to_multiset_ensures, group_multiset_axioms};

    let a = s.update(0, s[i]);
    let b = a.update(i, s[0]);
    assert(s.contains(s[0]));
    assert(a.contains(a[i]));
    assert(a[i] == s[i]);
    assert(a.to_multiset() == s.to_multiset().insert(s[i]).remove(s[0]));
    assert(b.to_multiset() == a.to_multiset().insert(s[0]).remove(s[i]));
    assert(b.to_multiset() =~= s.to_multiset());
}

/// What at most `n` shuffles of `current` lead to, with a generator in the given state: they
/// end as soon as the order is not that of `tokens`.
pub open spec fn shuffled_until(
    tokens: Seq<u32>,
    current: Seq<u32>,
    state: Seq<u32>,
    n: nat,
) -> (Seq<u32>, Seq<u32>)
    decreases n,
{
    if n == 0 || current != tokens {
        (current, state)
    } else {
        let (next, after) = shuffled_by(current, state);
        shuffled_until(tokens, next, after, (n - 1) as nat)
    }
}

/// The negative of a window from a generator in the given state, and the state behind it.
pub open spec fn permuted(tokens: Seq<u32>, state: Seq<u32>) -> (Seq<u32>, Seq<u32>) {
    let (p, after) = shuffled_until(tokens, tokens, state, 8);
    (
        if p == tokens {
            exchanged_first(tokens)
        } else {
            p
        },
        after,
    )
}

/// The tokens of a window in a random order that differs from theirs in two places at
/// least. A window in which all tokens are equal stays as it is.
pub fn permute_window(tokens: &[u32], rng: &mut StdRng) -> (r: Vec<u32>)
    ensures
        (r@, generator_state(*final(rng))) == permuted(tokens@, generator_state(*old(rng))),
        is_negative_of(r@, tokens@),
{
    let ghost state = generator_state(*rng);
    let mut p = copy_all(tokens);
    let mut tries: usize = 0;
    let mut same: bool = true;
    while same && tries < 8
        invariant
            tries <= 8,
            p@.len() == tokens@.len(),
            p@.to_multiset() == tokens@.to_multiset(),
            same == (p@ == tokens@),
            shuffled_until(tokens@, tokens@, state, 8) == shuffled_until(
                tokens@,
                p@,
                generator_state(*rng),
                (8 - tries) as nat,
            ),
        decreases 8 - tries,
    {
        shuffle(&mut p, rng);
        proof {
            broadcast use group_to_multiset_ensures;

            assert(p@.len() == p@.to_multiset().len());
            assert(tokens@.len() == tokens@.to_multiset().len());
        }
        same = same_tokens(&p, tokens);
        tries = tries + 1;
    }
    if same {
        p = exchange_first(tokens);
    }
    proof {
        if p@ != tokens@ {
            law_differ_twice(p@, tokens@);
        }
    }
    p
}

} // verus!
