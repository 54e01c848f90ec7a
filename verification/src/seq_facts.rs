//! Small general facts about `Seq::filter`, used by the store's pruning and
//! range-query proofs.

use vstd::prelude::*;

verus! {

/// Filtering a sequence extended by one element keeps the filtered prefix and
/// appends the new element exactly when it satisfies the predicate.
pub proof fn lemma_filter_push<A>(s: Seq<A>, x: A, p: spec_fn(A) -> bool)
    ensures
        s.push(x).filter(p) == if p(x) {
            s.filter(p).push(x)
        } else {
            s.filter(p)
        },
{
    reveal(Seq::filter);
    assert(s.push(x).drop_last() =~= s);
    assert(s.push(x).last() == x);
}

/// Every element of a filtered sequence occurs in the original sequence.
pub proof fn lemma_filter_elements<A>(s: Seq<A>, p: spec_fn(A) -> bool)
    ensures
        forall|i: int|
            0 <= i < s.filter(p).len() ==> s.contains(#[trigger] s.filter(p)[i]),
    decreases s.len(),
{
    reveal(Seq::filter);
    if s.len() != 0 {
        let dl = s.drop_last();
        lemma_filter_elements(dl, p);
        assert forall|i: int|
            0 <= i < s.filter(p).len() implies s.contains(#[trigger] s.filter(p)[i]) by {
            let sub = dl.filter(p);
            if i < sub.len() {
                assert(dl.contains(sub[i]));
                let j = choose|j: int| 0 <= j < dl.len() && dl[j] == sub[i];
                assert(s[j] == sub[i]);
            } else {
                assert(s.filter(p)[i] == s.last());
                assert(s[s.len() - 1] == s.last());
            }
        }
    }
}

/// A pointwise-stronger predicate never keeps more elements.
pub proof fn lemma_filter_len_mono<A>(s: Seq<A>, p: spec_fn(A) -> bool, q: spec_fn(A) -> bool)
    requires
        forall|i: int| 0 <= i < s.len() ==> (p(#[trigger] s[i]) ==> q(s[i])),
    ensures
        s.filter(p).len() <= s.filter(q).len(),
    decreases s.len(),
{
    reveal(Seq::filter);
    if s.len() != 0 {
        let dl = s.drop_last();
        assert(forall|i: int| 0 <= i < dl.len() ==> dl[i] == s[i]);
        lemma_filter_len_mono(dl, p, q);
        assert(s[s.len() - 1] == s.last());
    }
}

/// Predicates that agree on every element of a sequence filter it to the
/// same subsequence.
pub proof fn lemma_filter_congruent<A>(s: Seq<A>, p: spec_fn(A) -> bool, q: spec_fn(A) -> bool)
    requires
        forall|i: int| 0 <= i < s.len() ==> (p(#[trigger] s[i]) == q(s[i])),
    ensures
        s.filter(p) == s.filter(q),
    decreases s.len(),
{
    reveal(Seq::filter);
    if s.len() != 0 {
        let dl = s.drop_last();
        assert(forall|i: int| 0 <= i < dl.len() ==> dl[i] == s[i]);
        lemma_filter_congruent(dl, p, q);
        assert(s[s.len() - 1] == s.last());
    }
}

/// A predicate true on every element filters a sequence to itself.
pub proof fn lemma_filter_all_true<A>(s: Seq<A>, p: spec_fn(A) -> bool)
    requires
        forall|i: int| 0 <= i < s.len() ==> p(#[trigger] s[i]),
    ensures
        s.filter(p) == s,
    decreases s.len(),
{
    reveal(Seq::filter);
    if s.len() != 0 {
        let dl = s.drop_last();
        assert(forall|i: int| 0 <= i < dl.len() ==> dl[i] == s[i]);
        lemma_filter_all_true(dl, p);
        assert(s[s.len() - 1] == s.last());
        assert(dl.push(s.last()) =~= s);
    }
}

/// A predicate false on every element filters a sequence to the empty one.
pub proof fn lemma_filter_none<A>(s: Seq<A>, p: spec_fn(A) -> bool)
    requires
        forall|i: int| 0 <= i < s.len() ==> !p(#[trigger] s[i]),
    ensures
        s.filter(p) == Seq::<A>::empty(),
    decreases s.len(),
{
    reveal(Seq::filter);
    if s.len() != 0 {
        let dl = s.drop_last();
        assert(forall|i: int| 0 <= i < dl.len() ==> dl[i] == s[i]);
        lemma_filter_none(dl, p);
        assert(s[s.len() - 1] == s.last());
    }
}

/// Filtering drops at least one element when some element fails the
/// predicate.
pub proof fn lemma_filter_strictly_shorter<A>(s: Seq<A>, p: spec_fn(A) -> bool)
    requires
        exists|i: int| 0 <= i < s.len() && !p(#[trigger] s[i]),
    ensures
        s.filter(p).len() < s.len(),
    decreases s.len(),
{
    reveal(Seq::filter);
    let dl = s.drop_last();
    let i = choose|i: int| 0 <= i < s.len() && !p(s[i]);
    dl.lemma_filter_len(p);
    if i == s.len() - 1 {
        assert(!p(s.last()));
    } else {
        assert(dl[i] == s[i]);
        lemma_filter_strictly_shorter(dl, p);
    }
}

/// Restricting with a predicate that is already implied by a first filter
/// gives the same result as restricting the original sequence.
pub proof fn lemma_filter_absorb<A>(s: Seq<A>, p: spec_fn(A) -> bool, q: spec_fn(A) -> bool)
    requires
        forall|i: int| 0 <= i < s.len() ==> (q(#[trigger] s[i]) ==> p(s[i])),
    ensures
        s.filter(p).filter(q) == s.filter(q),
    decreases s.len(),
{
    reveal(Seq::filter);
    if s.len() != 0 {
        let dl = s.drop_last();
        assert(forall|i: int| 0 <= i < dl.len() ==> dl[i] == s[i]);
        lemma_filter_absorb(dl, p, q);
        assert(s[s.len() - 1] == s.last());
        let x = s.last();
        if p(x) {
            assert(s.filter(p) == dl.filter(p).push(x));
            lemma_filter_push(dl.filter(p), x, q);
        } else {
            assert(!q(x));
            assert(s.filter(p) == dl.filter(p));
        }
    }
}

/// Two predicates that never hold together keep disjoint parts of a
/// sequence.
pub proof fn lemma_filter_disjoint_len<A>(s: Seq<A>, p: spec_fn(A) -> bool, q: spec_fn(A) -> bool)
    requires
        forall|i: int| 0 <= i < s.len() ==> !(p(#[trigger] s[i]) && q(s[i])),
    ensures
        s.filter(p).len() + s.filter(q).len() <= s.len(),
    decreases s.len(),
{
    reveal(Seq::filter);
    if s.len() != 0 {
        let dl = s.drop_last();
        assert(forall|i: int| 0 <= i < dl.len() ==> dl[i] == s[i]);
        lemma_filter_disjoint_len(dl, p, q);
        assert(s[s.len() - 1] == s.last());
    }
}

/// Membership in a sequence extended by one element.
pub proof fn lemma_contains_push<A>(s: Seq<A>, x: A, y: A)
    ensures
        s.push(x).contains(y) <==> (s.contains(y) || x == y),
{
    let sp = s.push(x);
    if sp.contains(y) {
        let i = choose|i: int| 0 <= i < sp.len() && sp[i] == y;
        if i < s.len() {
            assert(s[i] == y);
        } else {
            assert(sp[i] == x);
        }
    }
    if s.contains(y) {
        let i = choose|i: int| 0 <= i < s.len() && s[i] == y;
        assert(sp[i] == y);
    }
    assert(sp[s.len() as int] == x);
}

/// Filtering keeps a sequence free of duplicates under any key projection.
pub proof fn lemma_filter_keeps_distinct_keys<A, B>(
    s: Seq<A>,
    p: spec_fn(A) -> bool,
    key: spec_fn(A) -> B,
)
    requires
        forall|i: int, j: int|
            0 <= i < j < s.len() ==> key(#[trigger] s[i]) != key(#[trigger] s[j]),
    ensures
        forall|i: int, j: int|
            0 <= i < j < s.filter(p).len() ==> key(#[trigger] s.filter(p)[i]) != key(
                #[trigger] s.filter(p)[j],
            ),
    decreases s.len(),
{
    reveal(Seq::filter);
    if s.len() != 0 {
        let dl = s.drop_last();
        assert(forall|i: int| 0 <= i < dl.len() ==> dl[i] == s[i]);
        lemma_filter_keeps_distinct_keys(dl, p, key);
        lemma_filter_elements(dl, p);
        assert(s[s.len() - 1] == s.last());
        let out = s.filter(p);
        let sub = dl.filter(p);
        assert forall|i: int, j: int|
            0 <= i < j < out.len() implies key(#[trigger] out[i]) != key(#[trigger] out[j]) by {
            if j < sub.len() {
                assert(out[i] == sub[i] && out[j] == sub[j]);
            } else {
                assert(out[j] == s.last());
                assert(out[i] == sub[i]);
                assert(dl.contains(sub[i]));
                let k = choose|k: int| 0 <= k < dl.len() && dl[k] == sub[i];
                assert(key(s[k]) != key(s[s.len() - 1]));
            }
        }
    }
}

} // verus!
