//! What a filter keeps of a sequence.

use vstd::prelude::*;

verus! {

/// What is kept by a filter: the members that pass it.
pub proof fn lemma_filter_members<A>(s: Seq<A>, pred: spec_fn(A) -> bool)
    ensures
        forall|a: A| #[trigger] s.filter(pred).contains(a) <==> s.contains(a) && pred(a),
{
    assert forall|a: A| #[trigger] s.filter(pred).contains(a) <==> s.contains(a) && pred(a) by {
        if s.filter(pred).contains(a) {
            s.lemma_filter_contains_rev(pred, a);
            let i = choose|i: int| 0 <= i < s.filter(pred).len() && s.filter(pred)[i] == a;
            s.lemma_filter_pred(pred, i);
        }
        if s.contains(a) && pred(a) {
            let i = choose|i: int| 0 <= i < s.len() && s[i] == a;
            s.lemma_filter_contains(pred, i);
        }
    }
}

/// Filtering keeps a sequence free of duplicates.
pub proof fn lemma_filter_no_duplicates<A>(s: Seq<A>, pred: spec_fn(A) -> bool)
    requires
        s.no_duplicates(),
    ensures
        s.filter(pred).no_duplicates(),
    decreases s.len(),
{
    reveal(Seq::filter);
    if s.len() > 0 {
        let rest = s.drop_last();
        lemma_filter_no_duplicates(rest, pred);
        if pred(s.last()) {
            let kept = rest.filter(pred);
            assert forall|i: int| 0 <= i < kept.len() implies kept[i] != s.last() by {
                if kept[i] == s.last() {
                    assert(kept.contains(s.last()));
                    rest.lemma_filter_contains_rev(pred, s.last());
                    let j = choose|j: int| 0 <= j < rest.len() && rest[j] == s.last();
                    assert(s[j] == s[s.len() - 1]);
                }
            }
        }
    }
}

/// A filter that every member passes keeps the sequence as it is.
pub proof fn lemma_filter_all<A>(s: Seq<A>, pred: spec_fn(A) -> bool)
    requires
        forall|i: int| 0 <= i < s.len() ==> pred(#[trigger] s[i]),
    ensures
        s.filter(pred) == s,
    decreases s.len(),
{
    reveal(Seq::filter);
    if s.len() > 0 {
        lemma_filter_all(s.drop_last(), pred);
        assert(s.drop_last().push(s.last()) =~= s);
    }
}

/// A filter that no member passes keeps nothing.
pub proof fn lemma_filter_nothing<A>(s: Seq<A>, pred: spec_fn(A) -> bool)
    requires
        forall|i: int| 0 <= i < s.len() ==> !pred(#[trigger] s[i]),
    ensures
        s.filter(pred).len() == 0,
    decreases s.len(),
{
    reveal(Seq::filter);
    if s.len() > 0 {
        lemma_filter_nothing(s.drop_last(), pred);
    }
}

/// A sequence without duplicates has two members or more exactly if it has
/// two different ones.
pub proof fn lemma_two_members<A>(s: Seq<A>)
    requires
        s.no_duplicates(),
    ensures
        s.len() >= 2 <==> exists|a: A, b: A| #![auto] s.contains(a) && s.contains(b) && a != b,
        s.len() == 0 <==> forall|a: A| !s.contains(a),
{
    if s.len() >= 2 {
        assert(s.contains(s[0]) && s.contains(s[1]) && s[0] != s[1]);
    }
    if exists|a: A, b: A| #![auto] s.contains(a) && s.contains(b) && a != b {
        let (a, b) = choose|a: A, b: A| #![auto] s.contains(a) && s.contains(b) && a != b;
        let i = choose|i: int| 0 <= i < s.len() && s[i] == a;
        let j = choose|j: int| 0 <= j < s.len() && s[j] == b;
        assert(i != j);
    }
    if s.len() > 0 {
        assert(s.contains(s[0]));
    }
}

} // verus!
