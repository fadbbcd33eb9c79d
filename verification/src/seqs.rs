//! Facts about sequences.

use vstd::prelude::*;

verus! {

/// Filtering a sequence with one more element.
pub proof fn lemma_filter_push<A>(s: Seq<A>, x: A, keep: spec_fn(A) -> bool)
    ensures
        s.push(x).filter(keep) == if keep(x) {
            s.filter(keep).push(x)
        } else {
            s.filter(keep)
        },
{
    reveal(Seq::filter);
    assert(s.push(x).drop_last() =~= s);
}

/// One more element in front of a sequence cut off at a place.
pub proof fn lemma_take_push<A>(s: Seq<A>, n: int)
    requires
        0 <= n < s.len(),
    ensures
        s.take(n + 1) == s.take(n).push(s[n]),
{
    assert(s.take(n + 1) =~= s.take(n).push(s[n]));
}

/// What a filter lets through stands in the sequence.
pub proof fn lemma_filter_from<A>(s: Seq<A>, keep: spec_fn(A) -> bool, m: int)
    requires
        0 <= m < s.filter(keep).len(),
    ensures
        s.contains(s.filter(keep)[m]),
    decreases s.len(),
{
    reveal(Seq::filter);
    if s.len() > 0 {
        let rest = s.drop_last();
        if m < rest.filter(keep).len() {
            lemma_filter_from(rest, keep, m);
            let i = choose|i: int| 0 <= i < rest.len() && rest[i] == rest.filter(keep)[m];
            assert(s[i] == s.filter(keep)[m]);
        } else {
            assert(s[s.len() - 1] == s.filter(keep)[m]);
        }
    }
}

/// Whether `part` is what stands in `whole` at `places`, from left to right.
pub open spec fn stands_at<A>(part: Seq<A>, whole: Seq<A>, places: Seq<int>) -> bool {
    &&& places.len() == part.len()
    &&& forall|k: int|
        0 <= k < places.len() ==> 0 <= #[trigger] places[k] < whole.len() && part[k]
            == whole[places[k]]
    &&& forall|j: int, k: int|
        0 <= j < k < places.len() ==> #[trigger] places[j] < #[trigger] places[k]
}

/// Where the elements that a filter lets through stand.
pub proof fn lemma_filter_places<A>(s: Seq<A>, keep: spec_fn(A) -> bool) -> (places: Seq<int>)
    ensures
        stands_at(s.filter(keep), s, places),
        forall|i: int| 0 <= i < s.len() ==> (places.contains(i) <==> keep(#[trigger] s[i])),
    decreases s.len(),
{
    reveal(Seq::filter);
    if s.len() == 0 {
        Seq::empty()
    } else {
        let rest = s.drop_last();
        let last = s.len() - 1;
        let before = lemma_filter_places(rest, keep);
        let places = if keep(s.last()) {
            before.push(last)
        } else {
            before
        };
        assert forall|i: int| 0 <= i < s.len() implies (places.contains(i) <==> keep(
            #[trigger] s[i],
        )) by {
            if i < last {
                assert(rest[i] == s[i]);
                if before.contains(i) {
                    let k = choose|k: int| 0 <= k < before.len() && before[k] == i;
                    assert(places[k] == i);
                }
                if places.contains(i) {
                    let k = choose|k: int| 0 <= k < places.len() && places[k] == i;
                    assert(before[k] == i);
                }
            } else if keep(s.last()) {
                assert(places[before.len() as int] == i);
            }
        }
        places
    }
}

} // verus!
