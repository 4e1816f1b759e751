//! Laws of filtered lists.

use vstd::prelude::*;

verus! {

/// Filtering a list with one more item is filtering the list and then
/// deciding on the item.
pub proof fn lemma_filter_push<A>(s: Seq<A>, item: A, keep: spec_fn(A) -> bool)
    ensures
        s.push(item).filter(keep) == (if keep(item) {
            s.filter(keep).push(item)
        } else {
            s.filter(keep)
        }),
{
    reveal(Seq::filter);
    assert(s.push(item).drop_last() =~= s);
}

/// A filtered list holds exactly the items of the list that are kept, and
/// holds none twice where the list holds none twice.
pub proof fn lemma_filter_members<A>(s: Seq<A>, keep: spec_fn(A) -> bool)
    ensures
        forall|x: A| #[trigger] s.filter(keep).contains(x) <==> s.contains(x) && keep(x),
        s.no_duplicates() ==> s.filter(keep).no_duplicates(),
    decreases s.len(),
{
    reveal(Seq::filter);
    if s.len() == 0 {
        assert(s.filter(keep) =~= Seq::<A>::empty());
    } else {
        let head = s.drop_last();
        let last = s.last();
        lemma_filter_members(head, keep);
        assert(s == head.push(last));
        lemma_filter_push(head, last, keep);
        let kept = head.filter(keep);
        let all = s.filter(keep);
        assert forall|x: A| #[trigger] all.contains(x) <==> s.contains(x) && keep(x) by {
            if all.contains(x) {
                let i = choose|i: int| 0 <= i < all.len() && all[i] == x;
                if keep(last) && i == kept.len() {
                    assert(s[s.len() - 1] == x);
                } else {
                    assert(kept[i] == x);
                    assert(kept.contains(x));
                    let j = choose|j: int| 0 <= j < head.len() && head[j] == x;
                    assert(s[j] == x);
                }
            }
            if s.contains(x) && keep(x) {
                let j = choose|j: int| 0 <= j < s.len() && s[j] == x;
                if j < head.len() {
                    assert(head[j] == x);
                    assert(head.contains(x));
                    assert(kept.contains(x));
                    let i = choose|i: int| 0 <= i < kept.len() && kept[i] == x;
                    assert(all[i] == x);
                } else {
                    assert(x == last);
                    assert(all[kept.len() as int] == x);
                }
            }
        }
        if s.no_duplicates() {
            assert(head.no_duplicates());
            if keep(last) {
                assert forall|a: int, b: int|
                    0 <= a < all.len() && 0 <= b < all.len() && a != b implies all[a] != all[b] by {
                    if a < kept.len() && b < kept.len() {
                        assert(kept[a] != kept[b]);
                    } else {
                        let other = if a < kept.len() {
                            a
                        } else {
                            b
                        };
                        assert(kept.contains(kept[other]));
                        assert(head.contains(kept[other]));
                        let j = choose|j: int| 0 <= j < head.len() && head[j] == kept[other];
                        assert(s[j] != s[s.len() - 1]);
                    }
                }
            }
        }
    }
}

} // verus!
