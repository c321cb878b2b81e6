//! Keeping the items of a sequence that a run of verdicts picks out.
use vstd::prelude::*;
use crate::order::{le, lt, sorted, strictly_sorted};

verus! {

/// The items `s[j]` with `keep[j]` true, in their order.
pub open spec fn select<T>(s: Seq<T>, keep: Seq<bool>) -> Seq<T>
    decreases s.len(),
{
    if s.len() == 0 {
        Seq::empty()
    } else {
        let rest = select(s.drop_last(), keep.take(s.len() - 1));
        if keep[s.len() - 1] {
            rest.push(s.last())
        } else {
            rest
        }
    }
}

/// What is selected from a sorted sequence is sorted, from an increasing one
/// increasing, and each item of it stands in the input.
pub proof fn lemma_select_sorted<T: Ord>(s: Seq<T>, keep: Seq<bool>)
    requires
        keep.len() == s.len(),
    ensures
        sorted(s) ==> sorted(select(s, keep)),
        strictly_sorted(s) ==> strictly_sorted(select(s, keep)),
        forall|k: int|
            0 <= k < select(s, keep).len() ==> exists|j: int|
                0 <= j < s.len() && #[trigger] select(s, keep)[k] == s[j],
    decreases s.len(),
{
    if s.len() > 0 {
        let init = s.drop_last();
        let kt = keep.take(s.len() - 1);
        lemma_select_sorted(init, kt);
        let rest = select(init, kt);
        assert forall|k: int| 0 <= k < rest.len() implies (sorted(s) ==> le(
            #[trigger] rest[k],
            s.last(),
        )) && (strictly_sorted(s) ==> lt(rest[k], s.last())) by {
            let j = choose|j: int| 0 <= j < init.len() && rest[k] == init[j];
            assert(sorted(s) ==> le(s[j], s[s.len() - 1]));
            assert(strictly_sorted(s) ==> lt(s[j], s[s.len() - 1]));
        }
        let d = select(s, keep);
        assert forall|k: int| 0 <= k < d.len() implies exists|j: int|
            0 <= j < s.len() && #[trigger] d[k] == s[j] by {
            if k < rest.len() {
                let j = choose|j: int| 0 <= j < init.len() && rest[k] == init[j];
                assert(d[k] == s[j]);
            } else {
                assert(d[k] == s[s.len() - 1]);
            }
        }
    }
}

} // verus!
