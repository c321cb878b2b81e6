//! Removal of consecutive repeats, as `Vec::dedup` does it: an item goes
//! when it equals the last item kept before it.
use vstd::prelude::*;
use vstd::std_specs::cmp::PartialEqSpec;

verus! {

/// `s` with every item dropped that equals the last item kept before it.
pub open spec fn dedup_spec<T: PartialEq>(s: Seq<T>) -> Seq<T>
    decreases s.len(),
{
    if s.len() == 0 {
        s
    } else {
        let kept = dedup_spec(s.drop_last());
        if kept.len() > 0 && kept.last().eq_spec(&s.last()) {
            kept
        } else {
            kept.push(s.last())
        }
    }
}

/// Removes consecutive repeats from `v` in place of `Vec::dedup`.
pub fn dedup_vec<T: PartialEq>(v: &mut Vec<T>)
    ensures
        T::obeys_eq_spec() ==> final(v)@ == dedup_spec(old(v)@),
{
    let mut items: Vec<T> = Vec::new();
    core::mem::swap(v, &mut items);
    let ghost all = items@;
    for x in it: items.into_iter()
        invariant
            it.seq() == all,
            T::obeys_eq_spec() ==> v@ == dedup_spec(all.take(it.index() as int)),
    {
        let ghost i = it.index() as int;
        proof {
            assert(x == all[i]);
            assert(all.take(i + 1).drop_last() == all.take(i));
            assert(all.take(i + 1).last() == x);
            assert(all.take(i + 1).len() > 0);
            assert(T::obeys_eq_spec() ==> dedup_spec(all.take(i + 1)) == if v@.len() > 0 && v@.last().eq_spec(&x) {
                v@
            } else {
                v@.push(x)
            });
        }
        let keep = if v.len() == 0 {
            true
        } else {
            !(v[v.len() - 1] == x)
        };
        if keep {
            v.push(x);
        }
        assert(T::obeys_eq_spec() ==> v@ == dedup_spec(all.take(i + 1)));
    }
    proof {
        assert(all.take(all.len() as int) == all);
    }
}

/// For each key, whether it differs from the last key kept before it: the
/// first key of every run of equal keys.
pub open spec fn fresh_keys<K: PartialEq>(ks: Seq<K>) -> Seq<bool> {
    Seq::new(
        ks.len(),
        |i: int|
            {
                let kept = dedup_spec(ks.take(i));
                !(kept.len() > 0 && kept.last().eq_spec(&ks[i]))
            },
    )
}

} // verus!
