//! Keeping the best-scoring candidates of a row.

use crate::order::partition_at;
use crate::storage::{DataStorage, IndexStorage};
use vstd::multiset::Multiset;
use vstd::prelude::*;
use vstd::seq_lib::{group_to_multiset_ensures, lemma_multiset_commutative};

verus! {

/// Stored `(column, value)` pairs as pairs of numbers `(column, score)`.
pub open spec fn scored<T: DataStorage, J: IndexStorage>(v: Seq<(J, T)>) -> Seq<(nat, nat)> {
    v.map_values(|x: (J, T)| (x.0.as_nat(), x.1.value()))
}

/// `kept` is a choice of the `ntop` best of `cands`: it has `ntop` elements, or
/// all of them if there are fewer; it is taken from `cands`, each element as
/// often as it occurs there at most; and nothing left behind scores higher than
/// anything kept. Equal scores may be chosen among freely.
pub open spec fn is_top_selection(cands: Seq<(nat, nat)>, kept: Seq<(nat, nat)>, ntop: nat) -> bool {
    &&& kept.len() == if cands.len() <= ntop {
        cands.len()
    } else {
        ntop
    }
    &&& kept.to_multiset().subset_of(cands.to_multiset())
    &&& forall|x: (nat, nat), y: (nat, nat)|
        #![trigger cands.to_multiset().sub(kept.to_multiset()).count(x), kept.to_multiset().count(y)]
        cands.to_multiset().sub(kept.to_multiset()).count(x) > 0 && kept.to_multiset().count(y)
            > 0 ==> x.1 <= y.1
}

/// Two sequences with the same elements still have the same elements after
/// both are mapped through `f`.
pub proof fn lemma_map_keeps_multiset<A, B>(s: Seq<A>, t: Seq<A>, f: spec_fn(A) -> B)
    requires
        s.to_multiset() == t.to_multiset(),
    ensures
        s.map_values(f).to_multiset() == t.map_values(f).to_multiset(),
    decreases s.len(),
{
    broadcast use group_to_multiset_ensures;

    if s.len() == 0 {
        assert(t.len() == 0) by {
            assert(s.to_multiset().len() == s.len());
            assert(t.to_multiset().len() == t.len());
        }
        assert(s.map_values(f) =~= t.map_values(f));
    } else {
        let x = s.last();
        let s1 = s.drop_last();
        assert(s =~= s1.push(x));
        assert(s.contains(x));
        assert(t.to_multiset().count(x) > 0);
        assert(t.contains(x));
        let i = choose|i: int| 0 <= i < t.len() && t[i] == x;
        let t1 = t.remove(i);
        assert(s1.to_multiset() =~= s.to_multiset().remove(x));
        lemma_map_keeps_multiset(s1, t1, f);
        assert(s.map_values(f) =~= s1.map_values(f).push(f(x)));
        assert(t1.map_values(f) =~= t.map_values(f).remove(i));
        assert(t.map_values(f)[i] == f(x));
        assert(t.map_values(f).to_multiset().count(f(x)) > 0) by {
            assert(t.map_values(f).contains(f(x)));
        }
        assert(t.map_values(f).to_multiset() =~= t1.map_values(f).to_multiset().insert(f(x)));
    }
}

/// Keeps the `ntop` highest-scoring candidates, in no particular order.
pub fn select_topn<T: DataStorage, J: IndexStorage>(candidates: Vec<(J, T)>, ntop: usize) -> (kept:
    Vec<(J, T)>)
    ensures
        is_top_selection(scored(candidates@), scored(kept@), ntop as nat),
{
    if candidates.len() <= ntop {
        proof {
            let m = scored(candidates@).to_multiset();
            assert(m.sub(m) =~= Multiset::empty());
        }
        candidates
    } else {
        let mut v = candidates;
        partition_at(&mut v, ntop);
        let ghost parted = v@;
        v.truncate(ntop);
        proof {
            broadcast use group_to_multiset_ensures;

            let f = |x: (J, T)| (x.0.as_nat(), x.1.value());
            let all = scored(parted);
            let kept = scored(v@);
            let rest = scored(parted.skip(ntop as int));
            lemma_map_keeps_multiset(parted, candidates@, f);
            assert(parted.len() == candidates@.len()) by {
                assert(parted.to_multiset().len() == parted.len());
                assert(candidates@.to_multiset().len() == candidates@.len());
            }
            assert(all =~= kept + rest);
            lemma_multiset_commutative(kept, rest);
            assert(all.to_multiset().sub(kept.to_multiset()) =~= rest.to_multiset());
            assert forall|x: (nat, nat), y: (nat, nat)|
                rest.to_multiset().count(x) > 0 && kept.to_multiset().count(y)
                    > 0 implies x.1 <= y.1 by {
                assert(rest.contains(x));
                assert(kept.contains(y));
                let j = choose|j: int| 0 <= j < rest.len() && rest[j] == x;
                let i = choose|i: int| 0 <= i < kept.len() && kept[i] == y;
                assert(parted[i].1.value() >= parted[ntop + j].1.value());
            }
        }
        v
    }
}

} // verus!
