//! Vector extensions: retain the elements a predicate keeps, and move the
//! rest into another vector.

use vstd::prelude::*;
use vstd::multiset::Multiset;
use vstd::seq_lib::group_to_multiset_ensures;

verus! {

broadcast use group_to_multiset_ensures, vstd::multiset::group_multiset_axioms;

/// Retain the elements `f` keeps and append the others to `m`.
pub trait RetainAndAppend<T, F>: View<V = Seq<T>> where F: Fn(&T) -> bool {
    /// After the call, the retained elements each satisfy `f` and the
    /// elements moved to `m` each fail it; nothing is lost or invented.
    fn retain_and_append(&mut self, m: &mut Vec<T>, f: F)
        requires
            forall|i: int| 0 <= i < old(self)@.len() ==> call_requires(f, (&old(self)@[i],)),
        ensures
            final(self)@.to_multiset().add(final(m)@.to_multiset()) == old(self)@.to_multiset().add(
                old(m)@.to_multiset(),
            ),
            forall|i: int|
                0 <= i < final(self)@.len() ==> call_ensures(f, (&final(self)@[i],), true),
            old(m)@.is_prefix_of(final(m)@),
            forall|i: int|
                old(m)@.len() <= i < final(m)@.len() ==> call_ensures(f, (&final(m)@[i],), false),
    ;
}

impl<T, F: Fn(&T) -> bool> RetainAndAppend<T, F> for Vec<T> {
    fn retain_and_append(&mut self, m: &mut Vec<T>, f: F) {
        let ghost s0 = self@;
        let ghost m0 = m@;
        let mut kept: Vec<T> = Vec::new();
        while self.len() > 0
            invariant
                forall|i: int| 0 <= i < s0.len() ==> call_requires(f, (&s0[i],)),
                self@.len() <= s0.len(),
                self@ == s0.subrange(0, self@.len() as int),
                self@.to_multiset().add(kept@.to_multiset()).add(m@.to_multiset())
                    == s0.to_multiset().add(m0.to_multiset()),
                forall|i: int| 0 <= i < kept@.len() ==> call_ensures(f, (&kept@[i],), true),
                m0.is_prefix_of(m@),
                forall|i: int| m0.len() <= i < m@.len() ==> call_ensures(f, (&m@[i],), false),
            decreases self@.len(),
        {
            let ghost prev = self@;
            let x = self.pop().unwrap();
            proof {
                assert(self@ == prev.drop_last());
                assert(x == prev.last());
                assert(prev.drop_last() =~= prev.remove(prev.len() - 1));
                assert(self@ =~= s0.subrange(0, self@.len() as int));
                assert(x == s0[self@.len() as int]);
            }
            if f(&x) {
                kept.push(x);
            } else {
                m.push(x);
            }
            proof {
                assert(self@.to_multiset().add(kept@.to_multiset()).add(m@.to_multiset())
                    =~= s0.to_multiset().add(m0.to_multiset()));
            }
        }
        // move the kept elements back, restoring their order
        while kept.len() > 0
            invariant
                self@.to_multiset().add(kept@.to_multiset()).add(m@.to_multiset())
                    == s0.to_multiset().add(m0.to_multiset()),
                forall|i: int| 0 <= i < self@.len() ==> call_ensures(f, (&self@[i],), true),
                forall|i: int| 0 <= i < kept@.len() ==> call_ensures(f, (&kept@[i],), true),
                m0.is_prefix_of(m@),
                forall|i: int| m0.len() <= i < m@.len() ==> call_ensures(f, (&m@[i],), false),
            decreases kept@.len(),
        {
            let ghost kprev = kept@;
            let x = kept.pop().unwrap();
            proof {
                assert(kprev.drop_last() =~= kprev.remove(kprev.len() - 1));
            }
            self.push(x);
            proof {
                assert(self@.to_multiset().add(kept@.to_multiset()).add(m@.to_multiset())
                    =~= s0.to_multiset().add(m0.to_multiset()));
            }
        }
        proof {
            assert(kept@.to_multiset() =~= Multiset::<T>::empty());
            assert(self@.to_multiset().add(m@.to_multiset()) =~= s0.to_multiset().add(
                m0.to_multiset(),
            ));
        }
    }
}

} // verus!
