//! The order in which vehicles competing for the same place are served.
use vstd::prelude::*;
use super::ids::VehicleId;

verus! {

/// The identifiers are in increasing order.
pub open spec fn ids_ascending(s: Seq<VehicleId>) -> bool {
    forall|i: int, j: int| 0 <= i < j < s.len() ==> #[trigger] s[i].0 <= #[trigger] s[j].0
}

/// Serves competing vehicles in increasing order of identifier: the same
/// identifiers, each as often as given, sorted.
pub fn resolve_vehicle_order(ids: Vec<VehicleId>) -> (ordered: Vec<VehicleId>)
    ensures
        ids_ascending(ordered@),
        ordered@.to_multiset() == ids@.to_multiset(),
{
    let mut ordered: Vec<VehicleId> = Vec::new();
    let mut i: usize = 0;
    proof {
        assert(ids@.take(0) =~= Seq::<VehicleId>::empty());
    }
    while i < ids.len()
        invariant
            i <= ids@.len(),
            ids_ascending(ordered@),
            ordered@.to_multiset() == ids@.take(i as int).to_multiset(),
        decreases ids@.len() - i,
    {
        let id = ids[i];
        let mut p: usize = ordered.len();
        while p > 0 && ordered[p - 1].0 > id.0
            invariant
                p <= ordered@.len(),
                forall|j: int| p <= j < ordered@.len() ==> id.0 < #[trigger] ordered@[j].0,
            decreases p,
        {
            p = p - 1;
        }
        let ghost before = ordered@;
        ordered.insert(p, id);
        proof {
            assert(ordered@ == before.insert(p as int, id));
            assert(ids_ascending(ordered@)) by {
                assert forall|a: int, b: int| 0 <= a < b < ordered@.len() implies
                    #[trigger] ordered@[a].0 <= #[trigger] ordered@[b].0 by {
                    if b < p {
                        assert(before[a].0 <= before[b].0);
                    } else if b == p {
                        if a < p {
                            assert(before[a].0 <= before[p - 1].0);
                        }
                    } else if a < p {
                        assert(before[a].0 <= before[b - 1].0);
                    } else if a == p {
                    } else {
                        assert(before[a - 1].0 <= before[b - 1].0);
                    }
                }
            }
            before.to_multiset_ensures();
            ordered@.to_multiset_ensures();
            vstd::seq_lib::lemma_multiset_commutative(before, seq![id]);
            assert(ids@.take(i + 1) =~= ids@.take(i as int).push(id));
            ids@.take(i as int).to_multiset_ensures();
            assert(before.insert(p as int, id) =~= before.subrange(0, p as int).push(id) + before.subrange(p as int, before.len() as int));
            vstd::seq_lib::lemma_multiset_commutative(before.subrange(0, p as int).push(id), before.subrange(p as int, before.len() as int));
            vstd::seq_lib::lemma_multiset_commutative(before.subrange(0, p as int), before.subrange(p as int, before.len() as int));
            assert(before =~= before.subrange(0, p as int) + before.subrange(p as int, before.len() as int));
            before.subrange(0, p as int).to_multiset_ensures();
        }
        i = i + 1;
    }
    proof {
        assert(ids@.take(ids@.len() as int) =~= ids@);
    }
    ordered
}

} // verus!
