//! Short ids for the pools whose blocks are cached.
use crate::base_types::PoolGuid;
use vstd::prelude::*;

verus! {

#[derive(Debug, Clone, Copy, PartialEq, Eq, Structural, PartialOrd, Ord, Hash)]
pub struct PoolId(pub u8);

/// The guids of the known pools. The id of a pool is the position of its guid.
pub struct PoolGuidMapping {
    pub guids: Vec<PoolGuid>,
}

#[derive(Debug)]
pub struct PoolGuidMappingPhys(pub Vec<PoolGuid>);

/// Whether position `i` holds the first occurrence of a guid.
pub open spec fn is_first(guids: Seq<PoolGuid>, guid: PoolGuid, i: int) -> bool {
    0 <= i < guids.len() && guids[i] == guid && forall|j: int| 0 <= j < i ==> guids[j] != guid
}

impl PoolGuidMapping {
    /// Every position is an id.
    pub open spec fn wf(&self) -> bool {
        self.guids@.len() <= 256
    }

    pub fn open(phys: PoolGuidMappingPhys) -> (r: Self)
        ensures
            r.guids@ == phys.0@,
    {
        PoolGuidMapping { guids: phys.0 }
    }

    pub fn to_phys(&self) -> (r: PoolGuidMappingPhys)
        ensures
            r.0@ == self.guids@,
    {
        let mut guids: Vec<PoolGuid> = Vec::new();
        let mut i: usize = 0;
        while i < self.guids.len()
            invariant
                i <= self.guids@.len(),
                guids@ == self.guids@.take(i as int),
            decreases self.guids@.len() - i,
        {
            guids.push(self.guids[i]);
            i += 1;
            assert(guids@ =~= self.guids@.take(i as int));
        }
        assert(guids@ =~= self.guids@);
        PoolGuidMappingPhys(guids)
    }

    fn try_map(guids: &Vec<PoolGuid>, guid: PoolGuid) -> (r: Option<PoolId>)
        requires
            guids@.len() <= 256,
        ensures
            r is Some <==> guids@.contains(guid),
            r matches Some(id) ==> is_first(guids@, guid, id.0 as int),
    {
        let mut i: usize = 0;
        while i < guids.len()
            invariant
                i <= guids@.len() <= 256,
                forall|j: int| 0 <= j < i ==> guids@[j] != guid,
            decreases guids@.len() - i,
        {
            if guids[i] == guid {
                assert(guids@.contains(guid));
                return Some(PoolId(i as u8));
            }
            i += 1;
        }
        None
    }

    /// Returns the id (index) associated with the guid. If not found, the guid is added to the
    /// known set and a new id generated. There are ids for 256 pools.
    pub fn map_pool_guid(&mut self, guid: PoolGuid) -> (id: PoolId)
        requires
            old(self).wf(),
            old(self).guids@.len() < 256 || old(self).guids@.contains(guid),
        ensures
            final(self).wf(),
            is_first(final(self).guids@, guid, id.0 as int),
            final(self).guids@ == if old(self).guids@.contains(guid) {
                old(self).guids@
            } else {
                old(self).guids@.push(guid)
            },
    {
        if let Some(id) = Self::try_map(&self.guids, guid) {
            return id;
        }
        let id: u8 = self.guids.len() as u8;
        let ghost g0 = self.guids@;
        self.guids.push(guid);
        proof {
            assert forall|j: int| 0 <= j < id implies self.guids@[j] != guid by {
                assert(g0.contains(g0[j]));
            }
        }
        PoolId(id)
    }
}

/// A guid has one first position, so the id of a known pool does not change when it is mapped
/// again, nor when another pool is added.
pub proof fn law_id_is_stable(guids: Seq<PoolGuid>, added: PoolGuid, guid: PoolGuid, i: int, j: int)
    requires
        is_first(guids, guid, i),
        is_first(guids, guid, j) || is_first(guids.push(added), guid, j),
    ensures
        i == j,
{
    if is_first(guids.push(added), guid, j) {
        assert(guids.push(added)[i] == guid);
    }
}

/// Two pools never get the same id.
pub proof fn law_ids_are_distinct(guids: Seq<PoolGuid>, a: PoolGuid, b: PoolGuid, i: int)
    requires
        is_first(guids, a, i),
        is_first(guids, b, i),
    ensures
        a == b,
{
}

} // verus!
