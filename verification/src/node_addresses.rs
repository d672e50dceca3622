//! The addresses at which each partition is served.

use vstd::prelude::*;

use crate::ordered::SortedMap;
use crate::partition::PartitionId;
use crate::text;

verus! {

/// The addresses of each partition's nodes, the preferred one first.
#[derive(Clone, Debug)]
pub struct NodeAddresses {
    entries: SortedMap<u32, Vec<String>>,
}

impl View for NodeAddresses {
    type V = Map<u32, Seq<Seq<char>>>;

    closed spec fn view(&self) -> Map<u32, Seq<Seq<char>>> {
        Map::new(
            |partition: u32| self.entries@.dom().contains(partition),
            |partition: u32| text::texts(self.entries@[partition]@),
        )
    }
}

impl NodeAddresses {
    pub closed spec fn wf(&self) -> bool {
        self.entries.wf()
    }

    pub fn new() -> (r: Self)
        ensures
            r.wf(),
            r@ == Map::<u32, Seq<Seq<char>>>::empty(),
    {
        let r = NodeAddresses { entries: SortedMap::new() };
        assert(r@ =~= Map::empty());
        r
    }

    /// The addresses of the partition, where it has any.
    pub open spec fn listed(&self, partition: PartitionId) -> Seq<Seq<char>> {
        if self@.dom().contains(partition.0) {
            self@[partition.0]
        } else {
            Seq::empty()
        }
    }

    /// Sets the addresses of a partition.
    pub fn set(&mut self, partition: PartitionId, addresses: Vec<String>)
        requires
            old(self).wf(),
        ensures
            final(self).wf(),
            final(self)@ == old(self)@.insert(
                partition.0,
                text::texts(addresses@),
            ),
    {
        self.entries.insert(partition.0, addresses);
        assert(self@ =~= old(self)@.insert(partition.0, text::texts(addresses@)));
    }

    /// Adds an address behind those of the partition.
    pub fn add_address(&mut self, partition: PartitionId, address: String)
        requires
            old(self).wf(),
        ensures
            final(self).wf(),
            final(self)@ == old(self)@.insert(
                partition.0,
                old(self).listed(partition).push(address@),
            ),
    {
        let mut addresses: Vec<String> = match self.entries.get(&partition.0) {
            Some(addresses) => text::duplicate_texts(addresses),
            None => Vec::new(),
        };
        let ghost before = addresses@;
        assert(text::texts(before) =~= old(self).listed(partition));
        addresses.push(address);
        assert(text::texts(addresses@) =~= text::texts(before).push(
            address@,
        ));
        self.set(partition, addresses);
    }

    /// The partitions that have addresses, in increasing order.
    pub closed spec fn partitions(&self) -> Seq<u32> {
        self.entries.keys()
    }

    /// The partitions and the addresses agree.
    pub proof fn entries_agree(&self)
        requires
            self.wf(),
        ensures
            forall|partition: u32|
                self@.dom().contains(partition) <==> self.partitions().contains(partition),
            forall|i: int, j: int|
                0 <= i < j < self.partitions().len() ==> #[trigger] self.partitions()[i]
                    < #[trigger] self.partitions()[j],
    {
        self.entries.entries_agree();
        assert forall|i: int, j: int| 0 <= i < j < self.partitions().len() implies
            #[trigger] self.partitions()[i] < #[trigger] self.partitions()[j] by {
            assert(<u32 as crate::ordered::OrderedKey>::before(
                self.partitions()[i],
                self.partitions()[j],
            ));
        }
    }

    pub fn len(&self) -> (r: usize)
        ensures
            r == self.partitions().len(),
    {
        self.entries.len()
    }

    /// The partition at position `i`.
    pub fn partition_at(&self, i: usize) -> (r: PartitionId)
        requires
            i < self.partitions().len(),
        ensures
            r.0 == self.partitions()[i as int],
    {
        PartitionId(*self.entries.key_at(i))
    }

    /// The address that is preferred for the partition.
    pub fn address_for(&self, partition: PartitionId) -> (r: Option<&str>)
        requires
            self.wf(),
        ensures
            match r {
                Some(address) => self.listed(partition).len() > 0 && address@ == self.listed(
                    partition,
                )[0],
                None => self.listed(partition).len() == 0,
            },
    {
        match self.entries.get(&partition.0) {
            Some(addresses) => if addresses.len() > 0 {
                Some(addresses[0].as_str())
            } else {
                None
            },
            None => None,
        }
    }

    /// The addresses of the partition.
    pub fn addresses_for(&self, partition: PartitionId) -> (r: Option<&Vec<String>>)
        requires
            self.wf(),
        ensures
            r is Some <==> self@.dom().contains(partition.0),
            r matches Some(addresses) ==> text::texts(addresses@)
                == self@[partition.0],
    {
        self.entries.get(&partition.0)
    }
}

/// A partition has the addresses that are kept for it, in their order, and one
/// that nothing is kept for has none.
pub proof fn partitions_have_the_addresses_kept_for_them(
    addresses: &NodeAddresses,
    partition: PartitionId,
)
    ensures
        addresses@.dom().contains(partition.0) ==> addresses.listed(partition)
            == addresses@[partition.0],
        !addresses@.dom().contains(partition.0) ==> addresses.listed(partition).len() == 0,
{
}

} // verus!
