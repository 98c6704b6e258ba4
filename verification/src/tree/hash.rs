use vstd::prelude::*;

verus! {

/// What the table remembers of one position: its identity summary and the
/// statistics of the node that was last written under it.
#[derive(Clone, Copy, Debug)]
pub struct HashEntry {
    pub hash: u64,
    pub visits: u64,
    pub wins: i128,
}

impl Default for HashEntry {
    fn default() -> (entry: Self)
        ensures
            entry == (HashEntry { hash: 0, visits: 0, wins: 0 }),
    {
        Self { hash: 0, visits: 0, wins: 0 }
    }
}

/// A table with one slot per residue of the hash: a later entry overwrites an
/// earlier one that falls into the same slot.
pub struct HashTable {
    size: usize,
    table: Vec<HashEntry>,
}

impl View for HashTable {
    type V = Seq<HashEntry>;

    closed spec fn view(&self) -> Seq<HashEntry> {
        self.table@
    }
}

impl HashTable {
    /// Number of slots the table was made with.
    pub closed spec fn spec_size(&self) -> usize {
        self.size
    }

    /// The table has as many slots as it was made with.
    pub closed spec fn wf(&self) -> bool {
        self.table@.len() == self.size
    }

    /// The slot that `hash` falls into in a table of `size` slots.
    pub open spec fn spec_slot(hash: u64, size: usize) -> int {
        (hash as usize) as int % (size as int)
    }

    /// A table of `size` empty slots.
    pub fn new(size: usize) -> (table: Self)
        ensures
            table.wf(),
            table.spec_size() == size,
            table@ == Seq::new(size as nat, |i: int| HashEntry { hash: 0, visits: 0, wins: 0 }),
    {
        let mut table: Vec<HashEntry> = Vec::new();
        let mut i: usize = 0;
        while i < size
            invariant
                i <= size,
                table@ == Seq::new(i as nat, |k: int| HashEntry { hash: 0, visits: 0, wins: 0 }),
            decreases size - i,
        {
            table.push(HashEntry::default());
            i = i + 1;
            assert(table@ =~= Seq::new(i as nat, |k: int| HashEntry { hash: 0, visits: 0, wins: 0 }));
        }
        HashTable { size, table }
    }

    /// The entry stored for `hash`, unless its slot holds another position.
    pub fn get(&self, hash: u64) -> (entry: Option<HashEntry>)
        requires
            self.wf(),
            self.spec_size() > 0,
        ensures
            entry == if self@[Self::spec_slot(hash, self.spec_size())].hash == hash {
                Some(self@[Self::spec_slot(hash, self.spec_size())])
            } else {
                None
            },
    {
        let entry = self.table[(hash as usize) % self.size];
        if entry.hash == hash {
            Some(entry)
        } else {
            None
        }
    }

    /// Writes the entry of `hash` into its slot, over whatever the slot held.
    pub fn insert(&mut self, hash: u64, visits: u64, wins: i128)
        requires
            old(self).wf(),
            old(self).spec_size() > 0,
        ensures
            final(self).wf(),
            final(self).spec_size() == old(self).spec_size(),
            final(self)@ == old(self)@.update(
                Self::spec_slot(hash, old(self).spec_size()),
                HashEntry { hash, visits, wins },
            ),
    {
        let slot = (hash as usize) % self.size;
        self.table[slot] = HashEntry { hash, visits, wins };
    }
}

} // verus!
