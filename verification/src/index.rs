use vstd::prelude::*;

verus! {

/// Where an entry's payload lies in the archive and how its decoding starts.
#[derive(Clone, Copy, Debug, PartialEq, Eq, Structural)]
pub struct EntryData {
    /// Absolute offset of the payload in the archive.
    pub offset: u32,
    /// Keystream state at the first byte of the payload.
    pub magic: u32,
    /// Length of the payload in bytes.
    pub size: u32,
}

/// One name of the index with its descriptor.
#[derive(Debug)]
pub struct IndexEntry {
    pub name: String,
    pub data: EntryData,
}

/// The entries of an archive by name. Names are kept in the order in which
/// they first came; no name occurs twice.
#[derive(Debug)]
pub struct ArchiveIndex {
    pub entries: Vec<IndexEntry>,
}

impl View for ArchiveIndex {
    type V = Map<Seq<char>, EntryData>;

    open spec fn view(&self) -> Map<Seq<char>, EntryData> {
        Map::new(|name: Seq<char>| self.holds(name), |name: Seq<char>| self.entries[self.position(name)].data)
    }
}

impl ArchiveIndex {
    /// No two entries share a name.
    pub open spec fn wf(&self) -> bool {
        forall|i: int, j: int|
            0 <= i < j < self.entries.len() ==> self.entries[i].name@ != self.entries[j].name@
    }

    /// The names in the order of the index.
    pub open spec fn names(&self) -> Seq<Seq<char>> {
        Seq::new(self.entries@.len(), |i: int| self.entries@[i].name@)
    }

    /// Whether `name` is at place `i`.
    pub open spec fn at(&self, name: Seq<char>, i: int) -> bool {
        0 <= i < self.entries.len() && self.entries[i].name@ == name
    }

    /// Whether some entry is called `name`.
    pub open spec fn holds(&self, name: Seq<char>) -> bool {
        exists|i: int| self.at(name, i)
    }

    /// The place of `name`, where the index holds it.
    pub open spec fn position(&self, name: Seq<char>) -> int {
        choose|i: int| self.at(name, i)
    }

    /// An index without entries.
    pub fn new() -> (index: ArchiveIndex)
        ensures
            index.wf(),
            index@ == Map::<Seq<char>, EntryData>::empty(),
            index.names() == Seq::<Seq<char>>::empty(),
    {
        ArchiveIndex { entries: Vec::new() }
    }

    /// The place of the entry called `key`, if there is one.
    pub fn find(&self, key: &String) -> (place: Option<usize>)
        requires
            self.wf(),
        ensures
            place.is_some() == self.holds(key@),
            place matches Some(i) ==> self.at(key@, i as int) && i as int == self.position(key@),
    {
        let mut i: usize = 0;
        while i < self.entries.len()
            invariant
                i <= self.entries.len(),
                self.wf(),
                forall|j: int| 0 <= j < i ==> !self.at(key@, j),
            decreases self.entries.len() - i,
        {
            if self.entries[i].name == *key {
                assert(self.at(key@, i as int));
                return Some(i);
            }
            i += 1;
        }
        None
    }

    /// The descriptor of the entry called `key`, if there is one.
    pub fn get(&self, key: &String) -> (data: Option<EntryData>)
        requires
            self.wf(),
        ensures
            data.is_some() == self@.contains_key(key@),
            data matches Some(d) ==> d == self@[key@],
    {
        match self.find(key) {
            Some(i) => Some(self.entries[i].data),
            None => None,
        }
    }

    /// Records `data` under `name`. A descriptor that the name already had is
    /// replaced, and the name keeps its place.
    pub fn insert(&mut self, name: String, data: EntryData)
        requires
            old(self).wf(),
        ensures
            final(self).wf(),
            final(self)@ == old(self)@.insert(name@, data),
            final(self).names() == if old(self).holds(name@) {
                old(self).names()
            } else {
                old(self).names().push(name@)
            },
    {
        let ghost before = *self;
        let ghost key = name@;
        match self.find(&name) {
            Some(i) => {
                self.entries.set(i, IndexEntry { name, data });
                assert forall|n: Seq<char>, k: int| self.at(n, k) == before.at(n, k) by {}
                assert forall|n: Seq<char>| self.holds(n) == before.holds(n) by {
                    if self.holds(n) {
                        assert(before.at(n, self.position(n)));
                    }
                }
                assert forall|n: Seq<char>| self.holds(n) implies self.position(n) == before.position(n) by {
                    assert(before.at(n, self.position(n)));
                }
            },
            None => {
                self.entries.push(IndexEntry { name, data });
                let ghost last = before.entries.len() as int;
                assert forall|n: Seq<char>| before.holds(n) implies self.holds(n) && self.position(n)
                    == before.position(n) by {
                    assert(self.at(n, before.position(n)));
                }
                assert(self.at(key, last));
                assert forall|n: Seq<char>| self.holds(n) implies n == key || before.holds(n) by {
                    if self.position(n) != last {
                        assert(before.at(n, self.position(n)));
                    }
                }
                assert(self.position(key) == last) by {
                    if self.position(key) != last {
                        assert(before.at(key, self.position(key)));
                    }
                }
                assert forall|a: int, b: int| 0 <= a < b < self.entries.len() implies self.entries[a].name@
                    != self.entries[b].name@ by {
                    if b == last {
                        assert(!before.at(key, a));
                    }
                }
            },
        }
    }
}

} // verus!
