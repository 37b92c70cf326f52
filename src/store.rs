use crate::chunk::metadata_view;
use vstd::prelude::*;

verus! {

/// What a store holds under a record's identifier: the chunk text, the
/// fingerprint of the item it came from, its vector, and its metadata.
pub type RecordValue<V> = (Seq<char>, u64, V, Seq<(Seq<char>, Seq<char>)>);

/// A record's identifier: the path of its item and the chunk's offset.
pub type RecordKey = (Seq<char>, usize);

/// The unit written to the vector store.
pub struct StoredRecord<V> {
    pub path: String,
    pub offset: usize,
    pub fingerprint: u64,
    pub text: String,
    pub vector: V,
    pub metadata: Vec<(String, String)>,
}

impl<V> StoredRecord<V> {
    pub open spec fn key(&self) -> RecordKey {
        (self.path@, self.offset)
    }

    pub open spec fn value(&self) -> RecordValue<V> {
        (self.text@, self.fingerprint, self.vector, metadata_view(self.metadata@))
    }
}

/// A collection of records, at most one per identifier.
pub struct VectorStore<V> {
    records: Vec<StoredRecord<V>>,
    contents: Ghost<Map<RecordKey, RecordValue<V>>>,
}

impl<V> View for VectorStore<V> {
    type V = Map<RecordKey, RecordValue<V>>;

    closed spec fn view(&self) -> Map<RecordKey, RecordValue<V>> {
        self.contents@
    }
}

impl<V> VectorStore<V> {
    /// The records and the map agree, and no identifier is held twice.
    pub closed spec fn wf(&self) -> bool {
        let rs = self.records@;
        let m = self.contents@;
        &&& m.dom().finite()
        &&& m.dom().len() == rs.len()
        &&& forall|i: int|
            0 <= i < rs.len() ==> m.contains_key(#[trigger] rs[i].key()) && m[rs[i].key()]
                == rs[i].value()
        &&& forall|k: RecordKey| #[trigger]
            m.contains_key(k) ==> exists|i: int| 0 <= i < rs.len() && rs[i].key() == k
        &&& forall|i: int, j: int|
            0 <= i < j < rs.len() ==> #[trigger] rs[i].key() != #[trigger] rs[j].key()
    }

    /// An empty store.
    pub fn new() -> (r: VectorStore<V>)
        ensures
            r.wf(),
            r@ == Map::<RecordKey, RecordValue<V>>::empty(),
    {
        VectorStore { records: Vec::new(), contents: Ghost(Map::empty()) }
    }

    /// The number of records held.
    pub fn len(&self) -> (r: usize)
        requires
            self.wf(),
        ensures
            r == self@.dom().len(),
    {
        self.records.len()
    }

    /// Where the record with this identifier sits, if there is one.
    fn position(&self, path: &String, offset: usize) -> (r: Option<usize>)
        requires
            self.wf(),
        ensures
            match r {
                Some(i) => i < self.records@.len() && self.records@[i as int].key() == (path@, offset),
                None => !self@.contains_key((path@, offset)),
            },
    {
        let mut i: usize = 0;
        while i < self.records.len()
            invariant
                self.wf(),
                i <= self.records@.len(),
                forall|j: int| 0 <= j < i ==> self.records@[j].key() != (path@, offset),
            decreases self.records.len() - i,
        {
            if self.records[i].offset == offset && self.records[i].path == *path {
                return Some(i);
            }
            i += 1;
        }
        None
    }

    /// The record stored under an identifier.
    pub fn get(&self, path: &String, offset: usize) -> (r: Option<&StoredRecord<V>>)
        requires
            self.wf(),
        ensures
            match r {
                Some(rec) => self@.contains_key((path@, offset)) && rec.key() == (path@, offset)
                    && self@[(path@, offset)] == rec.value(),
                None => !self@.contains_key((path@, offset)),
            },
    {
        match self.position(path, offset) {
            Some(i) => Some(&self.records[i]),
            None => None,
        }
    }

    /// Writes a record: it replaces the one with the same identifier, if any,
    /// and is added otherwise.
    pub fn upsert(&mut self, rec: StoredRecord<V>)
        requires
            old(self).wf(),
        ensures
            final(self).wf(),
            final(self)@ == old(self)@.insert(rec.key(), rec.value()),
    {
        let ghost k = rec.key();
        let ghost v = rec.value();
        let ghost m = self.contents@;
        match self.position(&rec.path, rec.offset) {
            Some(i) => {
                self.records.set(i, rec);
                self.contents = Ghost(m.insert(k, v));
                proof {
                    assert(m.dom().insert(k) =~= m.dom());
                    let rs = self.records@;
                    assert forall|q: RecordKey| #[trigger]
                        self.contents@.contains_key(q) implies exists|j: int|
                        0 <= j < rs.len() && rs[j].key() == q by {
                        if q == k {
                            assert(rs[i as int].key() == q);
                        } else {
                            let j = choose|j: int|
                                0 <= j < old(self).records@.len() && old(self).records@[j].key() == q;
                            assert(rs[j].key() == q);
                        }
                    }
                    assert forall|a: int, b: int|
                        0 <= a < b < rs.len() implies #[trigger] rs[a].key() != #[trigger] rs[b].key() by {
                        let olds = old(self).records@;
                        if a == i {
                            assert(olds[a].key() != olds[b].key());
                        } else if b == i {
                            assert(olds[a].key() != olds[b].key());
                        }
                    }
                }
            },
            None => {
                self.records.push(rec);
                self.contents = Ghost(m.insert(k, v));
                proof {
                    let rs = self.records@;
                    let n = old(self).records@.len();
                    assert forall|q: RecordKey| #[trigger]
                        self.contents@.contains_key(q) implies exists|j: int|
                        0 <= j < rs.len() && rs[j].key() == q by {
                        if q == k {
                            assert(rs[n as int].key() == q);
                        } else {
                            let j = choose|j: int|
                                0 <= j < old(self).records@.len() && old(self).records@[j].key() == q;
                            assert(rs[j].key() == q);
                        }
                    }
                    assert forall|a: int, b: int|
                        0 <= a < b < rs.len() implies #[trigger] rs[a].key() != #[trigger] rs[b].key() by {
                        if b == n {
                            assert(m.contains_key(rs[a].key()));
                        }
                    }
                }
            },
        }
    }

    /// Removes every record. A store that holds none stays empty: clearing is
    /// never an error.
    pub fn clear(&mut self)
        ensures
            final(self).wf(),
            final(self)@ == Map::<RecordKey, RecordValue<V>>::empty(),
    {
        self.records = Vec::new();
        self.contents = Ghost(Map::empty());
    }
}

/// Writing the same identifier twice leaves one record under it, holding the
/// latest content: the store is as if only the second write had happened.
pub proof fn lemma_upsert_idempotent<V>(
    m: Map<RecordKey, RecordValue<V>>,
    k: RecordKey,
    first: RecordValue<V>,
    second: RecordValue<V>,
)
    requires
        m.dom().finite(),
    ensures
        m.insert(k, first).insert(k, second) == m.insert(k, second),
        m.insert(k, first).insert(k, second)[k] == second,
        m.insert(k, first).insert(k, second).dom().len() == m.insert(k, first).dom().len(),
{
    assert(m.insert(k, first).insert(k, second) =~= m.insert(k, second));
    assert(m.insert(k, first).dom().insert(k) =~= m.insert(k, first).dom());
}

} // verus!
