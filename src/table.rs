//! A table from byte strings to byte strings, keys unique.
use std::collections::HashMap;

use vstd::prelude::*;

verus! {

broadcast use vstd::std_specs::hash::group_hash_axioms;

/// Whether two byte strings are equal.
pub fn bytes_eq(a: &[u8], b: &[u8]) -> (r: bool)
    ensures
        r == (a@ == b@),
{
    if a.len() != b.len() {
        return false;
    }
    let mut i: usize = 0;
    while i < a.len()
        invariant
            a@.len() == b@.len(),
            i <= a@.len(),
            forall|j: int| 0 <= j < i ==> a@[j] == b@[j],
        decreases a.len() - i,
    {
        if a[i] != b[i] {
            return false;
        }
        i = i + 1;
    }
    assert(a@ =~= b@);
    true
}

/// A fresh copy of `b`.
pub fn copy_bytes(b: &[u8]) -> (r: Vec<u8>)
    ensures
        r@ == b@,
{
    let mut r: Vec<u8> = Vec::new();
    let mut i: usize = 0;
    while i < b.len()
        invariant
            i <= b@.len(),
            r@ == b@.subrange(0, i as int),
        decreases b.len() - i,
    {
        r.push(b[i]);
        i = i + 1;
        assert(r@ =~= b@.subrange(0, i as int));
    }
    assert(b@.subrange(0, b@.len() as int) =~= b@);
    r
}

#[derive(Clone)]
/// Rows of a table: each key stands once, with its value.
pub struct ByteTable {
    entries: Vec<(Vec<u8>, Vec<u8>)>,
    contents: Ghost<Map<Seq<u8>, Seq<u8>>>,
}

impl View for ByteTable {
    type V = Map<Seq<u8>, Seq<u8>>;

    closed spec fn view(&self) -> Map<Seq<u8>, Seq<u8>> {
        self.contents@
    }
}

/// The rows `rows` hold the map `m`, each key once.
pub open spec fn rows_hold(rows: Seq<(Vec<u8>, Vec<u8>)>, m: Map<Seq<u8>, Seq<u8>>) -> bool {
    &&& forall|i: int, j: int|
        0 <= i < rows.len() && 0 <= j < rows.len() && i != j ==> rows[i].0@ != rows[j].0@
    &&& forall|i: int|
        0 <= i < rows.len() ==> #[trigger] m.contains_key(rows[i].0@) && m[rows[i].0@]
            == rows[i].1@
    &&& forall|k: Seq<u8>|
        #[trigger] m.contains_key(k) ==> exists|i: int| 0 <= i < rows.len() && rows[i].0@ == k
}

impl ByteTable {
    /// Whether the rows hold the contents.
    pub closed spec fn wf(&self) -> bool {
        rows_hold(self.entries@, self.contents@)
    }

    /// An empty table.
    pub fn new() -> (r: ByteTable)
        ensures
            r.wf(),
            r@ == Map::<Seq<u8>, Seq<u8>>::empty(),
    {
        ByteTable { entries: Vec::new(), contents: Ghost(Map::empty()) }
    }

    /// Number of rows.
    pub fn len(&self) -> (r: usize)
        requires
            self.wf(),
        ensures
            r == self@.len(),
    {
        proof {
            self.lemma_len();
        }
        self.entries.len()
    }

    proof fn lemma_len(&self)
        requires
            self.wf(),
        ensures
            self@.len() == self.entries@.len(),
            self@.dom().finite(),
        decreases self.entries@.len(),
    {
        let rows = self.entries@;
        let keys = Seq::new(rows.len(), |i: int| rows[i].0@);
        assert(keys.no_duplicates());
        assert(keys.to_set() =~= self@.dom()) by {
            assert forall|k: Seq<u8>| self@.dom().contains(k) implies keys.to_set().contains(k) by {
                let i = choose|i: int| 0 <= i < rows.len() && rows[i].0@ == k;
                assert(keys[i] == k);
            }
            assert forall|k: Seq<u8>| keys.to_set().contains(k) implies self@.dom().contains(k) by {
                let i = choose|i: int| 0 <= i < keys.len() && keys[i] == k;
                assert(self@.contains_key(rows[i].0@));
            }
        }
        keys.unique_seq_to_set();
    }

    /// Index of the row with key `k`.
    fn find(&self, k: &[u8]) -> (r: Option<usize>)
        requires
            self.wf(),
        ensures
            r matches Some(i) ==> i < self.entries@.len() && self.entries@[i as int].0@ == k@,
            r is None ==> !self@.contains_key(k@),
    {
        let mut i: usize = 0;
        while i < self.entries.len()
            invariant
                self.wf(),
                i <= self.entries@.len(),
                forall|j: int| 0 <= j < i ==> self.entries@[j].0@ != k@,
            decreases self.entries.len() - i,
        {
            if bytes_eq(self.entries[i].0.as_slice(), k) {
                return Some(i);
            }
            i = i + 1;
        }
        None
    }

    /// The value under `k`, copied.
    pub fn get(&self, k: &[u8]) -> (r: Option<Vec<u8>>)
        requires
            self.wf(),
        ensures
            r is Some <==> self@.contains_key(k@),
            r matches Some(v) ==> v@ == self@[k@],
    {
        match self.find(k) {
            Some(i) => {
                assert(self@.contains_key(self.entries@[i as int].0@));
                Some(copy_bytes(self.entries[i].1.as_slice()))
            },
            None => None,
        }
    }

    /// Sets the value under `k` to `v`.
    pub fn insert(&mut self, k: Vec<u8>, v: Vec<u8>)
        requires
            old(self).wf(),
        ensures
            final(self).wf(),
            final(self)@ == old(self)@.insert(k@, v@),
    {
        let ghost m = self@.insert(k@, v@);
        let ghost kv = k@;
        match self.find(k.as_slice()) {
            Some(i) => {
                let ghost old_rows = self.entries@;
                self.entries.set(i, (k, v));
                self.contents = Ghost(m);
                let ghost rows = self.entries@;
                assert forall|j: int| 0 <= j < rows.len() implies #[trigger] m.contains_key(
                    rows[j].0@) && m[rows[j].0@] == rows[j].1@ by {
                    if j != i {
                        assert(old_rows[j].0@ != old_rows[i as int].0@);
                        assert(old(self)@.contains_key(old_rows[j].0@));
                    }
                }
                assert forall|k2: Seq<u8>| #[trigger] m.contains_key(k2) implies exists|j: int|
                    0 <= j < self.entries@.len() && self.entries@[j].0@ == k2 by {
                    if k2 != kv {
                        let j = choose|j: int|
                            0 <= j < old(self).entries@.len() && old(self).entries@[j].0@ == k2;
                        assert(self.entries@[j].0@ == k2);
                    } else {
                        assert(self.entries@[i as int].0@ == k2);
                    }
                }
            },
            None => {
                let ghost old_rows = self.entries@;
                self.entries.push((k, v));
                self.contents = Ghost(m);
                let ghost rows = self.entries@;
                assert forall|j: int| 0 <= j < rows.len() implies #[trigger] m.contains_key(
                    rows[j].0@) && m[rows[j].0@] == rows[j].1@ by {
                    if j < old_rows.len() {
                        assert(old(self)@.contains_key(old_rows[j].0@));
                        assert(rows[j] == old_rows[j]);
                    }
                }
                assert forall|a: int, b: int|
                    0 <= a < rows.len() && 0 <= b < rows.len() && a != b implies rows[a].0@
                    != rows[b].0@ by {
                    if a < old_rows.len() {
                        assert(old(self)@.contains_key(old_rows[a].0@));
                    }
                    if b < old_rows.len() {
                        assert(old(self)@.contains_key(old_rows[b].0@));
                    }
                }
                assert forall|k2: Seq<u8>| #[trigger] m.contains_key(k2) implies exists|j: int|
                    0 <= j < self.entries@.len() && self.entries@[j].0@ == k2 by {
                    if k2 != kv {
                        let j = choose|j: int|
                            0 <= j < old(self).entries@.len() && old(self).entries@[j].0@ == k2;
                        assert(self.entries@[j].0@ == k2);
                    } else {
                        assert(self.entries@[self.entries@.len() - 1].0@ == k2);
                    }
                }
            },
        }
    }

    /// Removes the row under `k` and returns its value.
    pub fn remove(&mut self, k: &[u8]) -> (r: Option<Vec<u8>>)
        requires
            old(self).wf(),
        ensures
            final(self).wf(),
            r is Some <==> old(self)@.contains_key(k@),
            r matches Some(v) ==> v@ == old(self)@[k@],
            final(self)@ == old(self)@.remove(k@),
    {
        match self.find(k) {
            Some(i) => {
                let ghost m = self@.remove(k@);
                let ghost old_rows = self.entries@;
                let ghost last = (old_rows.len() - 1) as int;
                assert(old(self)@.contains_key(old_rows[i as int].0@));
                let (_, v) = self.entries.swap_remove(i);
                self.contents = Ghost(m);
                let ghost rows = self.entries@;
                assert forall|j: int| 0 <= j < rows.len() implies rows[j] == (if j == i {
                    old_rows[last]
                } else {
                    old_rows[j]
                }) by {}
                assert forall|j: int| 0 <= j < rows.len() implies #[trigger] m.contains_key(
                    rows[j].0@) && m[rows[j].0@] == rows[j].1@ by {
                    let oj = if j == i { last } else { j };
                    assert(old_rows[oj].0@ != old_rows[i as int].0@);
                    assert(old(self)@.contains_key(old_rows[oj].0@));
                }
                assert forall|a: int, b: int|
                    0 <= a < rows.len() && 0 <= b < rows.len() && a != b implies rows[a].0@
                    != rows[b].0@ by {
                    let oa = if a == i { last } else { a };
                    let ob = if b == i { last } else { b };
                    assert(old_rows[oa].0@ != old_rows[ob].0@);
                }
                assert forall|k2: Seq<u8>| #[trigger] m.contains_key(k2) implies exists|j: int|
                    0 <= j < self.entries@.len() && self.entries@[j].0@ == k2 by {
                    let j = choose|j: int| 0 <= j < old_rows.len() && old_rows[j].0@ == k2;
                    if j == last {
                        assert(self.entries@[i as int].0@ == k2);
                    } else {
                        assert(self.entries@[j].0@ == k2);
                    }
                }
                Some(v)
            },
            None => {
                assert(self@.remove(k@) =~= self@);
                None
            },
        }
    }
}


/// Keys of the first `len` rows.
pub open spec fn prefix_keys(rows: Seq<(Vec<u8>, Vec<u8>)>, len: int) -> Set<Seq<u8>> {
    Set::new(|k: Seq<u8>| exists|i: int| 0 <= i < len && rows[i].0@ == k)
}

impl ByteTable {
    /// Moves every row into `other`, over a row of the same key there; leaves this table empty.
    pub fn drain_into(&mut self, other: &mut ByteTable)
        requires
            old(self).wf(),
            old(other).wf(),
        ensures
            final(self).wf(),
            final(other).wf(),
            final(self)@ == Map::<Seq<u8>, Seq<u8>>::empty(),
            final(other)@ == old(other)@.union_prefer_right(old(self)@),
    {
        let ghost rows = self.entries@;
        let ghost m = self@;
        assert(m.remove_keys(prefix_keys(rows, rows.len() as int)) =~= Map::<Seq<u8>, Seq<u8>>::empty()) by {
            assert forall|k: Seq<u8>| m.contains_key(k) implies prefix_keys(rows, rows.len() as int).contains(k) by {
                let i = choose|i: int| 0 <= i < rows.len() && rows[i].0@ == k;
            }
        }
        assert(old(other)@.union_prefer_right(Map::<Seq<u8>, Seq<u8>>::empty()) =~= old(other)@);
        assert(rows.subrange(0, rows.len() as int) =~= rows);
        while self.entries.len() > 0
            invariant
                other.wf(),
                rows_hold(rows, m),
                self.entries@.len() <= rows.len(),
                self.entries@ == rows.subrange(0, self.entries@.len() as int),
                other@ == old(other)@.union_prefer_right(
                    m.remove_keys(prefix_keys(rows, self.entries@.len() as int)),
                ),
            decreases self.entries.len(),
        {
            let ghost len = self.entries@.len() as int;
            let ghost before = other@;
            match self.entries.pop() {
                Some(row) => {
                    let (k, v) = row;
                    assert(rows[len - 1] == (k, v));
                    assert(m.contains_key(rows[len - 1].0@));
                    let ghost shorter = prefix_keys(rows, len - 1);
                    let ghost longer = prefix_keys(rows, len);
                    assert(!shorter.contains(k@)) by {
                        if shorter.contains(k@) {
                            let i = choose|i: int| 0 <= i < len - 1 && rows[i].0@ == k@;
                        }
                    }
                    assert(longer =~= shorter.insert(k@)) by {
                        assert forall|x: Seq<u8>| longer.contains(x) implies shorter.insert(k@).contains(x) by {
                            let i = choose|i: int| 0 <= i < len && rows[i].0@ == x;
                            if i < len - 1 {
                                assert(shorter.contains(x));
                            }
                        }
                        assert forall|x: Seq<u8>| shorter.contains(x) implies longer.contains(x) by {
                            let i = choose|i: int| 0 <= i < len - 1 && rows[i].0@ == x;
                        }
                    }
                    other.insert(k, v);
                    assert(other@ =~= old(other)@.union_prefer_right(m.remove_keys(shorter)));
                    assert(self.entries@ =~= rows.subrange(0, len - 1));
                },
                None => {},
            }
        }
        assert(prefix_keys(rows, 0) =~= Set::<Seq<u8>>::empty());
        assert(m.remove_keys(Set::<Seq<u8>>::empty()) =~= m);
        self.contents = Ghost(Map::empty());
    }
}

#[derive(Clone)]
/// Rows of a table from ordinals to byte strings.
pub struct OrdinalTable {
    rows: HashMap<u64, Vec<u8>>,
}

impl View for OrdinalTable {
    type V = Map<u64, Seq<u8>>;

    closed spec fn view(&self) -> Map<u64, Seq<u8>> {
        self.rows@.map_values(|v: Vec<u8>| v@)
    }
}

impl OrdinalTable {
    /// An empty table.
    pub fn new() -> (r: OrdinalTable)
        ensures
            r@ == Map::<u64, Seq<u8>>::empty(),
    {
        let r = OrdinalTable { rows: HashMap::new() };
        assert(r@ =~= Map::<u64, Seq<u8>>::empty());
        r
    }

    /// Sets the value under `k` to `v`.
    pub fn insert(&mut self, k: u64, v: Vec<u8>)
        ensures
            final(self)@ == old(self)@.insert(k, v@),
    {
        self.rows.insert(k, v);
        assert(self@ =~= old(self)@.insert(k, v@));
    }

    /// The value under `k`, copied.
    pub fn get(&self, k: u64) -> (r: Option<Vec<u8>>)
        ensures
            r is Some <==> self@.contains_key(k),
            r matches Some(v) ==> v@ == self@[k],
    {
        match self.rows.get(&k) {
            Some(v) => Some(copy_bytes(v.as_slice())),
            None => None,
        }
    }
}

} // verus!
