//! Tables keyed by chunk, kept in scan order.

use crate::grid::{in_scan_order, ChunkCoord};
use vstd::prelude::*;

verus! {

/// A value for each of some chunks.
pub struct ChunkTable<T> {
    items: Vec<(ChunkCoord, T)>,
}

/// The keys of a list of entries.
pub open spec fn keys_of<T>(items: Seq<(ChunkCoord, T)>) -> Seq<ChunkCoord> {
    Seq::new(items.len(), |i: int| items[i].0)
}

/// The values of a list of entries.
pub open spec fn values_of<T>(items: Seq<(ChunkCoord, T)>) -> Seq<T> {
    Seq::new(items.len(), |i: int| items[i].1)
}

/// The entry of a chunk.
pub open spec fn entry_of<T>(items: Seq<(ChunkCoord, T)>, c: ChunkCoord) -> int {
    choose|i: int| 0 <= i < items.len() && (#[trigger] items[i]).0 == c
}

/// There is an entry of a chunk.
pub open spec fn has_entry<T>(items: Seq<(ChunkCoord, T)>, c: ChunkCoord) -> bool {
    exists|i: int| 0 <= i < items.len() && (#[trigger] items[i]).0 == c
}

/// What a list of entries says.
pub open spec fn table_map<T>(items: Seq<(ChunkCoord, T)>) -> Map<ChunkCoord, T> {
    Map::new(|c: ChunkCoord| has_entry(items, c), |c: ChunkCoord| items[entry_of(items, c)].1)
}

/// The entries are in scan order.
pub open spec fn table_sorted<T>(items: Seq<(ChunkCoord, T)>) -> bool {
    forall|i: int, j: int|
        0 <= i < j < items.len() ==> (#[trigger] items[i]).0.before((#[trigger] items[j]).0)
}

proof fn lemma_entry_at<T>(items: Seq<(ChunkCoord, T)>, i: int)
    requires
        table_sorted(items),
        0 <= i < items.len(),
    ensures
        table_map(items).dom().contains(items[i].0),
        table_map(items)[items[i].0] == items[i].1,
{
    let c = items[i].0;
    assert(has_entry(items, c));
    let j = entry_of(items, c);
    if j < i {
        assert(items[j].0.before(items[i].0));
    } else if i < j {
        assert(items[i].0.before(items[j].0));
    }
}

impl<T> View for ChunkTable<T> {
    type V = Map<ChunkCoord, T>;

    closed spec fn view(&self) -> Map<ChunkCoord, T> {
        table_map(self.items@)
    }
}

impl<T> ChunkTable<T> {
    /// The entries, in scan order.
    pub closed spec fn entries(&self) -> Seq<(ChunkCoord, T)> {
        self.items@
    }

    /// The entries are in scan order.
    pub closed spec fn wf(&self) -> bool {
        table_sorted(self.items@)
    }

    /// What the entries are.
    pub proof fn lemma_entries(&self)
        requires
            self.wf(),
        ensures
            table_sorted(self.entries()),
            self@ == table_map(self.entries()),
            forall|c: ChunkCoord| #[trigger]
                self@.dom().contains(c) ==> has_entry(self.entries(), c),
            forall|i: int|
                0 <= i < self.entries().len() ==> self@.dom().contains(
                    (#[trigger] self.entries()[i]).0,
                ) && self@[self.entries()[i].0] == self.entries()[i].1,
            self@.dom().finite(),
            self@.dom().len() == self.entries().len(),
    {
        let items = self.items@;
        assert forall|i: int| 0 <= i < items.len() implies self@.dom().contains((#[trigger] items[i]).0)
            && self@[items[i].0] == items[i].1 by {
            lemma_entry_at(items, i);
        }
        let s = keys_of(items);
        assert(s.no_duplicates()) by {
            assert forall|i: int, j: int| 0 <= i < s.len() && 0 <= j < s.len() && i != j implies s[i]
                != s[j] by {
                if i < j {
                    assert(items[i].0.before(items[j].0));
                } else {
                    assert(items[j].0.before(items[i].0));
                }
            }
        }
        s.unique_seq_to_set();
        assert(s.to_set() =~= self@.dom()) by {
            assert forall|c: ChunkCoord| s.to_set().contains(c) <==> self@.dom().contains(c) by {
                if has_entry(items, c) {
                    let k = entry_of(items, c);
                    assert(s[k] == c);
                }
                if s.contains(c) {
                    let k = choose|k: int| 0 <= k < s.len() && s[k] == c;
                    assert(items[k].0 == c);
                }
            }
        }
    }

    /// A table without entries.
    pub fn new() -> (r: ChunkTable<T>)
        ensures
            r.wf(),
            r@ == Map::<ChunkCoord, T>::empty(),
            r.entries() == Seq::<(ChunkCoord, T)>::empty(),
    {
        let r = ChunkTable { items: Vec::new() };
        assert(r@ =~= Map::<ChunkCoord, T>::empty());
        assert(r.entries() =~= Seq::<(ChunkCoord, T)>::empty());
        r
    }

    fn lower_bound(&self, c: ChunkCoord) -> (r: usize)
        requires
            self.wf(),
        ensures
            r <= self.items.len(),
            forall|i: int| 0 <= i < r ==> (#[trigger] self.items@[i]).0.before(c),
            forall|i: int| r <= i < self.items.len() ==> !(#[trigger] self.items@[i]).0.before(c),
    {
        let mut lo: usize = 0;
        let mut hi: usize = self.items.len();
        while lo < hi
            invariant
                lo <= hi <= self.items.len(),
                table_sorted(self.items@),
                forall|i: int| 0 <= i < lo ==> (#[trigger] self.items@[i]).0.before(c),
                forall|i: int|
                    hi <= i < self.items.len() ==> !(#[trigger] self.items@[i]).0.before(c),
            decreases hi - lo,
        {
            let mid: usize = lo + (hi - lo) / 2;
            if self.items[mid].0.comes_before(&c) {
                lo = mid + 1;
            } else {
                hi = mid;
            }
        }
        lo
    }

    fn find(&self, c: ChunkCoord) -> (r: Option<usize>)
        requires
            self.wf(),
        ensures
            r is Some <==> self@.dom().contains(c),
            r matches Some(i) ==> i < self.items.len() && self.items@[i as int].0 == c && self@[c]
                == self.items@[i as int].1,
    {
        let at: usize = self.lower_bound(c);
        if at < self.items.len() && self.items[at].0.x == c.x && self.items[at].0.y == c.y
            && self.items[at].0.z == c.z {
            proof {
                lemma_entry_at(self.items@, at as int);
            }
            Some(at)
        } else {
            proof {
                if has_entry(self.items@, c) {
                    let k = entry_of(self.items@, c);
                    if at < k {
                        assert(self.items@[at as int].0.before(self.items@[k].0));
                    }
                }
            }
            None
        }
    }

    /// Whether a chunk has an entry.
    pub fn contains(&self, c: ChunkCoord) -> (r: bool)
        requires
            self.wf(),
        ensures
            r == self@.dom().contains(c),
    {
        self.find(c).is_some()
    }

    /// The value of a chunk.
    pub fn get(&self, c: ChunkCoord) -> (r: Option<&T>)
        requires
            self.wf(),
        ensures
            r == (if self@.dom().contains(c) {
                Some(&self@[c])
            } else {
                None
            }),
    {
        match self.find(c) {
            Some(i) => Some(&self.items[i].1),
            None => None,
        }
    }

    /// Number of entries.
    pub fn len(&self) -> (r: usize)
        requires
            self.wf(),
        ensures
            r == self@.dom().len(),
            r == self.entries().len(),
    {
        proof {
            self.lemma_entries();
        }
        self.items.len()
    }

    /// The entry number `i`, in scan order.
    pub fn entry(&self, i: usize) -> (r: &(ChunkCoord, T))
        requires
            self.wf(),
            i < self.entries().len(),
        ensures
            *r == self.entries()[i as int],
    {
        &self.items[i]
    }

    /// Give a chunk a value.
    pub fn insert(&mut self, c: ChunkCoord, v: T)
        requires
            old(self).wf(),
        ensures
            final(self).wf(),
            final(self)@ == old(self)@.insert(c, v),
    {
        let ghost was = self.items@;
        let at: usize = self.lower_bound(c);
        if at < self.items.len() && self.items[at].0.x == c.x && self.items[at].0.y == c.y
            && self.items[at].0.z == c.z {
            self.items.set(at, (c, v));
            proof {
                let now = self.items@;
                assert forall|k: ChunkCoord| k != c implies (#[trigger] has_entry(now, k) <==> has_entry(
                    was,
                    k,
                )) && (has_entry(was, k) ==> table_map(now)[k] == table_map(was)[k]) by {
                    if has_entry(was, k) {
                        let i = entry_of(was, k);
                        assert(now[i] == was[i]);
                        lemma_entry_at(now, i);
                        lemma_entry_at(was, i);
                    }
                    if has_entry(now, k) {
                        let i = entry_of(now, k);
                        assert(was[i] == now[i]);
                    }
                }
                lemma_entry_at(now, at as int);
                assert(table_map(now) =~= table_map(was).insert(c, v));
            }
        } else {
            self.items.insert(at, (c, v));
            proof {
                let now = self.items@;
                assert(now =~= was.insert(at as int, (c, v)));
                assert forall|i: int, j: int| 0 <= i < j < now.len() implies (#[trigger] now[i]).0.before(
                    (#[trigger] now[j]).0,
                ) by {
                    if i < at && j == at {
                        assert(was[i].0.before(c));
                    } else if i == at {
                        assert(!was[j - 1].0.before(c));
                        if at < j - 1 {
                            assert(was[at as int].0.before(was[j - 1].0));
                        }
                    } else if i < at && j > at {
                        assert(was[i].0.before(was[j - 1].0));
                    } else if i > at {
                        assert(was[i - 1].0.before(was[j - 1].0));
                    }
                }
                assert forall|k: ChunkCoord| k != c implies (#[trigger] has_entry(now, k) <==> has_entry(
                    was,
                    k,
                )) && (has_entry(was, k) ==> table_map(now)[k] == table_map(was)[k]) by {
                    if has_entry(was, k) {
                        let i = entry_of(was, k);
                        let j = if i < at {
                            i
                        } else {
                            i + 1
                        };
                        assert(now[j] == was[i]);
                        lemma_entry_at(now, j);
                        lemma_entry_at(was, i);
                    }
                    if has_entry(now, k) {
                        let j = entry_of(now, k);
                        let i = if j < at {
                            j
                        } else {
                            j - 1
                        };
                        assert(was[i] == now[j]);
                    }
                }
                lemma_entry_at(now, at as int);
                assert(table_map(now) =~= table_map(was).insert(c, v));
            }
        }
    }

    /// Take the value of a chunk out.
    pub fn remove(&mut self, c: ChunkCoord) -> (r: Option<T>)
        requires
            old(self).wf(),
        ensures
            final(self).wf(),
            final(self)@ == old(self)@.remove(c),
            r == (if old(self)@.dom().contains(c) {
                Some(old(self)@[c])
            } else {
                None
            }),
    {
        let ghost was = self.items@;
        match self.find(c) {
            Some(at) => {
                let item = self.items.remove(at);
                proof {
                    let now = self.items@;
                    assert(now =~= was.remove(at as int));
                    assert forall|i: int, j: int| 0 <= i < j < now.len() implies (
                    #[trigger] now[i]).0.before((#[trigger] now[j]).0) by {
                        let p = if i < at {
                            i
                        } else {
                            i + 1
                        };
                        let q = if j < at {
                            j
                        } else {
                            j + 1
                        };
                        assert(was[p].0.before(was[q].0));
                    }
                    assert forall|k: ChunkCoord| #[trigger]
                        has_entry(now, k) <==> has_entry(was, k) && k != c by {
                        if has_entry(was, k) && k != c {
                            let i = entry_of(was, k);
                            let j = if i < at {
                                i
                            } else {
                                i - 1
                            };
                            assert(now[j] == was[i]);
                        }
                        if has_entry(now, k) {
                            let j = entry_of(now, k);
                            let i = if j < at {
                                j
                            } else {
                                j + 1
                            };
                            assert(was[i] == now[j]);
                            if i < at {
                                assert(was[i].0.before(was[at as int].0));
                            } else {
                                assert(was[at as int].0.before(was[i].0));
                            }
                        }
                    }
                    assert forall|k: ChunkCoord| has_entry(now, k) implies #[trigger] table_map(now)[k]
                        == table_map(was)[k] by {
                        let j = entry_of(now, k);
                        let i = if j < at {
                            j
                        } else {
                            j + 1
                        };
                        assert(was[i] == now[j]);
                        lemma_entry_at(now, j);
                        lemma_entry_at(was, i);
                    }
                    assert(table_map(now) =~= table_map(was).remove(c));
                }
                Some(item.1)
            },
            None => {
                assert(self@ =~= old(self)@.remove(c));
                None
            },
        }
    }

    /// Take all entries out.
    pub fn clear(&mut self)
        ensures
            final(self).wf(),
            final(self)@ == Map::<ChunkCoord, T>::empty(),
            final(self).entries() == Seq::<(ChunkCoord, T)>::empty(),
    {
        self.items = Vec::new();
        assert(self@ =~= Map::<ChunkCoord, T>::empty());
        assert(self.entries() =~= Seq::<(ChunkCoord, T)>::empty());
    }
}

/// A set of chunks.
pub struct ChunkSet {
    table: ChunkTable<()>,
}

impl View for ChunkSet {
    type V = Set<ChunkCoord>;

    closed spec fn view(&self) -> Set<ChunkCoord> {
        self.table@.dom()
    }
}

impl ChunkSet {
    /// The set is well formed.
    pub closed spec fn wf(&self) -> bool {
        self.table.wf()
    }

    /// A set of chunks is finite.
    pub broadcast proof fn lemma_finite(&self)
        requires
            #[trigger] self.wf(),
        ensures
            self@.finite(),
    {
        self.table.lemma_entries();
    }

    /// The empty set.
    pub fn new() -> (r: ChunkSet)
        ensures
            r.wf(),
            r@ == Set::<ChunkCoord>::empty(),
    {
        let r = ChunkSet { table: ChunkTable::new() };
        assert(r@ =~= Set::<ChunkCoord>::empty());
        r
    }

    /// Whether a chunk is in the set.
    pub fn contains(&self, c: ChunkCoord) -> (r: bool)
        requires
            self.wf(),
        ensures
            r == self@.contains(c),
    {
        self.table.contains(c)
    }

    /// Number of chunks in the set.
    pub fn len(&self) -> (r: usize)
        requires
            self.wf(),
        ensures
            r == self@.len(),
    {
        self.table.len()
    }

    /// Put a chunk into the set.
    pub fn insert(&mut self, c: ChunkCoord)
        requires
            old(self).wf(),
        ensures
            final(self).wf(),
            final(self)@ == old(self)@.insert(c),
    {
        self.table.insert(c, ());
        assert(self@ =~= old(self)@.insert(c));
    }

    /// Put several chunks into the set.
    pub fn insert_all(&mut self, cs: &Vec<ChunkCoord>)
        requires
            old(self).wf(),
        ensures
            final(self).wf(),
            final(self)@ == old(self)@.union(cs@.to_set()),
    {
        let ghost was = self@;
        let mut i: usize = 0;
        assert(self@ =~= was.union(cs@.subrange(0, 0).to_set()));
        while i < cs.len()
            invariant
                i <= cs.len(),
                self.wf(),
                self@ == was.union(cs@.subrange(0, i as int).to_set()),
            decreases cs.len() - i,
        {
            let ghost before = cs@.subrange(0, i as int);
            let ghost after = cs@.subrange(0, i + 1);
            self.insert(cs[i]);
            proof {
                assert(after =~= before.push(cs@[i as int]));
                assert forall|c: ChunkCoord| after.to_set().contains(c) <==> before.to_set().contains(c)
                    || c == cs@[i as int] by {
                    if before.contains(c) {
                        let k = choose|k: int| 0 <= k < before.len() && before[k] == c;
                        assert(after[k] == c);
                    }
                    assert(after[i as int] == cs@[i as int]);
                    if after.contains(c) {
                        let k = choose|k: int| 0 <= k < after.len() && after[k] == c;
                        if k < i {
                            assert(before[k] == c);
                        }
                    }
                }
                assert(self@ =~= was.union(after.to_set()));
            }
            i = i + 1;
        }
        assert(cs@.subrange(0, cs.len() as int) =~= cs@);
    }

    /// Take a chunk out of the set.
    pub fn remove(&mut self, c: ChunkCoord)
        requires
            old(self).wf(),
        ensures
            final(self).wf(),
            final(self)@ == old(self)@.remove(c),
    {
        self.table.remove(c);
        assert(self@ =~= old(self)@.remove(c));
    }

    /// Empty the set.
    pub fn clear(&mut self)
        ensures
            final(self).wf(),
            final(self)@ == Set::<ChunkCoord>::empty(),
    {
        self.table.clear();
        assert(self@ =~= Set::<ChunkCoord>::empty());
    }

    /// The chunks of the set, in scan order.
    pub fn to_list(&self) -> (r: Vec<ChunkCoord>)
        requires
            self.wf(),
        ensures
            in_scan_order(r@),
            r@.to_set() == self@,
            r.len() == self@.len(),
    {
        proof {
            self.table.lemma_entries();
        }
        let n: usize = self.table.len();
        let mut r: Vec<ChunkCoord> = Vec::new();
        let mut i: usize = 0;
        while i < n
            invariant
                self.wf(),
                n == self.table.entries().len(),
                i <= n,
                r.len() == i,
                forall|k: int| 0 <= k < i ==> #[trigger] r@[k] == self.table.entries()[k].0,
            decreases n - i,
        {
            r.push(self.table.entry(i).0);
            i = i + 1;
        }
        proof {
            let items = self.table.entries();
            assert forall|a: int, b: int| 0 <= a < b < r.len() implies (#[trigger] r@[a]).before(
                #[trigger] r@[b],
            ) by {
                assert(items[a].0.before(items[b].0));
            }
            assert forall|c: ChunkCoord| r@.to_set().contains(c) <==> self@.contains(c) by {
                if r@.contains(c) {
                    let k = choose|k: int| 0 <= k < r.len() && r@[k] == c;
                    assert(items[k].0 == c);
                }
                if self@.contains(c) {
                    let k = entry_of(items, c);
                    assert(r@[k] == c);
                }
            }
            assert(r@.to_set() =~= self@);
        }
        r
    }
}

} // verus!
