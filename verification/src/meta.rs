//! The metadata store's in-memory form: a mapping from trash-entry name to
//! (original path, directory bit), held as a vector of records whose keys
//! are pairwise distinct.

use vstd::prelude::*;
use crate::strutil::str_eq;

verus! {

/// One stored metadata record: where a trash entry came from and whether
/// it was a directory.
#[derive(Debug)]
pub struct TrashItem {
    pub path: String,
    pub is_dir: bool,
}

impl View for TrashItem {
    type V = (Seq<char>, bool);

    open spec fn view(&self) -> (Seq<char>, bool) {
        (self.path@, self.is_dir)
    }
}

impl TrashItem {
    /// A field-by-field copy.
    pub fn duplicate(&self) -> (r: TrashItem)
        ensures
            r@ == self@,
    {
        TrashItem { path: self.path.clone(), is_dir: self.is_dir }
    }
}

/// A keyed record as held by `MetaMap`.
#[derive(Debug)]
pub struct MetaEntry {
    pub key: String,
    pub item: TrashItem,
}

/// The key of each record, in storage order.
pub open spec fn keys_of(s: Seq<MetaEntry>) -> Seq<Seq<char>> {
    s.map_values(|e: MetaEntry| e.key@)
}

/// The mapping a record vector denotes; a later record wins over an
/// earlier one with the same key (well-formed maps have no such pair).
pub open spec fn map_of(s: Seq<MetaEntry>) -> Map<Seq<char>, (Seq<char>, bool)>
    decreases s.len(),
{
    if s.len() == 0 {
        Map::empty()
    } else {
        map_of(s.drop_last()).insert(s.last().key@, s.last().item@)
    }
}

pub proof fn lemma_map_of_contains(s: Seq<MetaEntry>)
    ensures
        forall|k: Seq<char>| map_of(s).contains_key(k) <==> keys_of(s).contains(k),
    decreases s.len(),
{
    if s.len() > 0 {
        lemma_map_of_contains(s.drop_last());
        assert forall|k: Seq<char>| map_of(s).contains_key(k) <==> keys_of(s).contains(k) by {
            assert(keys_of(s).drop_last() =~= keys_of(s.drop_last()));
            if map_of(s).contains_key(k) {
                if k == s.last().key@ {
                    assert(keys_of(s)[s.len() - 1] == k);
                } else {
                    assert(map_of(s.drop_last()).contains_key(k));
                    assert(keys_of(s.drop_last()).contains(k));
                    let j = choose|j: int|
                        0 <= j < keys_of(s.drop_last()).len() && keys_of(s.drop_last())[j] == k;
                    assert(keys_of(s)[j] == k);
                    assert(keys_of(s).contains(k));
                }
            }
            if keys_of(s).contains(k) {
                let i = choose|i: int| 0 <= i < keys_of(s).len() && keys_of(s)[i] == k;
                if i < s.len() - 1 {
                    assert(keys_of(s.drop_last())[i] == k);
                    assert(keys_of(s.drop_last()).contains(k));
                    assert(map_of(s.drop_last()).contains_key(k));
                } else {
                    assert(k == s.last().key@);
                }
                assert(map_of(s).contains_key(k));
            }
        }
    }
}

pub proof fn lemma_map_of_index(s: Seq<MetaEntry>, i: int)
    requires
        keys_of(s).no_duplicates(),
        0 <= i < s.len(),
    ensures
        map_of(s).contains_key(s[i].key@),
        map_of(s)[s[i].key@] == s[i].item@,
    decreases s.len(),
{
    lemma_map_of_contains(s);
    assert(keys_of(s)[i] == s[i].key@);
    if i < s.len() - 1 {
        assert(keys_of(s).drop_last() =~= keys_of(s.drop_last()));
        assert(keys_of(s)[i] != keys_of(s)[s.len() - 1]);
        lemma_map_of_index(s.drop_last(), i);
        assert(s.drop_last()[i] == s[i]);
    }
}

pub proof fn lemma_map_of_remove(s: Seq<MetaEntry>, i: int)
    requires
        keys_of(s).no_duplicates(),
        0 <= i < s.len(),
    ensures
        keys_of(s.remove(i)) =~= keys_of(s).remove(i),
        keys_of(s.remove(i)).no_duplicates(),
        map_of(s.remove(i)) =~= map_of(s).remove(s[i].key@),
    decreases s.len(),
{
    assert(keys_of(s.remove(i)) =~= keys_of(s).remove(i));
    assert(keys_of(s.remove(i)).no_duplicates()) by {
        let r = keys_of(s).remove(i);
        assert forall|p: int, q: int| 0 <= p < q < r.len() implies r[p] != r[q] by {
            let p0: int = if p < i { p } else { p + 1 };
            let q0: int = if q < i { q } else { q + 1 };
            assert(r[p] == keys_of(s)[p0]);
            assert(r[q] == keys_of(s)[q0]);
        }
    }
    lemma_map_of_contains(s);
    lemma_map_of_contains(s.remove(i));
    if i == s.len() - 1 {
        assert(s.remove(i) =~= s.drop_last());
        assert(!keys_of(s.drop_last()).contains(s[i].key@)) by {
            assert(keys_of(s).drop_last() =~= keys_of(s.drop_last()));
            if keys_of(s.drop_last()).contains(s[i].key@) {
                let j = choose|j: int|
                    0 <= j < keys_of(s.drop_last()).len() && keys_of(s.drop_last())[j] == s[i].key@;
                assert(keys_of(s)[j] == keys_of(s)[i]);
            }
        }
        lemma_map_of_contains(s.drop_last());
        assert(map_of(s.drop_last()) =~= map_of(s).remove(s[i].key@));
    } else {
        let t = s.remove(i);
        assert(t.last() == s.last());
        assert(t.drop_last() =~= s.drop_last().remove(i));
        assert(keys_of(s).drop_last() =~= keys_of(s.drop_last()));
        assert(keys_of(s.drop_last()).no_duplicates()) by {
            let d = keys_of(s.drop_last());
            assert forall|p: int, q: int| 0 <= p < q < d.len() implies d[p] != d[q] by {
                assert(d[p] == keys_of(s)[p]);
                assert(d[q] == keys_of(s)[q]);
            }
        }
        lemma_map_of_remove(s.drop_last(), i);
        assert(s.drop_last()[i] == s[i]);
        // last key differs from the removed key
        assert(keys_of(s)[i] != keys_of(s)[s.len() - 1]);
        assert(map_of(t) =~= map_of(s).remove(s[i].key@)) by {
            assert(map_of(t) == map_of(t.drop_last()).insert(s.last().key@, s.last().item@));
            assert(map_of(t.drop_last()) == map_of(s.drop_last().remove(i)));
            assert(map_of(s.drop_last().remove(i)) =~= map_of(s.drop_last()).remove(s[i].key@));
        }
    }
}

/// The metadata store: trash-entry name to (original path, directory bit).
#[derive(Debug)]
pub struct MetaMap {
    pub entries: Vec<MetaEntry>,
}

impl View for MetaMap {
    type V = Map<Seq<char>, (Seq<char>, bool)>;

    open spec fn view(&self) -> Map<Seq<char>, (Seq<char>, bool)> {
        map_of(self.entries@)
    }
}

impl MetaMap {
    /// Keys in storage order.
    pub open spec fn key_seq(&self) -> Seq<Seq<char>> {
        keys_of(self.entries@)
    }

    /// Keys are pairwise distinct.
    pub open spec fn wf(&self) -> bool {
        self.key_seq().no_duplicates()
    }

    pub open spec fn spec_len(&self) -> nat {
        self.entries@.len()
    }

    /// The record vector behind the map, record `i` as `(key, path, is_dir)`.
    pub open spec fn entry_view(&self, i: int) -> (Seq<char>, Seq<char>, bool) {
        (self.entries@[i].key@, self.entries@[i].item.path@, self.entries@[i].item.is_dir)
    }

    pub fn new() -> (r: MetaMap)
        ensures
            r.wf(),
            r@ =~= Map::<Seq<char>, (Seq<char>, bool)>::empty(),
            r.spec_len() == 0,
    {
        MetaMap { entries: Vec::new() }
    }

    pub fn len(&self) -> (r: usize)
        ensures
            r == self.spec_len(),
    {
        self.entries.len()
    }

    /// The key and record at storage position `i`.
    pub fn entry_at(&self, i: usize) -> (r: (String, String, bool))
        requires
            i < self.spec_len(),
        ensures
            (r.0@, r.1@, r.2) == self.entry_view(i as int),
            self.wf() ==> self@.contains_key(r.0@) && self@[r.0@] == (r.1@, r.2),
    {
        proof {
            if self.wf() {
                lemma_map_of_index(self.entries@, i as int);
            }
        }
        let e = &self.entries[i];
        (e.key.clone(), e.item.path.clone(), e.item.is_dir)
    }

    fn find_idx(&self, k: &str) -> (r: Option<usize>)
        ensures
            match r {
                Some(i) => i < self.spec_len() && self.entries@[i as int].key@ == k@,
                None => !self@.contains_key(k@),
            },
    {
        proof {
            lemma_map_of_contains(self.entries@);
        }
        let n = self.entries.len();
        let mut i: usize = 0;
        while i < n
            invariant
                n == self.spec_len(),
                i <= n,
                forall|j: int| 0 <= j < i ==> self.entries@[j].key@ != k@,
            decreases n - i,
        {
            if str_eq(self.entries[i].key.as_str(), k) {
                return Some(i);
            }
            i += 1;
        }
        proof {
            if self.key_seq().contains(k@) {
                let j = choose|j: int|
                    0 <= j < self.key_seq().len() && self.key_seq()[j] == k@;
                assert(self.entries@[j].key@ == k@);
            }
        }
        None
    }

    /// Looks a trash name up.
    pub fn get(&self, k: &str) -> (r: Option<TrashItem>)
        requires
            self.wf(),
        ensures
            match r {
                Some(item) => self@.contains_key(k@) && self@[k@] == item@,
                None => !self@.contains_key(k@),
            },
    {
        match self.find_idx(k) {
            Some(i) => {
                proof {
                    lemma_map_of_index(self.entries@, i as int);
                }
                Some(self.entries[i].item.duplicate())
            },
            None => None,
        }
    }

    /// Inserts or replaces the record under `k`.
    pub fn insert(&mut self, k: String, item: TrashItem)
        requires
            old(self).wf(),
        ensures
            final(self).wf(),
            final(self)@ =~= old(self)@.insert(k@, item@),
            final(self).spec_len() <= old(self).spec_len() + 1,
    {
        let ghost s0 = self.entries@;
        match self.find_idx(k.as_str()) {
            Some(i) => {
                proof {
                    lemma_map_of_remove(s0, i as int);
                }
                self.entries.remove(i);
                let ghost s1 = self.entries@;
                self.entries.push(MetaEntry { key: k, item });
                proof {
                    assert(self.entries@.drop_last() =~= s1);
                    assert(keys_of(self.entries@).drop_last() =~= keys_of(s1));
                    lemma_map_of_contains(s1);
                    assert(self.wf()) by {
                        let ks = keys_of(self.entries@);
                        assert forall|p: int, q: int| 0 <= p < q < ks.len() implies ks[p] != ks[q] by {
                            if q == ks.len() - 1 {
                                assert(ks[p] == keys_of(s1)[p]);
                                if keys_of(s1)[p] == k@ {
                                    assert(keys_of(s1).contains(k@));
                                    assert(keys_of(s0).remove(i as int).contains(k@));
                                    let j = choose|j: int|
                                        0 <= j < keys_of(s0).remove(i as int).len()
                                            && keys_of(s0).remove(i as int)[j] == k@;
                                    let j0: int = if j < i { j } else { j + 1 };
                                    assert(keys_of(s0)[j0] == k@);
                                    assert(keys_of(s0)[i as int] == k@);
                                }
                            } else {
                                assert(ks[p] == keys_of(s1)[p]);
                                assert(ks[q] == keys_of(s1)[q]);
                            }
                        }
                    }
                    assert(self@ =~= old(self)@.insert(k@, item@));
                }
            },
            None => {
                self.entries.push(MetaEntry { key: k, item });
                proof {
                    assert(self.entries@.drop_last() =~= s0);
                    assert(keys_of(self.entries@).drop_last() =~= keys_of(s0));
                    lemma_map_of_contains(s0);
                    assert(self.wf()) by {
                        let ks = keys_of(self.entries@);
                        assert forall|p: int, q: int| 0 <= p < q < ks.len() implies ks[p] != ks[q] by {
                            if q == ks.len() - 1 {
                                assert(ks[p] == keys_of(s0)[p]);
                                if keys_of(s0)[p] == k@ {
                                    assert(keys_of(s0).contains(k@));
                                }
                            } else {
                                assert(ks[p] == keys_of(s0)[p]);
                                assert(ks[q] == keys_of(s0)[q]);
                            }
                        }
                    }
                    assert(self@ =~= old(self)@.insert(k@, item@));
                }
            },
        }
    }

    /// Drops the record under `k`, if any.
    pub fn remove(&mut self, k: &str)
        requires
            old(self).wf(),
        ensures
            final(self).wf(),
            final(self)@ =~= old(self)@.remove(k@),
            final(self).spec_len() <= old(self).spec_len(),
    {
        let ghost s0 = self.entries@;
        match self.find_idx(k) {
            Some(i) => {
                proof {
                    lemma_map_of_remove(s0, i as int);
                }
                self.entries.remove(i);
            },
            None => {
                proof {
                    assert(self@ =~= old(self)@.remove(k@));
                }
            },
        }
    }

    /// The map's key set is finite and no larger than its record count.
    pub proof fn lemma_dom_size(&self)
        requires
            self.wf(),
        ensures
            self@.dom().finite(),
            self@.dom().len() <= self.spec_len(),
    {
        lemma_map_of_contains(self.entries@);
        assert(self@.dom() =~= self.key_seq().to_set()) by {
            assert forall|k: Seq<char>| #[trigger] self@.dom().contains(k)
                <==> self.key_seq().to_set().contains(k) by {
                broadcast use vstd::seq_lib::group_seq_properties;
            }
        }
        broadcast use vstd::seq_lib::seq_to_set_is_finite;
        self.key_seq().lemma_cardinality_of_set();
    }
}

} // verus!
