use vstd::prelude::*;

use crate::model::{LoadingResult, Outcome};
use crate::order::{
    compare_keys, has_key, key_less, keys_increasing, lemma_key_less_asymmetric,
    lemma_key_less_irreflexive, lemma_key_less_total, lemma_key_less_transitive, position,
};

verus! {

/// Whether `e1` and `e2` list the same identifiers with the same outcomes,
/// in the same order.
pub open spec fn same_entries(e1: Seq<(String, LoadingResult)>, e2: Seq<(String, LoadingResult)>) -> bool {
    &&& e1.len() == e2.len()
    &&& forall|i: int| 0 <= i < e1.len() ==> (#[trigger] e1[i]).0@ == e2[i].0@ && e1[i].1@ == e2[i].1@
}

proof fn lemma_sorted_prefix(
    e1: Seq<(String, LoadingResult)>,
    e2: Seq<(String, LoadingResult)>,
    n: int,
)
    requires
        keys_increasing(e1),
        keys_increasing(e2),
        forall|k: Seq<char>| #[trigger] has_key(e1, k) <==> has_key(e2, k),
        0 <= n <= e1.len(),
        n <= e2.len(),
    ensures
        forall|i: int| 0 <= i < n ==> (#[trigger] e1[i]).0@ == e2[i].0@,
    decreases n,
{
    if n > 0 {
        lemma_sorted_prefix(e1, e2, n - 1);
        let i = n - 1;
        let k1 = e1[i].0@;
        let k2 = e2[i].0@;
        assert(has_key(e1, k1));
        assert(has_key(e2, k2));
        assert(has_key(e1, k2));
        assert(has_key(e2, k1));
        let j2 = choose|j: int| 0 <= j < e2.len() && (#[trigger] e2[j]).0@ == k1;
        let j1 = choose|j: int| 0 <= j < e1.len() && (#[trigger] e1[j]).0@ == k2;
        lemma_key_less_irreflexive(k1);
        lemma_key_less_irreflexive(k2);
        lemma_key_less_asymmetric(k1, k2);
        if j2 < i {
            assert(e1[j2].0@ == e2[j2].0@);
            assert(key_less(e1[j2].0@, e1[i].0@));
        }
        if j1 < i {
            assert(e1[j1].0@ == e2[j1].0@);
            assert(key_less(e2[j1].0@, e2[i].0@));
        }
        if j2 > i && j1 > i {
            assert(key_less(e2[i].0@, e2[j2].0@));
            assert(key_less(e1[i].0@, e1[j1].0@));
        }
        if j2 > i && j1 == i {
            assert(key_less(e2[i].0@, e2[j2].0@));
        }
    }
}

/// A catalog is walked the same way whenever it holds the same mapping: the
/// order of its entries depends on nothing but their identifiers.
pub proof fn lemma_same_mapping_same_walk(c1: &Catalog, c2: &Catalog)
    requires
        c1.wf(),
        c2.wf(),
        c1@ == c2@,
    ensures
        same_entries(c1.entry_seq(), c2.entry_seq()),
{
    let e1 = c1.entry_seq();
    let e2 = c2.entry_seq();
    assert forall|k: Seq<char>| #[trigger] has_key(e1, k) <==> has_key(e2, k) by {
        assert(c1@.contains_key(k) <==> has_key(e1, k));
        assert(c2@.contains_key(k) <==> has_key(e2, k));
    }
    if e1.len() < e2.len() {
        lemma_sorted_prefix(e1, e2, e1.len() as int);
        let k = e2[e1.len() as int].0@;
        assert(has_key(e2, k));
        assert(has_key(e1, k));
        let j = choose|j: int| 0 <= j < e1.len() && (#[trigger] e1[j]).0@ == k;
        assert(e1[j].0@ == e2[j].0@);
        assert(key_less(e2[j].0@, e2[e1.len() as int].0@));
        lemma_key_less_irreflexive(k);
    } else if e2.len() < e1.len() {
        lemma_sorted_prefix(e1, e2, e2.len() as int);
        let k = e1[e2.len() as int].0@;
        assert(has_key(e1, k));
        let j = choose|j: int| 0 <= j < e2.len() && (#[trigger] e2[j]).0@ == k;
        assert(e1[j].0@ == e2[j].0@);
        assert(key_less(e1[j].0@, e1[e2.len() as int].0@));
        lemma_key_less_irreflexive(k);
    } else {
        lemma_sorted_prefix(e1, e2, e1.len() as int);
        assert forall|i: int| 0 <= i < e1.len() implies (#[trigger] e1[i]).0@ == e2[i].0@
            && e1[i].1@ == e2[i].1@ by {
            assert(c1@[e1[i].0@] == e1[i].1@);
            assert(c2@[e2[i].0@] == e2[i].1@);
        }
    }
}

/// The outcome of each catalog entry, under its identifier. Entries are kept
/// in increasing order of identifier, so walking them is deterministic.
pub struct Catalog {
    entries: Vec<(String, LoadingResult)>,
    contents: Ghost<Map<Seq<char>, Outcome>>,
}

impl View for Catalog {
    type V = Map<Seq<char>, Outcome>;

    closed spec fn view(&self) -> Map<Seq<char>, Outcome> {
        self.contents@
    }
}

impl Catalog {
    /// The entries in the order they are walked.
    pub closed spec fn entry_seq(&self) -> Seq<(String, LoadingResult)> {
        self.entries@
    }

    /// The entries increase strictly by identifier and hold exactly the
    /// mapping.
    pub open spec fn wf(&self) -> bool {
        &&& keys_increasing(self.entry_seq())
        &&& forall|k: Seq<char>| #[trigger]
            self@.contains_key(k) <==> has_key(self.entry_seq(), k)
        &&& forall|i: int|
            0 <= i < self.entry_seq().len() ==> self@[#[trigger] self.entry_seq()[i].0@]
                == self.entry_seq()[i].1@
    }

    /// An empty catalog.
    pub fn new() -> (r: Catalog)
        ensures
            r.wf(),
            r@ == Map::<Seq<char>, Outcome>::empty(),
    {
        Catalog { entries: Vec::new(), contents: Ghost(Map::empty()) }
    }

    /// The number of entries.
    pub fn len(&self) -> (r: usize)
        requires
            self.wf(),
        ensures
            r == self.entry_seq().len(),
    {
        self.entries.len()
    }

    /// The entries in increasing order of identifier.
    pub fn entries(&self) -> (r: &Vec<(String, LoadingResult)>)
        requires
            self.wf(),
        ensures
            r@ == self.entry_seq(),
    {
        &self.entries
    }

    /// Hands out the entries in increasing order of identifier.
    pub fn into_entries(self) -> (r: Vec<(String, LoadingResult)>)
        requires
            self.wf(),
        ensures
            r@ == self.entry_seq(),
    {
        self.entries
    }

    /// The outcome stored under `key`, if any.
    pub fn get(&self, key: &str) -> (r: Option<&LoadingResult>)
        requires
            self.wf(),
        ensures
            match r {
                Some(v) => self@.contains_key(key@) && self@[key@] == v@,
                None => !self@.contains_key(key@),
            },
    {
        let i = position(&self.entries, key);
        if i < self.entries.len() && compare_keys(self.entries[i].0.as_str(), key) == 0 {
            Some(&self.entries[i].1)
        } else {
            proof {
                assert forall|j: int| 0 <= j < self.entry_seq().len() implies (#[trigger] self.entry_seq()[j]).0@
                    != key@ by {
                    let kj = self.entry_seq()[j].0@;
                    if j < i {
                        lemma_key_less_irreflexive(key@);
                    } else if j > i {
                        if kj == key@ {
                            assert(key_less(self.entry_seq()[i as int].0@, kj));
                        }
                    }
                }
            }
            None
        }
    }

    /// Records `outcome` under `key`, replacing what was stored there.
    pub fn insert(&mut self, key: String, outcome: LoadingResult)
        requires
            old(self).wf(),
        ensures
            final(self).wf(),
            final(self)@ == old(self)@.insert(key@, outcome@),
    {
        let i = position(&self.entries, key.as_str());
        let ghost k = key@;
        let ghost v = outcome@;
        let ghost old_e = self.entries@;
        let ghost old_m = self@;
        if i < self.entries.len() && compare_keys(self.entries[i].0.as_str(), key.as_str()) == 0 {
            self.entries.set(i, (key, outcome));
            self.contents = Ghost(self.contents@.insert(k, v));
            proof {
                let e = self.entries@;
                assert forall|j: int| 0 <= j < e.len() && j != i implies e[j] == old_e[j]
                    && #[trigger] e[j].0@ != k by {
                    if j < i {
                        assert(key_less(old_e[j].0@, old_e[i as int].0@));
                    } else {
                        assert(key_less(old_e[i as int].0@, old_e[j].0@));
                    }
                    lemma_key_less_irreflexive(k);
                }
                assert forall|a: int, b: int| 0 <= a < b < e.len() implies key_less(
                    #[trigger] e[a].0@,
                    #[trigger] e[b].0@,
                ) by {
                    assert(old_e[a].0@ == e[a].0@);
                    assert(old_e[b].0@ == e[b].0@);
                }
                assert forall|kk: Seq<char>| #[trigger]
                    self@.contains_key(kk) <==> has_key(e, kk) by {
                    if has_key(old_e, kk) {
                        let j = choose|j: int| 0 <= j < old_e.len() && (#[trigger] old_e[j]).0@ == kk;
                        assert(e[j].0@ == kk);
                    }
                    if has_key(e, kk) {
                        let j = choose|j: int| 0 <= j < e.len() && (#[trigger] e[j]).0@ == kk;
                        assert(old_e[j].0@ == kk);
                    }
                    if kk == k {
                        assert(e[i as int].0@ == kk);
                    }
                }
                assert forall|j: int| 0 <= j < e.len() implies self@[#[trigger] e[j].0@]
                    == e[j].1@ by {
                    if j != i {
                        assert(old_m[old_e[j].0@] == old_e[j].1@);
                    }
                }
            }
        } else {
            proof {
                if i < old_e.len() {
                    lemma_key_less_total(old_e[i as int].0@, k);
                }
                assert forall|j: int| i <= j < old_e.len() implies key_less(
                    k,
                    #[trigger] old_e[j].0@,
                ) by {
                    if j > i {
                        lemma_key_less_transitive(k, old_e[i as int].0@, old_e[j].0@);
                    }
                }
            }
            self.entries.insert(i, (key, outcome));
            self.contents = Ghost(self.contents@.insert(k, v));
            proof {
                let e = self.entries@;
                assert forall|j: int| 0 <= j < e.len() && j != i implies #[trigger] e[j].0@ != k
                    && e[j] == (if j < i { old_e[j] } else { old_e[j - 1] }) by {
                    lemma_key_less_irreflexive(k);
                    if j < i {
                        assert(key_less(old_e[j].0@, k));
                    } else {
                        assert(key_less(k, old_e[j - 1].0@));
                    }
                }
                assert forall|a: int, b: int| 0 <= a < b < e.len() implies key_less(
                    #[trigger] e[a].0@,
                    #[trigger] e[b].0@,
                ) by {
                    if a < i && b > i {
                        assert(key_less(old_e[a].0@, old_e[b - 1].0@));
                    } else if a < i && b < i {
                        assert(key_less(old_e[a].0@, old_e[b].0@));
                    } else if a > i {
                        assert(key_less(old_e[a - 1].0@, old_e[b - 1].0@));
                    } else if a == i {
                        assert(key_less(k, old_e[b - 1].0@));
                    } else {
                        assert(key_less(old_e[a].0@, k));
                    }
                }
                assert forall|kk: Seq<char>| #[trigger]
                    self@.contains_key(kk) <==> has_key(e, kk) by {
                    if has_key(old_e, kk) {
                        let j = choose|j: int| 0 <= j < old_e.len() && (#[trigger] old_e[j]).0@ == kk;
                        if j < i {
                            assert(e[j].0@ == kk);
                        } else {
                            assert(e[j + 1].0@ == kk);
                        }
                    }
                    if has_key(e, kk) {
                        let j = choose|j: int| 0 <= j < e.len() && (#[trigger] e[j]).0@ == kk;
                        if j < i {
                            assert(old_e[j].0@ == kk);
                        } else if j > i {
                            assert(old_e[j - 1].0@ == kk);
                        }
                    }
                    if kk == k {
                        assert(e[i as int].0@ == kk);
                    }
                }
                assert forall|j: int| 0 <= j < e.len() implies self@[#[trigger] e[j].0@]
                    == e[j].1@ by {
                    if j < i {
                        assert(old_m[old_e[j].0@] == old_e[j].1@);
                    } else if j > i {
                        assert(old_m[old_e[j - 1].0@] == old_e[j - 1].1@);
                    }
                }
            }
        }
    }
}

} // verus!
