//! The message keys that were passed over, kept for the messages that come late.
use crate::crypto::keys::KEY_LEN;
use vstd::prelude::*;

verus! {

/// The message key of one message that has not come yet.
struct SkippedKey {
    dh: String,
    n: u32,
    mk: [u8; KEY_LEN],
}

/// What a message key is kept under: the sender's key as it is sent, and the message's number.
spec fn place(entry: SkippedKey) -> (Seq<char>, u32) {
    (entry.dh@, entry.n)
}

/// The places of a sequence of entries.
spec fn places(entries: Seq<SkippedKey>) -> Seq<(Seq<char>, u32)> {
    entries.map_values(|e: SkippedKey| place(e))
}

/// The message keys that were passed over. No place holds two.
pub struct SkippedKeys {
    entries: Vec<SkippedKey>,
}

impl View for SkippedKeys {
    type V = Map<(Seq<char>, u32), Seq<u8>>;

    closed spec fn view(&self) -> Map<(Seq<char>, u32), Seq<u8>> {
        Map::new(
            |p: (Seq<char>, u32)| places(self.entries@).contains(p),
            |p: (Seq<char>, u32)| self.entries@[places(self.entries@).index_of(p)].mk@,
        )
    }
}

impl SkippedKeys {
    /// No place holds two keys.
    pub closed spec fn wf(&self) -> bool {
        places(self.entries@).no_duplicates()
    }

    /// An entry of the sequence is one of the map.
    proof fn lemma_entry(&self, i: int)
        requires
            self.wf(),
            0 <= i < self.entries@.len(),
        ensures
            self@.contains_key(place(self.entries@[i])),
            self@[place(self.entries@[i])] == self.entries@[i].mk@,
    {
        let ps = places(self.entries@);
        assert(ps[i] == place(self.entries@[i]));
        assert(ps.contains(ps[i]));
        assert(ps.index_of(ps[i]) == i);
    }

    /// An entry of the map is one of the sequence.
    proof fn lemma_index(&self, p: (Seq<char>, u32)) -> (i: int)
        requires
            self.wf(),
            self@.contains_key(p),
        ensures
            0 <= i < self.entries@.len(),
            place(self.entries@[i]) == p,
            self@[p] == self.entries@[i].mk@,
    {
        let i = places(self.entries@).index_of(p);
        assert(places(self.entries@)[i] == p);
        self.lemma_entry(i);
        i
    }

    /// The store that holds nothing.
    pub fn new() -> (r: SkippedKeys)
        ensures
            r.wf(),
            r@ == Map::<(Seq<char>, u32), Seq<u8>>::empty(),
    {
        let r = SkippedKeys { entries: Vec::new() };
        assert(r@ =~= Map::<(Seq<char>, u32), Seq<u8>>::empty());
        r
    }

    /// A store that holds the same.
    pub fn copy(&self) -> (r: SkippedKeys)
        ensures
            self.wf() ==> r.wf(),
            r@ == self@,
    {
        let mut entries: Vec<SkippedKey> = Vec::new();
        let mut i: usize = 0;
        while i < self.entries.len()
            invariant
                i <= self.entries@.len(),
                entries@.len() == i,
                forall|j: int|
                    0 <= j < i ==> place(#[trigger] entries@[j]) == place(self.entries@[j])
                        && entries@[j].mk@ == self.entries@[j].mk@,
            decreases self.entries@.len() - i,
        {
            let e = &self.entries[i];
            entries.push(SkippedKey { dh: e.dh.clone(), n: e.n, mk: e.mk });
            i = i + 1;
        }
        let r = SkippedKeys { entries };
        proof {
            assert(places(r.entries@) =~= places(self.entries@));
            assert forall|p: (Seq<char>, u32)| #[trigger] r@.contains_key(p) implies r@[p]
                == self@[p] by {
                let i = places(self.entries@).index_of(p);
                assert(places(self.entries@)[i] == p);
            }
            assert(r@ =~= self@);
        }
        r
    }

    /// How many keys are kept.
    pub fn len(&self) -> (n: usize)
        requires
            self.wf(),
        ensures
            n == self@.len(),
            self@.dom().finite(),
    {
        proof {
            let ps = places(self.entries@);
            assert(self@.dom() =~= ps.to_set());
            ps.unique_seq_to_set();
        }
        self.entries.len()
    }

    /// Where the key of a place stands.
    fn find(&self, dh: &String, n: u32) -> (r: Option<usize>)
        requires
            self.wf(),
        ensures
            match r {
                Some(i) => i < self.entries@.len() && place(self.entries@[i as int]) == (dh@, n),
                None => !self@.contains_key((dh@, n)),
            },
    {
        let mut i: usize = 0;
        while i < self.entries.len()
            invariant
                i <= self.entries@.len(),
                forall|j: int| 0 <= j < i ==> place(#[trigger] self.entries@[j]) != (dh@, n),
            decreases self.entries@.len() - i,
        {
            let e = &self.entries[i];
            if e.n == n && e.dh == *dh {
                return Some(i);
            }
            i = i + 1;
        }
        proof {
            if self@.contains_key((dh@, n)) {
                let j = self.lemma_index((dh@, n));
            }
        }
        None
    }

    /// Whether a key is kept for a place.
    pub fn holds(&self, dh: &String, n: u32) -> (r: bool)
        requires
            self.wf(),
        ensures
            r == self@.contains_key((dh@, n)),
    {
        match self.find(dh, n) {
            Some(i) => {
                proof {
                    self.lemma_entry(i as int);
                }
                true
            },
            None => false,
        }
    }

    /// Takes the key of a place out of the store.
    pub fn take(&mut self, dh: &String, n: u32) -> (r: Option<[u8; KEY_LEN]>)
        requires
            old(self).wf(),
        ensures
            final(self).wf(),
            match r {
                Some(mk) => old(self)@.contains_key((dh@, n)) && old(self)@[(dh@, n)] == mk@
                    && final(self)@ == old(self)@.remove((dh@, n)),
                None => !old(self)@.contains_key((dh@, n)) && final(self)@ == old(self)@,
            },
    {
        match self.find(dh, n) {
            Some(i) => {
                let ghost before = *self;
                let e = self.entries.remove(i);
                proof {
                    before.lemma_entry(i as int);
                    let ps = places(before.entries@);
                    let qs = places(self.entries@);
                    assert forall|j: int, k: int| 0 <= j < k < qs.len() implies qs[j] != qs[k] by {
                        let j0 = if j < i { j } else { j + 1 };
                        let k0 = if k < i { k } else { k + 1 };
                        assert(qs[j] == ps[j0] && qs[k] == ps[k0]);
                    }
                    assert(self.wf());
                    assert forall|p: (Seq<char>, u32)|
                        self@.contains_key(p) == before@.remove((dh@, n)).contains_key(p) by {
                        if self@.contains_key(p) {
                            let j = self.lemma_index(p);
                            let j0 = if j < i { j } else { j + 1 };
                            before.lemma_entry(j0);
                            assert(ps[j0] == p && ps[i as int] == (dh@, n));
                        }
                        if before@.remove((dh@, n)).contains_key(p) {
                            let j = before.lemma_index(p);
                            let j1 = if j < i { j } else { j - 1 };
                            self.lemma_entry(j1);
                        }
                    }
                    assert forall|p: (Seq<char>, u32)| #[trigger] self@.contains_key(p) implies self@[p]
                        == before@[p] by {
                        let j = self.lemma_index(p);
                        let j0 = if j < i { j } else { j + 1 };
                        before.lemma_entry(j0);
                    }
                    assert(self@ =~= before@.remove((dh@, n)));
                }
                Some(e.mk)
            },
            None => None,
        }
    }

    /// Keeps the key of a place, in the stead of one that the place held.
    pub fn insert(&mut self, dh: String, n: u32, mk: [u8; KEY_LEN])
        requires
            old(self).wf(),
        ensures
            final(self).wf(),
            final(self)@ == old(self)@.insert((dh@, n), mk@),
    {
        let ghost before = *self;
        let ghost p0 = (dh@, n);
        match self.find(&dh, n) {
            Some(i) => {
                self.entries.set(i, SkippedKey { dh, n, mk });
                proof {
                    assert(places(self.entries@) =~= places(before.entries@));
                    assert forall|p: (Seq<char>, u32)|
                        self@.contains_key(p) == before@.insert(p0, mk@).contains_key(p) by {
                        before.lemma_entry(i as int);
                    }
                    assert forall|p: (Seq<char>, u32)| #[trigger] self@.contains_key(p) implies self@[p]
                        == before@.insert(p0, mk@)[p] by {
                        let j = self.lemma_index(p);
                        if p == p0 {
                            self.lemma_entry(i as int);
                        } else {
                            before.lemma_entry(j);
                        }
                    }
                    assert(self@ =~= before@.insert(p0, mk@));
                }
            },
            None => {
                self.entries.push(SkippedKey { dh, n, mk });
                proof {
                    let ps = places(before.entries@);
                    let qs = places(self.entries@);
                    assert(qs =~= ps.push(p0));
                    assert forall|j: int| 0 <= j < ps.len() implies ps[j] != p0 by {
                        before.lemma_entry(j);
                    }
                    assert(self.wf());
                    let last = self.entries@.len() - 1;
                    assert forall|p: (Seq<char>, u32)|
                        self@.contains_key(p) == before@.insert(p0, mk@).contains_key(p) by {
                        self.lemma_entry(last);
                        if self@.contains_key(p) {
                            let j = self.lemma_index(p);
                            if j < last {
                                before.lemma_entry(j);
                            }
                        }
                        if before@.contains_key(p) {
                            let j = before.lemma_index(p);
                            self.lemma_entry(j);
                        }
                    }
                    assert forall|p: (Seq<char>, u32)| #[trigger] self@.contains_key(p) implies self@[p]
                        == before@.insert(p0, mk@)[p] by {
                        let j = self.lemma_index(p);
                        if j < last {
                            before.lemma_entry(j);
                        }
                    }
                    assert(self@ =~= before@.insert(p0, mk@));
                }
            },
        }
    }
}

} // verus!
