//! A list of distinct names that finds a name by its hash.

use std::collections::HashMap;
use vstd::prelude::*;
use vstd::std_specs::hash::group_hash_axioms;
use crate::text::char_at;
use crate::text::same_chars;
use crate::text::views;

verus! {

/// The modulus of the hash, a prime below `2^32`.
pub const HASH_MODULUS: u64 = 4294967291;

/// The multiplier of the hash.
pub const HASH_FACTOR: u64 = 1000003;

/// The hash of a text.
pub open spec fn text_hash(text: Seq<char>) -> u64
    decreases text.len(),
{
    if text.len() == 0 {
        0
    } else {
        ((text_hash(text.drop_last()) * HASH_FACTOR + (text.last() as u32)) % (
        HASH_MODULUS as int)) as u64
    }
}

/// A list of names with an index from the hash of a name to the places where
/// names of that hash stand.
pub struct NameIndex {
    names: Vec<Vec<char>>,
    slots: HashMap<u64, Vec<usize>>,
}

impl NameIndex {
    /// The names of the list, in the order in which they were added.
    pub closed spec fn names(&self) -> Seq<Seq<char>> {
        views(self.names@)
    }

    /// Every name is indexed under its hash, and the index holds only places of
    /// the list.
    pub closed spec fn wf(&self) -> bool {
        &&& forall|m: int|
            0 <= m < self.names.len() ==> {
                let hash = text_hash((#[trigger] self.names[m])@);
                self.slots@.contains_key(hash) && self.slots@[hash]@.contains(m as usize)
            }
        &&& forall|hash: u64, k: int|
            self.slots@.contains_key(hash) && 0 <= k < self.slots@[hash].len() ==> (
            #[trigger] self.slots@[hash][k]) < self.names.len()
    }

    /// An empty list.
    pub fn new() -> (index: NameIndex)
        ensures
            index.wf(),
            index.names() == Seq::<Seq<char>>::empty(),
    {
        let index = NameIndex { names: Vec::new(), slots: HashMap::new() };
        proof {
            assert(index.names() =~= Seq::<Seq<char>>::empty());
        }
        index
    }

    /// The number of names.
    pub fn len(&self) -> (len: usize)
        ensures
            len == self.names().len(),
    {
        self.names.len()
    }

    /// The place of a name in the list.
    pub fn find(&self, name: &Vec<char>) -> (found: Option<usize>)
        requires
            self.wf(),
        ensures
            match found {
                Some(k) => k < self.names().len() && self.names()[k as int] == name@,
                None => !self.names().contains(name@),
            },
    {
        broadcast use group_hash_axioms;

        let hash = hash_of(name);
        match self.slots.get(&hash) {
            None => {
                proof {
                    if self.names().contains(name@) {
                        let m = choose|m: int| 0 <= m < self.names().len() && self.names()[m] == name@;
                        assert(self.names[m]@ == name@);
                    }
                }
                None
            },
            Some(places) => {
                let mut k: usize = 0;
                while k < places.len()
                    invariant
                        k <= places.len(),
                        self.wf(),
                        self.slots@.contains_key(hash),
                        self.slots@[hash] == *places,
                        forall|j: int| 0 <= j < k ==> self.names[(#[trigger] places[j]) as int]@ != name@,
                    decreases places.len() - k,
                {
                    let at = places[k];
                    assert(self.slots@[hash][k as int] < self.names.len());
                    if same_chars(&self.names[at], name) {
                        proof {
                            assert(self.names()[at as int] == self.names[at as int]@);
                        }
                        return Some(at);
                    }
                    k += 1;
                }
                proof {
                    if self.names().contains(name@) {
                        let m = choose|m: int| 0 <= m < self.names().len() && self.names()[m] == name@;
                        assert(self.names[m]@ == name@);
                        assert(places@.contains(m as usize));
                        let j = choose|j: int| 0 <= j < places.len() && places[j] == m as usize;
                        assert(self.names[places[j] as int]@ != name@);
                    }
                }
                None
            },
        }
    }

    /// Adds a name at the end of the list.
    pub fn push(&mut self, name: Vec<char>)
        requires
            old(self).wf(),
        ensures
            final(self).wf(),
            final(self).names() == old(self).names().push(name@),
    {
        broadcast use group_hash_axioms;

        let ghost old_names = self.names@;
        let ghost old_slots = self.slots@;
        let place = self.names.len();
        let hash = hash_of(&name);
        let mut places = match self.slots.remove(&hash) {
            Some(places) => places,
            None => Vec::new(),
        };
        let ghost old_places = places@;
        places.push(place);
        self.slots.insert(hash, places);
        self.names.push(name);
        proof {
            assert(self.names() =~= views(old_names).push(name@));
            assert(places@[old_places.len() as int] == place);
            assert forall|m: int| 0 <= m < self.names.len() implies {
                let h = text_hash((#[trigger] self.names[m])@);
                self.slots@.contains_key(h) && self.slots@[h]@.contains(m as usize)
            } by {
                let h = text_hash(self.names[m]@);
                if m < old_names.len() {
                    assert(self.names[m] == old_names[m]);
                    assert(old_slots.contains_key(h) && old_slots[h]@.contains(m as usize));
                    if h == hash {
                        let j = choose|j: int| 0 <= j < old_places.len() && old_places[j] == m as usize;
                        assert(places@[j] == m as usize);
                    }
                }
            }
            assert forall|h: u64, k: int|
                self.slots@.contains_key(h) && 0 <= k < self.slots@[h].len() implies (
            #[trigger] self.slots@[h][k]) < self.names.len() by {
                if h == hash {
                    if k < old_places.len() {
                        assert(old_slots.contains_key(hash));
                        assert(old_slots[hash][k] < old_names.len());
                    }
                } else {
                    assert(old_slots[h][k] < old_names.len());
                }
            }
        }
    }
}

/// The hash of a text.
pub fn hash_of(text: &Vec<char>) -> (hash: u64)
    ensures
        hash == text_hash(text@),
{
    let mut hash: u64 = 0;
    let mut i: usize = 0;
    proof {
        assert(text@.take(0) =~= Seq::<char>::empty());
    }
    while i < text.len()
        invariant
            i <= text.len(),
            hash == text_hash(text@.take(i as int)),
            hash < HASH_MODULUS,
        decreases text.len() - i,
    {
        let c = char_at(text, i);
        proof {
            assert(text@.take(i + 1).drop_last() =~= text@.take(i as int));
            assert(text@.take(i + 1).last() == c);
        }
        hash = (hash * HASH_FACTOR + (c as u32) as u64) % HASH_MODULUS;
        i += 1;
    }
    proof {
        assert(text@.take(i as int) =~= text@);
    }
    hash
}

} // verus!
