//! The payload files collected from the projector's temporary folder, by
//! file name; a file read again replaces the earlier copy.
use vstd::prelude::*;
use crate::bytes::str_eq;

verus! {

/// Payload bytes by file name, in the order in which names first came.
pub struct PayloadStore {
    names: Vec<String>,
    data: Vec<Vec<u8>>,
    contents: Ghost<Map<Seq<char>, Seq<u8>>>,
}

impl View for PayloadStore {
    type V = Map<Seq<char>, Seq<u8>>;

    closed spec fn view(&self) -> Map<Seq<char>, Seq<u8>> {
        self.contents@
    }
}

impl PayloadStore {
    /// The names are distinct, each maps to its data, and nothing else is
    /// stored.
    #[verifier::type_invariant]
    spec fn wf(self) -> bool {
        &&& self.names@.len() == self.data@.len()
        &&& forall|i: int, j: int| 0 <= i < j < self.names@.len() ==> self.names@[i]@ != self.names@[j]@
        &&& forall|i: int| 0 <= i < self.names@.len() ==> #[trigger] self.contents@.contains_key(self.names@[i]@)
            && self.contents@[self.names@[i]@] == self.data@[i]@
        &&& forall|k: Seq<char>| #[trigger] self.contents@.contains_key(k) ==> exists|i: int|
            0 <= i < self.names@.len() && self.names@[i]@ == k
    }

    /// The stored names, in the order in which they first came.
    pub closed spec fn keys(&self) -> Seq<Seq<char>> {
        self.names@.map_values(|s: String| s@)
    }

    /// An empty store.
    pub fn new() -> (s: Self)
        ensures
            s@ == Map::<Seq<char>, Seq<u8>>::empty(),
            s.keys() == Seq::<Seq<char>>::empty(),
    {
        let s = PayloadStore { names: Vec::new(), data: Vec::new(), contents: Ghost(Map::empty()) };
        assert(s.keys() =~= Seq::<Seq<char>>::empty());
        s
    }

    fn position(&self, name: &str) -> (r: Option<usize>)
        ensures
            match r {
                Some(i) => i < self.names@.len() && self.names@[i as int]@ == name@,
                None => !self@.contains_key(name@),
            },
    {
        proof {
            use_type_invariant(self);
        }
        let mut i: usize = 0;
        while i < self.names.len()
            invariant
                i <= self.names@.len(),
                forall|j: int| 0 <= j < i ==> self.names@[j]@ != name@,
            decreases self.names.len() - i,
        {
            if str_eq(self.names[i].as_str(), name) {
                return Some(i);
            }
            i = i + 1;
        }
        proof {
            if self@.contains_key(name@) {
                let j = choose|j: int| 0 <= j < self.names@.len() && self.names@[j]@ == name@;
            }
        }
        None
    }

    /// Store `data` under `name`, replacing what was stored under it; a new
    /// name goes after the others.
    pub fn insert(&mut self, name: String, data: Vec<u8>)
        ensures
            final(self)@ == old(self)@.insert(name@, data@),
            final(self).keys() == if old(self)@.contains_key(name@) {
                old(self).keys()
            } else {
                old(self).keys().push(name@)
            },
    {
        proof {
            use_type_invariant(&*self);
        }
        let pos = self.position(name.as_str());
        let mut taken = PayloadStore::new();
        std::mem::swap(self, &mut taken);
        proof {
            use_type_invariant(&taken);
        }
        let ghost old_keys = taken.keys();
        let ghost old_data = taken.data@;
        let ghost old_map = taken.contents@;
        let ghost m = taken.contents@.insert(name@, data@);
        assert(taken.wf());
        assert(taken == *old(self));
        let ghost tn = taken.names@;
        assert forall|k: int| 0 <= k < tn.len() implies #[trigger] old_map.contains_key(tn[k]@)
            && old_map[tn[k]@] == old_data[k]@ by {
            assert(taken.contents@.contains_key(taken.names@[k]@));
        }
        assert forall|key: Seq<char>| #[trigger] old_map.contains_key(key) implies exists|j: int|
            0 <= j < tn.len() && tn[j]@ == key by {
            assert(taken.contents@.contains_key(key));
        }
        let PayloadStore { names: mut names, data: mut datas, contents: _ } = taken;
        assert(names@ == tn);
        assert(tn == old(self).names@);
        assert(datas@ == old_data);
        assert(old_map == old(self)@);
        match pos {
            Some(i) => {
                assert(tn[i as int]@ == name@);
                assert(old_map.contains_key(tn[i as int]@));
                datas.set(i, data);
                assert forall|k: int| 0 <= k < names@.len() implies #[trigger] m.contains_key(names@[k]@)
                    && m[names@[k]@] == datas@[k]@ by {
                    if k != i {
                        assert(0 <= k < tn.len());
                        assert(old_map.contains_key(tn[k]@));
                        assert(old_map[tn[k]@] == old_data[k]@);
                        assert(tn[k]@ != tn[i as int]@);
                    }
                }
                assert forall|key: Seq<char>| #[trigger] m.contains_key(key) implies exists|j: int|
                    0 <= j < names@.len() && names@[j]@ == key by {
                    if key == name@ {
                        assert(names@[i as int]@ == key);
                    }
                }
                *self = PayloadStore { names, data: datas, contents: Ghost(m) };
                assert(self.keys() =~= old_keys);
            },
            None => {
                names.push(name);
                datas.push(data);
                let ghost n: int = names@.len() - 1;
                assert forall|a: int, b: int| 0 <= a < b < names@.len() implies names@[a]@ != names@[b]@ by {
                    assert(0 <= a < tn.len());
                    assert(names@[a] == tn[a]);
                    if b < n {
                        assert(names@[b] == tn[b]);
                    }
                    if b == n {
                        assert(old_map.contains_key(tn[a]@));
                        assert(tn[a]@ != names@[n]@) by {
                            if tn[a]@ == names@[n]@ {
                                assert(old(self)@.contains_key(tn[a]@));
                            }
                        }
                    }
                }
                assert forall|key: Seq<char>| #[trigger] m.contains_key(key) implies exists|j: int|
                    0 <= j < names@.len() && names@[j]@ == key by {
                    if key == names@[n]@ {
                    } else {
                        assert(old(self)@.contains_key(key));
                        let j = choose|j: int| 0 <= j < tn.len() && tn[j]@ == key;
                        assert(names@[j]@ == key);
                    }
                }
                assert forall|k: int| 0 <= k < names@.len() implies #[trigger] m.contains_key(names@[k]@)
                    && m[names@[k]@] == datas@[k]@ by {
                    if k < n {
                        assert(0 <= k < tn.len());
                        assert(names@[k] == tn[k]);
                        assert(datas@[k] == old_data[k]);
                        assert(old_map.contains_key(tn[k]@) && old_map[tn[k]@] == old_data[k]@);
                        assert(tn[k]@ != names@[n]@) by {
                            if tn[k]@ == names@[n]@ {
                                assert(old(self)@.contains_key(tn[k]@));
                            }
                        }
                    }
                }
                *self = PayloadStore { names, data: datas, contents: Ghost(m) };
                assert(self.keys() =~= old_keys.push(name@));
            },
        }
    }

    /// The data stored under `name`.
    pub fn get(&self, name: &str) -> (r: Option<&Vec<u8>>)
        ensures
            match r {
                Some(d) => self@.contains_key(name@) && d@ == self@[name@],
                None => !self@.contains_key(name@),
            },
    {
        proof {
            use_type_invariant(self);
        }
        match self.position(name) {
            Some(i) => {
                assert(self.contents@.contains_key(self.names@[i as int]@));
                Some(&self.data[i])
            },
            None => None,
        }
    }

    /// Number of stored files.  The stored names are the names of the
    /// map, each once, so going through [`PayloadStore::entry`] for every
    /// index below the length visits every stored file exactly once.
    pub fn len(&self) -> (n: usize)
        ensures
            n == self.keys().len(),
            n == self@.dom().len(),
            self.keys().no_duplicates(),
            self.keys().to_set() == self@.dom(),
    {
        proof {
            use_type_invariant(self);
            lemma_keys(self);
        }
        self.names.len()
    }

    /// Whether nothing is stored.
    pub fn is_empty(&self) -> (r: bool)
        ensures
            r == (self@.dom().len() == 0),
    {
        self.len() == 0
    }

    /// The `i`-th stored file, in the order in which names first came.
    pub fn entry(&self, i: usize) -> (r: (&String, &Vec<u8>))
        requires
            i < self.keys().len(),
        ensures
            r.0@ == self.keys()[i as int],
            self@.contains_key(r.0@) && self@[r.0@] == r.1@,
    {
        proof {
            use_type_invariant(self);
            assert(self.contents@.contains_key(self.names@[i as int]@));
        }
        (&self.names[i], &self.data[i])
    }
}

proof fn lemma_keys(s: &PayloadStore)
    requires
        s.wf(),
    ensures
        s.keys().no_duplicates(),
        s.keys().to_set() == s@.dom(),
        s.keys().len() == s@.dom().len(),
{
    let keys = s.keys();
    assert(keys.no_duplicates()) by {
        assert forall|a: int, b: int| 0 <= a < keys.len() && 0 <= b < keys.len() && a != b implies keys[a] != keys[b] by {
            if a < b {
            } else {
            }
        }
    }
    assert(s@.dom() =~= keys.to_set()) by {
        assert forall|k: Seq<char>| s@.dom().contains(k) implies keys.to_set().contains(k) by {
            let j = choose|j: int| 0 <= j < s.names@.len() && s.names@[j]@ == k;
            assert(keys[j] == k);
        }
        assert forall|k: Seq<char>| keys.to_set().contains(k) implies s@.dom().contains(k) by {
            let j = choose|j: int| 0 <= j < keys.len() && keys[j] == k;
            assert(s.contents@.contains_key(s.names@[j]@));
        }
    }
    keys.unique_seq_to_set();
}

/// What is read back under a name is what was last stored under it, and
/// storing under one name leaves every other name as it was.
pub proof fn law_read_after_write(m: Map<Seq<char>, Seq<u8>>, name: Seq<char>, data: Seq<u8>, other: Seq<char>)
    requires
        other != name,
    ensures
        m.insert(name, data).contains_key(name) && m.insert(name, data)[name] == data,
        m.insert(name, data).contains_key(other) == m.contains_key(other),
        m.contains_key(other) ==> m.insert(name, data)[other] == m[other],
{
}

} // verus!
