use vstd::prelude::*;
use crate::bignat::{BigNat, digits_val, digits_wf};

verus! {

/// The mathematical content of a sequence of cache entries: each stored
/// number replaced by the value it denotes.
pub open spec fn entries_model(es: Seq<(u64, BigNat)>) -> Seq<(u64, nat)> {
    es.map_values(|e: (u64, BigNat)| (e.0, digits_val(e.1.digits@)))
}

/// The value stored under key `k`, scanning the entries from the front.
pub open spec fn lookup_model(m: Seq<(u64, nat)>, k: u64) -> Option<nat>
    decreases m.len(),
{
    if m.len() == 0 {
        None
    } else if m[0].0 == k {
        Some(m[0].1)
    } else {
        lookup_model(m.drop_first(), k)
    }
}

/// At most one entry per key.
pub open spec fn model_keys_distinct(m: Seq<(u64, nat)>) -> bool {
    forall|i: int, j: int| 0 <= i < j < m.len() ==> m[i].0 != m[j].0
}

/// A key is found exactly when some entry carries it.
pub proof fn lemma_lookup_some_iff(m: Seq<(u64, nat)>, k: u64)
    ensures
        (lookup_model(m, k) is Some) <==> exists|i: int| 0 <= i < m.len() && m[i].0 == k,
    decreases m.len(),
{
    if m.len() == 0 {
    } else if m[0].0 == k {
        assert(0 <= 0 < m.len() && m[0].0 == k);
    } else {
        lemma_lookup_some_iff(m.drop_first(), k);
        if lookup_model(m, k) is Some {
            assert(lookup_model(m.drop_first(), k) is Some);
            let i = choose|i: int| 0 <= i < m.drop_first().len() && m.drop_first()[i].0 == k;
            assert(m[i + 1] == m.drop_first()[i]);
            assert(0 <= i + 1 < m.len() && m[i + 1].0 == k);
        }
        if exists|i: int| 0 <= i < m.len() && m[i].0 == k {
            let i = choose|i: int| 0 <= i < m.len() && m[i].0 == k;
            assert(i != 0);
            assert(m.drop_first()[i - 1] == m[i]);
            assert(0 <= i - 1 < m.drop_first().len() && m.drop_first()[i - 1].0 == k);
            assert(lookup_model(m.drop_first(), k) is Some);
        }
    }
}

/// A found key names the value of some entry carrying that key.
pub proof fn lemma_lookup_value(m: Seq<(u64, nat)>, k: u64)
    ensures
        match lookup_model(m, k) {
            Some(v) => exists|i: int| 0 <= i < m.len() && m[i] == (k, v),
            None => true,
        },
    decreases m.len(),
{
    if m.len() == 0 {
    } else if m[0].0 == k {
        assert(m[0] == (k, m[0].1));
        assert(0 <= 0 < m.len() && m[0] == (k, m[0].1));
    } else {
        lemma_lookup_value(m.drop_first(), k);
        match lookup_model(m, k) {
            Some(v) => {
                let i = choose|i: int| 0 <= i < m.drop_first().len() && m.drop_first()[i] == (
                    k,
                    v,
                );
                assert(m[i + 1] == m.drop_first()[i]);
                assert(0 <= i + 1 < m.len() && m[i + 1] == (k, v));
            },
            None => {},
        }
    }
}

/// Looking a key up after appending an entry.
pub proof fn lemma_lookup_push(m: Seq<(u64, nat)>, e: (u64, nat), k: u64)
    ensures
        lookup_model(m.push(e), k) == (if lookup_model(m, k) is Some {
            lookup_model(m, k)
        } else if e.0 == k {
            Some(e.1)
        } else {
            None::<nat>
        }),
    decreases m.len(),
{
    if m.len() == 0 {
        assert(m.push(e).drop_first() =~= Seq::<(u64, nat)>::empty());
        assert(m.push(e)[0] == e);
        assert(lookup_model(m, k) is None);
        if e.0 == k {
            assert(lookup_model(m.push(e), k) == Some(e.1));
        } else {
            assert(lookup_model(m.push(e), k) == lookup_model(Seq::<(u64, nat)>::empty(), k));
            assert(lookup_model(m.push(e), k) is None);
        }
    } else {
        assert(m.push(e).drop_first() =~= m.drop_first().push(e));
        assert(m.push(e)[0] == m[0]);
        lemma_lookup_push(m.drop_first(), e, k);
        if m[0].0 == k {
            assert(lookup_model(m.push(e), k) == Some(m[0].1));
            assert(lookup_model(m, k) == Some(m[0].1));
        } else {
            assert(lookup_model(m.push(e), k) == lookup_model(m.drop_first().push(e), k));
            assert(lookup_model(m, k) == lookup_model(m.drop_first(), k));
        }
    }
}

/// Inserting `v` under `k`: the entry for `k` is overwritten when present,
/// appended otherwise; all other entries are untouched.
pub open spec fn insert_model(m: Seq<(u64, nat)>, k: u64, v: nat) -> Seq<(u64, nat)> {
    if lookup_model(m, k) is Some {
        m.map_values(|e: (u64, nat)| if e.0 == k { (k, v) } else { e })
    } else {
        m.push((k, v))
    }
}

/// The position of the entry with key `k`, when there is one.
pub(crate) fn find_key(es: &Vec<(u64, BigNat)>, k: u64) -> (r: Option<usize>)
    ensures
        match r {
            Some(ix) => {
                &&& ix < es@.len()
                &&& es@[ix as int].0 == k
                &&& forall|j: int| 0 <= j < ix ==> es@[j].0 != k
                &&& lookup_model(entries_model(es@), k)
                    == Some(digits_val(es@[ix as int].1.digits@))
            },
            None => {
                &&& lookup_model(entries_model(es@), k) is None
                &&& forall|j: int| 0 <= j < es@.len() ==> es@[j].0 != k
            },
        },
{
    let ghost m = entries_model(es@);
    proof {
        assert(m.skip(0) =~= m);
    }
    let mut i: usize = 0;
    while i < es.len()
        invariant
            i <= es@.len(),
            lookup_model(m, k) == lookup_model(m.skip(i as int), k),
            forall|j: int| 0 <= j < i ==> es@[j].0 != k,
        decreases es@.len() - i,
    {
        proof {
            assert(m.skip(i as int)[0] == m[i as int]);
        }
        if es[i].0 == k {
            return Some(i);
        }
        proof {
            assert(m.skip(i as int).drop_first() =~= m.skip(i + 1));
        }
        i = i + 1;
    }
    proof {
        assert(m.skip(es@.len() as int) =~= Seq::<(u64, nat)>::empty());
    }
    None
}

/// The memoization table: a list of entries with pairwise distinct keys,
/// each holding the number stored for that key.
pub struct Cache {
    pub entries: Vec<(u64, BigNat)>,
}

impl View for Cache {
    type V = Seq<(u64, nat)>;

    open spec fn view(&self) -> Seq<(u64, nat)> {
        entries_model(self.entries@)
    }
}

impl Cache {
    /// Keys are pairwise distinct and every stored number is canonical.
    pub open spec fn wf(&self) -> bool {
        &&& model_keys_distinct(self@)
        &&& forall|i: int| 0 <= i < self.entries@.len() ==> digits_wf(self.entries@[i].1.digits@)
    }

    pub fn empty() -> (c: Cache)
        ensures
            c.wf(),
            c@ == Seq::<(u64, nat)>::empty(),
    {
        let c = Cache { entries: Vec::new() };
        proof {
            assert(c@ =~= Seq::<(u64, nat)>::empty());
        }
        c
    }

    pub fn len(&self) -> (n: usize)
        ensures
            n == self@.len(),
    {
        self.entries.len()
    }

    /// The value stored under `k`, when the key is present.
    pub fn get(&self, k: u64) -> (r: Option<BigNat>)
        requires
            self.wf(),
        ensures
            match r {
                Some(v) => v.wf() && lookup_model(self@, k) == Some(v@),
                None => lookup_model(self@, k) is None,
            },
    {
        match find_key(&self.entries, k) {
            Some(ix) => Some(self.entries[ix].1.duplicate()),
            None => None,
        }
    }

    /// Stores `v` under `k`: the last write for a key wins, and every other
    /// entry is kept. The entry count never shrinks.
    pub fn insert(&mut self, k: u64, v: BigNat)
        requires
            old(self).wf(),
            v.wf(),
        ensures
            final(self).wf(),
            final(self)@ == insert_model(old(self)@, k, v@),
            final(self)@.len() >= old(self)@.len(),
            lookup_model(old(self)@, k) is None ==> final(self)@ == old(self)@.push((k, v@)),
    {
        match find_key(&self.entries, k) {
            Some(ix) => {
                self.entries.remove(ix);
                self.entries.insert(ix, (k, v));
                proof {
                    assert(self.entries@ =~= old(self).entries@.update(ix as int, (k, v)));
                    assert forall|j: int| 0 <= j < old(self)@.len() && j != ix ==> #[trigger] old(
                        self,
                    )@[j].0 != k by {
                        if 0 <= j < old(self)@.len() && j != ix {
                            if j < ix {
                                assert(old(self)@[j].0 != old(self)@[ix as int].0);
                            } else {
                                assert(old(self)@[ix as int].0 != old(self)@[j].0);
                            }
                        }
                    }
                    assert(self@ =~= insert_model(old(self)@, k, v@));
                    assert(forall|j: int| 0 <= j < self@.len() ==> self@[j].0 == old(self)@[j].0);
                }
            },
            None => {
                self.entries.push((k, v));
                proof {
                    assert(self@ =~= old(self)@.push((k, v@)));
                }
            },
        }
    }
}

} // verus!
