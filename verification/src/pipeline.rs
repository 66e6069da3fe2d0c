use vstd::prelude::*;
use crate::bignat::BigNat;
use crate::cache::{
    Cache, lookup_model, insert_model, model_keys_distinct, lemma_lookup_some_iff,
    lemma_lookup_push,
};
use crate::codec::{
    spec_parse, spec_ser, sp_entries, sp_entry, ser_prefix, parse_cache, serialize,
    lemma_parse_ser,
};
use crate::factorial::{fact, compute};

verus! {

/// The view of optional store contents.
pub open spec fn contents_view(contents: Option<&Vec<u8>>) -> Option<Seq<u8>> {
    match contents {
        Some(v) => Some(v@),
        None => None,
    }
}

/// The entries a load sees: the parsed contents, or no entries when the
/// store is absent or does not parse.
pub open spec fn spec_load(store: Option<Seq<u8>>) -> Seq<(u64, nat)> {
    match store {
        Some(s) => match spec_parse(s) {
            Some(m) => m,
            None => Seq::empty(),
        },
        None => Seq::empty(),
    }
}

/// Appending an entry under a fresh key keeps keys pairwise distinct.
pub proof fn lemma_push_distinct(m: Seq<(u64, nat)>, e: (u64, nat))
    requires
        model_keys_distinct(m),
        lookup_model(m, e.0) is None,
    ensures
        model_keys_distinct(m.push(e)),
{
    lemma_lookup_some_iff(m, e.0);
    assert forall|q1: int, q2: int|
        0 <= q1 < q2 < m.push(e).len() implies m.push(e)[q1].0 != m.push(e)[q2].0 by {
        if q2 < m.len() {
            assert(m[q1].0 != m[q2].0);
        } else {
            assert(m.push(e)[q2] == e);
            assert(m.push(e)[q1] == m[q1]);
            if m[q1].0 == e.0 {
                assert(0 <= q1 < m.len() && m[q1].0 == e.0);
                assert(false);
            }
        }
    }
}

/// Parsed entry lists carry pairwise distinct keys.
pub proof fn lemma_sp_entries_distinct(s: Seq<u8>, i: int, acc: Seq<(u64, nat)>)
    requires
        model_keys_distinct(acc),
    ensures
        match sp_entries(s, i, acc) {
            Some(t) => model_keys_distinct(t.0),
            None => true,
        },
    decreases s.len() - i,
{
    match sp_entry(s, i) {
        Some((k, v, j)) => {
            if lookup_model(acc, k) is Some {
            } else {
                lemma_push_distinct(acc, (k, v));
                if j < s.len() && s[j] == 44 {
                    if i < j {
                        lemma_sp_entries_distinct(s, j + 1, acc.push((k, v)));
                    }
                }
            }
        },
        None => {},
    }
}

/// Whatever a load sees has pairwise distinct keys.
pub proof fn lemma_load_distinct(store: Option<Seq<u8>>)
    ensures
        model_keys_distinct(spec_load(store)),
{
    match store {
        Some(s) => {
            if s.len() >= 11 && s.take(9) == ser_prefix() {
                if s[9] == 125 {
                } else {
                    lemma_sp_entries_distinct(s, 9, Seq::<(u64, nat)>::empty());
                }
            }
        },
        None => {},
    }
}

/// Whether the store already holds an entry for `n`.
pub open spec fn spec_hit(store: Option<Seq<u8>>, n: u64) -> bool {
    lookup_model(spec_load(store), n) is Some
}

/// The value a request for `n` returns against the given store contents.
pub open spec fn spec_result(store: Option<Seq<u8>>, n: u64) -> nat {
    match lookup_model(spec_load(store), n) {
        Some(v) => v,
        None => fact(n as nat),
    }
}

/// The contents written back by a request for `n`: nothing on a hit, the
/// merged cache with the one new entry on a miss.
pub open spec fn spec_new_contents(store: Option<Seq<u8>>, n: u64) -> Option<Seq<u8>> {
    if spec_hit(store, n) {
        None
    } else {
        Some(spec_ser(insert_model(spec_load(store), n, fact(n as nat))))
    }
}

/// The store contents after a request: unchanged on a hit.
pub open spec fn spec_after(store: Option<Seq<u8>>, n: u64) -> Option<Seq<u8>> {
    match spec_new_contents(store, n) {
        Some(s) => Some(s),
        None => store,
    }
}

/// Reads the cache out of the store contents. Absent contents and contents
/// that do not parse both give the empty cache; nothing fails.
pub fn load_from_contents(contents: Option<&Vec<u8>>) -> (c: Cache)
    ensures
        c.wf(),
        c@ == spec_load(contents_view(contents)),
{
    match contents {
        None => Cache::empty(),
        Some(v) => match parse_cache(v) {
            Some(c) => c,
            None => Cache::empty(),
        },
    }
}

/// Answers a request for the factorial of `n` against the given store
/// contents: the stored value on a hit, with nothing written; on a miss the
/// computed factorial, with new store contents that hold every old entry
/// and the one new entry. The store is loaded afresh for the write, as it
/// is for the lookup.
pub fn get_or_compute(contents: Option<&Vec<u8>>, n: u64) -> (r: (BigNat, Option<Vec<u8>>))
    ensures
        r.0.wf(),
        r.0@ == spec_result(contents_view(contents), n),
        match r.1 {
            Some(out) => spec_new_contents(contents_view(contents), n) == Some(out@),
            None => spec_new_contents(contents_view(contents), n) is None,
        },
{
    let cache1 = load_from_contents(contents);
    match cache1.get(n) {
        Some(v) => (v, None),
        None => {
            let result = compute(n);
            let mut cache2 = load_from_contents(contents);
            cache2.insert(n, result.duplicate());
            let out = serialize(&cache2);
            (result, Some(out))
        },
    }
}

/// Saving a cache and loading it back gives exactly the saved entries.
pub proof fn lemma_load_of_save(m: Seq<(u64, nat)>)
    requires
        model_keys_distinct(m),
    ensures
        spec_load(Some(spec_ser(m))) == m,
{
    lemma_parse_ser(m);
}

/// A miss appends exactly the requested entry: every existing entry is
/// still in the store afterwards, followed by the new one.
pub proof fn lemma_miss_appends(store: Option<Seq<u8>>, n: u64)
    requires
        !spec_hit(store, n),
    ensures
        spec_load(spec_after(store, n)) == spec_load(store).push((n, fact(n as nat))),
{
    let l = spec_load(store);
    let e = (n, fact(n as nat));
    lemma_load_distinct(store);
    assert(insert_model(l, n, fact(n as nat)) == l.push(e));
    lemma_push_distinct(l, e);
    lemma_parse_ser(l.push(e));
}

/// A repeated request for the same input returns the same value both times
/// and the second request writes nothing back.
pub proof fn lemma_repeat_request(store: Option<Seq<u8>>, n: u64)
    ensures
        spec_result(spec_after(store, n), n) == spec_result(store, n),
        spec_new_contents(spec_after(store, n), n) is None,
{
    if spec_hit(store, n) {
    } else {
        let l = spec_load(store);
        let e = (n, fact(n as nat));
        lemma_miss_appends(store, n);
        lemma_lookup_push(l, e, n);
        assert(lookup_model(spec_load(spec_after(store, n)), n) == Some(fact(n as nat)));
    }
}

/// From an absent store, a request computes the factorial and writes a
/// store that holds exactly the one requested entry.
pub proof fn lemma_cold_start(n: u64)
    ensures
        spec_load(None) == Seq::<(u64, nat)>::empty(),
        spec_result(None, n) == fact(n as nat),
        spec_after(None, n) == Some(spec_ser(seq![(n, fact(n as nat))])),
        spec_load(spec_after(None, n)) == seq![(n, fact(n as nat))],
{
    lemma_miss_appends(None, n);
    assert(Seq::<(u64, nat)>::empty().push((n, fact(n as nat))) =~= seq![(n, fact(n as nat))]);
}

/// Contents that do not parse are treated like an absent store: the request
/// still succeeds and writes a valid store with the one requested entry;
/// the unparseable contents are discarded, not merged.
pub proof fn lemma_corrupt_recovered(s: Seq<u8>, n: u64)
    requires
        spec_parse(s) is None,
    ensures
        spec_load(Some(s)) == Seq::<(u64, nat)>::empty(),
        spec_result(Some(s), n) == fact(n as nat),
        spec_after(Some(s), n) == Some(spec_ser(seq![(n, fact(n as nat))])),
        spec_load(spec_after(Some(s), n)) == seq![(n, fact(n as nat))],
{
    lemma_miss_appends(Some(s), n);
    assert(Seq::<(u64, nat)>::empty().push((n, fact(n as nat))) =~= seq![(n, fact(n as nat))]);
}

/// One request never shrinks the store.
pub proof fn lemma_entry_count_step(store: Option<Seq<u8>>, n: u64)
    ensures
        spec_load(spec_after(store, n)).len() >= spec_load(store).len(),
{
    if !spec_hit(store, n) {
        lemma_miss_appends(store, n);
    }
}

/// Every stored entry is the factorial of its key.
pub open spec fn all_factorials(m: Seq<(u64, nat)>) -> bool {
    forall|i: int| 0 <= i < m.len() ==> #[trigger] m[i].1 == fact(m[i].0 as nat)
}

/// A store whose entries are all factorials keeps that invariant across a
/// request, and the value returned for `n` is then exactly the factorial
/// of `n` — on a hit just as on a miss.
pub proof fn lemma_values_are_factorials(store: Option<Seq<u8>>, n: u64)
    requires
        all_factorials(spec_load(store)),
    ensures
        all_factorials(spec_load(spec_after(store, n))),
        spec_result(store, n) == fact(n as nat),
{
    let l = spec_load(store);
    if spec_hit(store, n) {
        crate::cache::lemma_lookup_value(l, n);
        match lookup_model(l, n) {
            Some(v) => {
                let i = choose|i: int| 0 <= i < l.len() && l[i] == (n, v);
                assert(l[i].1 == fact(l[i].0 as nat));
            },
            None => {},
        }
    } else {
        lemma_miss_appends(store, n);
        let l2 = spec_load(spec_after(store, n));
        assert forall|i: int| 0 <= i < l2.len() implies #[trigger] l2[i].1 == fact(
            l2[i].0 as nat,
        ) by {
            if i < l.len() {
                assert(l2[i] == l[i]);
            } else {
                assert(l2[i] == (n, fact(n as nat)));
            }
        }
    }
}

/// The store contents after a whole sequence of requests.
pub open spec fn spec_run(store: Option<Seq<u8>>, requests: Seq<u64>) -> Option<Seq<u8>>
    decreases requests.len(),
{
    if requests.len() == 0 {
        store
    } else {
        spec_run(spec_after(store, requests[0]), requests.drop_first())
    }
}

/// Starting from an absent store, every store a sequence of requests can
/// produce holds only factorial entries.
pub proof fn lemma_run_integrity(store: Option<Seq<u8>>, requests: Seq<u64>)
    requires
        all_factorials(spec_load(store)),
    ensures
        all_factorials(spec_load(spec_run(store, requests))),
    decreases requests.len(),
{
    if requests.len() == 0 {
    } else {
        lemma_values_are_factorials(store, requests[0]);
        lemma_run_integrity(spec_after(store, requests[0]), requests.drop_first());
    }
}

/// The number of stored entries never decreases across any sequence of
/// requests.
pub proof fn lemma_entry_count_monotonic(store: Option<Seq<u8>>, requests: Seq<u64>)
    ensures
        spec_load(spec_run(store, requests)).len() >= spec_load(store).len(),
    decreases requests.len(),
{
    if requests.len() == 0 {
    } else {
        lemma_entry_count_step(store, requests[0]);
        lemma_entry_count_monotonic(spec_after(store, requests[0]), requests.drop_first());
    }
}

} // verus!
