use vstd::prelude::*;
use vstd::arithmetic::div_mod::lemma_fundamental_div_mod_converse;
use crate::bignat::{BigNat, digits_val, digits_wf, pow10, lemma_val_push};
use crate::cache::{Cache, lookup_model, model_keys_distinct, entries_model, lemma_lookup_some_iff};

verus! {

/// ASCII code of the digit `d`.
pub open spec fn digit_byte(d: nat) -> u8 {
    (48 + d % 10) as u8
}

pub open spec fn is_digit_byte(b: u8) -> bool {
    48 <= b <= 57
}

/// The ASCII bytes of the canonical decimal representation of `n`:
/// most significant digit first, no leading zero, a single `0` for zero.
pub open spec fn dec_bytes(n: nat) -> Seq<u8>
    decreases n,
{
    if n < 10 {
        seq![digit_byte(n)]
    } else {
        dec_bytes(n / 10).push(digit_byte(n % 10))
    }
}

/// The number denoted by a most-significant-first sequence of ASCII digits.
pub open spec fn text_val(t: Seq<u8>) -> nat
    decreases t.len(),
{
    if t.len() == 0 {
        0
    } else {
        text_val(t.drop_last()) * 10 + ((t.last() - 48) as nat)
    }
}

/// The ASCII text of a little-endian digit sequence: the digits reversed,
/// each moved into the ASCII digit range.
pub open spec fn rev_text(s: Seq<u8>) -> Seq<u8>
    decreases s.len(),
{
    if s.len() == 0 {
        Seq::empty()
    } else {
        rev_text(s.drop_first()) + seq![(s[0] + 48) as u8]
    }
}

/// Canonical decimal text consists of digits and never starts with a
/// redundant zero.
pub proof fn lemma_dec_bytes_shape(n: nat)
    ensures
        dec_bytes(n).len() >= 1,
        forall|i: int| 0 <= i < dec_bytes(n).len() ==> is_digit_byte(#[trigger] dec_bytes(n)[i]),
        n >= 1 ==> dec_bytes(n)[0] != 48,
        n == 0 ==> dec_bytes(n) =~= seq![48u8],
    decreases n,
{
    if n < 10 {
        assert(dec_bytes(n) == seq![digit_byte(n)]);
        assert(digit_byte(n) == 48 + n);
    } else {
        lemma_dec_bytes_shape(n / 10);
        assert(n / 10 >= 1);
        assert(dec_bytes(n) == dec_bytes(n / 10).push(digit_byte(n % 10)));
        assert(dec_bytes(n)[0] == dec_bytes(n / 10)[0]);
        assert(forall|i: int| 0 <= i < dec_bytes(n / 10).len()
            ==> dec_bytes(n)[i] == #[trigger] dec_bytes(n / 10)[i]);
        assert(is_digit_byte(digit_byte(n % 10)));
    }
}

/// Reading canonical decimal text back gives the number it was made from.
pub proof fn lemma_text_val_dec(n: nat)
    ensures
        text_val(dec_bytes(n)) == n,
    decreases n,
{
    if n < 10 {
        let t = dec_bytes(n);
        assert(t.drop_last() =~= Seq::<u8>::empty());
        assert(text_val(t) == text_val(Seq::<u8>::empty()) * 10 + ((t.last() - 48) as nat));
        assert(text_val(Seq::<u8>::empty()) == 0);
        assert(t.last() == digit_byte(n));
        assert(digit_byte(n) == 48 + n);
    } else {
        lemma_text_val_dec(n / 10);
        let t = dec_bytes(n);
        assert(t.drop_last() =~= dec_bytes(n / 10));
        assert(t.last() == digit_byte(n % 10));
        assert((t.last() - 48) as nat == n % 10);
        assert(text_val(t) == (n / 10) * 10 + n % 10);
        assert((n / 10) * 10 + n % 10 == n) by {
            vstd::arithmetic::div_mod::lemma_fundamental_div_mod(n as int, 10);
        }
    }
}

/// Peeling the most significant digit off a digit text.
pub proof fn lemma_text_val_front(t: Seq<u8>)
    requires
        t.len() >= 1,
        forall|i: int| 0 <= i < t.len() ==> is_digit_byte(#[trigger] t[i]),
    ensures
        text_val(t) == ((t[0] - 48) as nat) * pow10((t.len() - 1) as nat)
            + text_val(t.drop_first()),
    decreases t.len(),
{
    if t.len() == 1 {
        assert(t.drop_last() =~= Seq::<u8>::empty());
        assert(t.drop_first() =~= Seq::<u8>::empty());
        assert(text_val(t) == text_val(Seq::<u8>::empty()) * 10 + ((t.last() - 48) as nat));
        assert(pow10(0) == 1);
        assert(((t[0] - 48) as nat) * 1 == ((t[0] - 48) as nat));
    } else {
        let dl = t.drop_last();
        lemma_text_val_front(dl);
        assert(dl[0] == t[0]);
        assert(dl.drop_first() =~= t.drop_first().drop_last());
        let d0: nat = (t[0] - 48) as nat;
        let p: nat = pow10((dl.len() - 1) as nat);
        assert(text_val(dl) == d0 * p + text_val(t.drop_first().drop_last()));
        assert(text_val(t) == text_val(dl) * 10 + ((t.last() - 48) as nat));
        assert((d0 * p + text_val(t.drop_first().drop_last())) * 10
            == d0 * (10 * p) + text_val(t.drop_first().drop_last()) * 10) by (nonlinear_arith);
        assert(pow10((t.len() - 1) as nat) == 10 * p);
        assert(t.drop_first().last() == t.last());
        assert(text_val(t.drop_first())
            == text_val(t.drop_first().drop_last()) * 10 + ((t.last() - 48) as nat));
    }
}

/// A canonical nonzero digit sequence denotes a positive number.
pub proof fn lemma_val_pos(s: Seq<u8>)
    requires
        digits_wf(s),
        s.len() >= 1,
    ensures
        digits_val(s) >= 1,
    decreases s.len(),
{
    if s.len() == 1 {
        assert(digits_val(s) == s[0] as nat + 10 * digits_val(s.drop_first()));
    } else {
        let t = s.drop_first();
        assert(digits_wf(t));
        lemma_val_pos(t);
        assert(digits_val(s) == s[0] as nat + 10 * digits_val(t));
    }
}

/// The ASCII text of a canonical nonzero digit sequence is the canonical
/// decimal representation of its value.
pub proof fn lemma_rev_text_dec(s: Seq<u8>)
    requires
        digits_wf(s),
        s.len() >= 1,
    ensures
        rev_text(s) == dec_bytes(digits_val(s)),
    decreases s.len(),
{
    let v = digits_val(s);
    if s.len() == 1 {
        assert(s.drop_first() =~= Seq::<u8>::empty());
        assert(v == s[0] as nat + 10 * digits_val(Seq::<u8>::empty()));
        assert(v == s[0] as nat);
        assert(v < 10);
        assert(rev_text(Seq::<u8>::empty()) =~= Seq::<u8>::empty());
        assert(rev_text(s.drop_first()) =~= Seq::<u8>::empty());
        assert(rev_text(s) =~= seq![(s[0] + 48) as u8]);
        assert(dec_bytes(v) == seq![digit_byte(v)]);
        assert(digit_byte(v) == (48 + v) as u8);
        assert(rev_text(s) =~= dec_bytes(v));
    } else {
        let t = s.drop_first();
        assert(digits_wf(t));
        lemma_rev_text_dec(t);
        lemma_val_pos(t);
        let vt = digits_val(t);
        assert(v == s[0] as nat + 10 * vt);
        assert(v >= 10);
        lemma_fundamental_div_mod_converse(v as int, 10, vt as int, s[0] as int);
        assert(v / 10 == vt);
        assert(v % 10 == s[0] as nat);
        assert(dec_bytes(v) == dec_bytes(vt).push(digit_byte(v % 10)));
        assert(digit_byte(v % 10) == (s[0] + 48) as u8);
        assert(rev_text(s) == rev_text(t) + seq![(s[0] + 48) as u8]);
        assert(rev_text(t) + seq![(s[0] + 48) as u8] =~= rev_text(t).push((s[0] + 48) as u8));
        assert(rev_text(s) =~= dec_bytes(v));
    }
}

/// The canonical decimal text of a stored number, zero included.
pub proof fn lemma_digits_text(s: Seq<u8>)
    requires
        digits_wf(s),
    ensures
        (if s.len() == 0 { seq![48u8] } else { rev_text(s) }) == dec_bytes(digits_val(s)),
{
    if s.len() == 0 {
        assert(digits_val(s) == 0);
        assert(dec_bytes(0) == seq![digit_byte(0)]);
        assert(digit_byte(0) == 48u8);
        assert(seq![48u8] =~= dec_bytes(0));
    } else {
        lemma_rev_text_dec(s);
    }
}

/// Appends the canonical decimal text of `v` to `out`.
pub fn push_decimal(out: &mut Vec<u8>, v: &BigNat)
    requires
        v.wf(),
    ensures
        final(out)@ == old(out)@ + dec_bytes(v@),
{
    let ghost base: Seq<u8> = out@;
    if v.digits.len() == 0 {
        out.push(48);
        proof {
            lemma_digits_text(v.digits@);
            assert(out@ =~= base + dec_bytes(v@));
        }
        return ;
    }
    let mut j: usize = v.digits.len();
    proof {
        assert(v.digits@.skip(j as int) =~= Seq::<u8>::empty());
        assert(out@ =~= base + rev_text(v.digits@.skip(j as int)));
    }
    while j > 0
        invariant
            j <= v.digits@.len(),
            out@ == base + rev_text(v.digits@.skip(j as int)),
        decreases j,
    {
        j = j - 1;
        let d: u8 = v.digits[j];
        out.push(d + 48);
        proof {
            assert(v.digits@.skip(j as int).drop_first() =~= v.digits@.skip(j + 1));
            assert(v.digits@.skip(j as int)[0] == v.digits@[j as int]);
            assert(rev_text(v.digits@.skip(j as int))
                == rev_text(v.digits@.skip(j + 1)) + seq![(d + 48) as u8]);
            assert(out@ =~= base + rev_text(v.digits@.skip(j as int)));
        }
    }
    proof {
        assert(v.digits@.skip(0) =~= v.digits@);
        lemma_digits_text(v.digits@);
    }
}

/// Appends the canonical decimal text of `k` to `out`.
pub fn push_u64_decimal(out: &mut Vec<u8>, k: u64)
    ensures
        final(out)@ == old(out)@ + dec_bytes(k as nat),
{
    let v = BigNat::from_u64(k);
    push_decimal(out, &v);
}

/// The canonical decimal text of a stored number, as bytes.
pub fn decimal_bytes(v: &BigNat) -> (out: Vec<u8>)
    requires
        v.wf(),
    ensures
        out@ == dec_bytes(v@),
{
    let mut out: Vec<u8> = Vec::new();
    push_decimal(&mut out, v);
    proof {
        assert(Seq::<u8>::empty() + dec_bytes(v@) =~= dec_bytes(v@));
    }
    out
}

/// The serialized form of one entry: the key and the value, each in quotes,
/// separated by a colon.
pub open spec fn ser_entry(e: (u64, nat)) -> Seq<u8> {
    seq![34u8] + dec_bytes(e.0 as nat) + seq![34u8, 58u8, 34u8] + dec_bytes(e.1) + seq![34u8]
}

/// The serialized entry list, entries separated by commas.
pub open spec fn ser_entries(m: Seq<(u64, nat)>) -> Seq<u8>
    decreases m.len(),
{
    if m.len() == 0 {
        Seq::empty()
    } else if m.len() == 1 {
        ser_entry(m[0])
    } else {
        ser_entries(m.drop_last()) + seq![44u8] + ser_entry(m.last())
    }
}

/// The opening of the serialized cache object, up to the inner brace.
pub open spec fn ser_prefix() -> Seq<u8> {
    seq![123u8, 34u8, 100u8, 97u8, 116u8, 97u8, 34u8, 58u8, 123u8]
}

/// The full serialized cache: a data object holding one member per entry.
pub open spec fn spec_ser(m: Seq<(u64, nat)>) -> Seq<u8> {
    ser_prefix() + ser_entries(m) + seq![125u8, 125u8]
}

/// Serializes the cache to its canonical textual form.
pub fn serialize(c: &Cache) -> (out: Vec<u8>)
    requires
        c.wf(),
    ensures
        out@ == spec_ser(c@),
{
    let mut out: Vec<u8> = Vec::new();
    out.push(123);
    out.push(34);
    out.push(100);
    out.push(97);
    out.push(116);
    out.push(97);
    out.push(34);
    out.push(58);
    out.push(123);
    proof {
        assert(out@ =~= ser_prefix());
        assert(c@.take(0) =~= Seq::<(u64, nat)>::empty());
        assert(ser_entries(Seq::<(u64, nat)>::empty()) =~= Seq::<u8>::empty());
        assert(out@ =~= ser_prefix() + ser_entries(c@.take(0)));
    }
    let mut i: usize = 0;
    while i < c.entries.len()
        invariant
            i <= c.entries@.len(),
            out@ == ser_prefix() + ser_entries(c@.take(i as int)),
        decreases c.entries@.len() - i,
    {
        if i > 0 {
            out.push(44);
        }
        out.push(34);
        push_u64_decimal(&mut out, c.entries[i].0);
        out.push(34);
        out.push(58);
        out.push(34);
        push_decimal(&mut out, &c.entries[i].1);
        out.push(34);
        proof {
            let e = c@[i as int];
            assert(e == (c.entries@[i as int].0, digits_val(c.entries@[i as int].1.digits@)));
            if i == 0 {
                assert(c@.take(1).len() == 1);
                assert(c@.take(1)[0] == e);
                assert(ser_entries(c@.take(1)) == ser_entry(e));
                assert(out@ =~= ser_prefix() + ser_entries(c@.take(i + 1)));
            } else {
                assert(c@.take(i + 1).drop_last() =~= c@.take(i as int));
                assert(c@.take(i + 1).last() == e);
                assert(c@.take(i + 1).len() >= 2);
                assert(ser_entries(c@.take(i + 1)) == ser_entries(c@.take(i as int)) + seq![44u8]
                    + ser_entry(e));
                assert(out@ =~= ser_prefix() + ser_entries(c@.take(i + 1)));
            }
        }
        i = i + 1;
    }
    out.push(125);
    out.push(125);
    proof {
        assert(c@.take(c@.len() as int) =~= c@);
        assert(out@ =~= spec_ser(c@));
    }
    out
}

/// 10^n is positive.
pub proof fn lemma_pow10_pos(n: nat)
    ensures
        pow10(n) >= 1,
    decreases n,
{
    if n > 0 {
        lemma_pow10_pos((n - 1) as nat);
    }
}

/// Greedily reads digits into a machine-word key, failing on overflow.
pub open spec fn sp_key_rest(s: Seq<u8>, i: int, acc: u64) -> Option<(u64, int)>
    decreases s.len() - i,
{
    if 0 <= i < s.len() && is_digit_byte(s[i]) {
        if acc as nat * 10 + ((s[i] - 48) as nat) <= u64::MAX as nat {
            sp_key_rest(s, i + 1, (acc * 10 + (s[i] - 48)) as u64)
        } else {
            None
        }
    } else {
        Some((acc, i))
    }
}

/// A canonical key: digits without a redundant leading zero, fitting a
/// machine word.
pub open spec fn sp_key(s: Seq<u8>, i: int) -> Option<(u64, int)> {
    if 0 <= i < s.len() && is_digit_byte(s[i]) {
        if s[i] == 48 {
            if i + 1 < s.len() && is_digit_byte(s[i + 1]) {
                None
            } else {
                Some((0, i + 1))
            }
        } else {
            sp_key_rest(s, i, 0)
        }
    } else {
        None
    }
}

/// Greedily reads digits into an unbounded value.
pub open spec fn sp_val_rest(s: Seq<u8>, i: int, acc: nat) -> (nat, int)
    decreases s.len() - i,
{
    if 0 <= i < s.len() && is_digit_byte(s[i]) {
        sp_val_rest(s, i + 1, acc * 10 + ((s[i] - 48) as nat))
    } else {
        (acc, i)
    }
}

/// A canonical value: digits without a redundant leading zero.
pub open spec fn sp_val(s: Seq<u8>, i: int) -> Option<(nat, int)> {
    if 0 <= i < s.len() && is_digit_byte(s[i]) {
        if s[i] == 48 {
            if i + 1 < s.len() && is_digit_byte(s[i + 1]) {
                None
            } else {
                Some((0, i + 1))
            }
        } else {
            Some(sp_val_rest(s, i, 0))
        }
    } else {
        None
    }
}

/// One entry: a quoted key, a colon, and a quoted value.
pub open spec fn sp_entry(s: Seq<u8>, i: int) -> Option<(u64, nat, int)> {
    if 0 <= i < s.len() && s[i] == 34 {
        match sp_key(s, i + 1) {
            Some((k, j)) => if j + 2 < s.len() && s[j] == 34 && s[j + 1] == 58 && s[j + 2] == 34 {
                match sp_val(s, j + 3) {
                    Some((v, j2)) => if j2 < s.len() && s[j2] == 34 {
                        Some((k, v, j2 + 1))
                    } else {
                        None
                    },
                    None => None,
                }
            } else {
                None
            },
            None => None,
        }
    } else {
        None
    }
}

/// The entry list of the data object, up to and including its closing
/// brace. A key that repeats an earlier one is refused.
pub open spec fn sp_entries(s: Seq<u8>, i: int, acc: Seq<(u64, nat)>) -> Option<
    (Seq<(u64, nat)>, int),
>
    decreases s.len() - i,
{
    match sp_entry(s, i) {
        Some((k, v, j)) => if lookup_model(acc, k) is Some {
            None
        } else {
            if j < s.len() && s[j] == 44 {
                if i < j {
                    sp_entries(s, j + 1, acc.push((k, v)))
                } else {
                    None
                }
            } else if j < s.len() && s[j] == 125 {
                Some((acc.push((k, v)), j + 1))
            } else {
                None
            }
        },
        None => None,
    }
}

/// The whole store text: the entries, exactly when the text is a canonical
/// serialization.
pub open spec fn spec_parse(s: Seq<u8>) -> Option<Seq<(u64, nat)>> {
    if s.len() >= 11 && s.take(9) == ser_prefix() {
        if s[9] == 125 {
            if s.len() == 11 && s[10] == 125 {
                Some(Seq::<(u64, nat)>::empty())
            } else {
                None
            }
        } else {
            match sp_entries(s, 9, Seq::<(u64, nat)>::empty()) {
                Some((m, j)) => if j == s.len() - 1 && s[j] == 125 {
                    Some(m)
                } else {
                    None
                },
                None => None,
            }
        }
    } else {
        None
    }
}

fn parse_key_rest(s: &Vec<u8>, i0: usize, acc0: u64) -> (r: Option<(u64, usize)>)
    requires
        i0 <= s@.len(),
    ensures
        match r {
            Some(t) => sp_key_rest(s@, i0 as int, acc0) == Some((t.0, t.1 as int)) && i0 <= t.1
                <= s@.len() && ((i0 < s@.len() && is_digit_byte(s@[i0 as int])) ==> t.1 > i0),
            None => sp_key_rest(s@, i0 as int, acc0) is None,
        },
{
    let mut i: usize = i0;
    let mut acc: u64 = acc0;
    while i < s.len() && 48 <= s[i] && s[i] <= 57
        invariant
            i0 <= i <= s@.len(),
            sp_key_rest(s@, i0 as int, acc0) == sp_key_rest(s@, i as int, acc),
        decreases s@.len() - i,
    {
        let d: u8 = s[i] - 48;
        let wide: u128 = (acc as u128) * 10 + (d as u128);
        if wide > u64::MAX as u128 {
            return None;
        }
        acc = wide as u64;
        i = i + 1;
    }
    Some((acc, i))
}

fn parse_key(s: &Vec<u8>, i: usize) -> (r: Option<(u64, usize)>)
    requires
        i <= s@.len(),
    ensures
        match r {
            Some(t) => sp_key(s@, i as int) == Some((t.0, t.1 as int)) && i < t.1 <= s@.len(),
            None => sp_key(s@, i as int) is None,
        },
{
    if i < s.len() && 48 <= s[i] && s[i] <= 57 {
        if s[i] == 48 {
            if i + 1 < s.len() && 48 <= s[i + 1] && s[i + 1] <= 57 {
                None
            } else {
                Some((0, i + 1))
            }
        } else {
            parse_key_rest(s, i, 0)
        }
    } else {
        None
    }
}

fn parse_val(s: &Vec<u8>, i: usize) -> (r: Option<(BigNat, usize)>)
    requires
        i <= s@.len(),
    ensures
        match r {
            Some(t) => t.0.wf() && sp_val(s@, i as int) == Some((t.0@, t.1 as int)) && i < t.1
                <= s@.len(),
            None => sp_val(s@, i as int) is None,
        },
{
    if !(i < s.len() && 48 <= s[i] && s[i] <= 57) {
        return None;
    }
    if s[i] == 48 {
        if i + 1 < s.len() && 48 <= s[i + 1] && s[i + 1] <= 57 {
            return None;
        }
        return Some((BigNat::zero(), i + 1));
    }
    let mut j: usize = i;
    while j < s.len() && 48 <= s[j] && s[j] <= 57
        invariant
            i <= j <= s@.len(),
            forall|q: int| i <= q < j ==> is_digit_byte(#[trigger] s@[q]),
        decreases s@.len() - j,
    {
        j = j + 1;
    }
    let ghost run = s@.subrange(i as int, j as int);
    proof {
        lemma_sp_val_rest(s@, i as int, j as int, 0);
        assert(0 * pow10((j - i) as nat) == 0) by (nonlinear_arith);
        assert(s@.subrange(j as int, j as int) =~= Seq::<u8>::empty());
    }
    let mut digits: Vec<u8> = Vec::new();
    let mut p: usize = j;
    while p > i
        invariant
            i <= p <= j <= s@.len(),
            digits@.len() == j - p,
            forall|q: int| 0 <= q < digits@.len() ==> digits@[q] == s@[j - 1 - q] - 48,
            forall|q: int| 0 <= q < digits@.len() ==> digits@[q] < 10,
            digits_val(digits@) == text_val(s@.subrange(p as int, j as int)),
        decreases p,
    {
        p = p - 1;
        let d: u8 = s[p] - 48;
        proof {
            lemma_val_push(digits@, d);
            let sub = s@.subrange(p as int, j as int);
            assert(forall|q: int| 0 <= q < sub.len() ==> is_digit_byte(#[trigger] sub[q]));
            lemma_text_val_front(sub);
            assert(sub.drop_first() =~= s@.subrange(p + 1, j as int));
            assert(sub[0] == s@[p as int]);
        }
        digits.push(d);
    }
    let v = BigNat { digits };
    proof {
        assert(j > i);
        assert(v.digits@[v.digits@.len() - 1] == s@[i as int] - 48);
        assert(v.wf());
        assert(v@ == text_val(run));
    }
    Some((v, j))
}

/// Greedy digit reading over a delimited digit run.
pub proof fn lemma_sp_val_rest(s: Seq<u8>, i: int, j: int, acc: nat)
    requires
        0 <= i <= j <= s.len(),
        forall|q: int| i <= q < j ==> is_digit_byte(#[trigger] s[q]),
        j == s.len() || !is_digit_byte(s[j]),
    ensures
        sp_val_rest(s, i, acc) == (acc * pow10((j - i) as nat) + text_val(s.subrange(i, j)), j),
    decreases j - i,
{
    if i == j {
        assert(s.subrange(i, j) =~= Seq::<u8>::empty());
        assert(text_val(Seq::<u8>::empty()) == 0);
        assert(pow10(0) == 1);
        assert(acc * 1 == acc);
    } else {
        let d: nat = (s[i] - 48) as nat;
        lemma_sp_val_rest(s, i + 1, j, acc * 10 + d);
        let sub = s.subrange(i, j);
        assert(forall|q: int| 0 <= q < sub.len() ==> is_digit_byte(#[trigger] sub[q]));
        lemma_text_val_front(sub);
        assert(sub.drop_first() =~= s.subrange(i + 1, j));
        assert(sub[0] == s[i]);
        let p: nat = pow10((j - i - 1) as nat);
        let tv: nat = text_val(s.subrange(i + 1, j));
        assert(pow10((j - i) as nat) == 10 * p);
        assert((acc * 10 + d) * p + tv == acc * (10 * p) + (d * p + tv)) by (nonlinear_arith);
        assert(text_val(sub) == d * p + tv);
    }
}

/// Greedy digit reading of a key that fits a machine word.
pub proof fn lemma_sp_key_rest(s: Seq<u8>, i: int, j: int, acc: u64)
    requires
        0 <= i <= j <= s.len(),
        forall|q: int| i <= q < j ==> is_digit_byte(#[trigger] s[q]),
        j == s.len() || !is_digit_byte(s[j]),
        acc * pow10((j - i) as nat) + text_val(s.subrange(i, j)) <= u64::MAX,
    ensures
        sp_key_rest(s, i, acc) == Some(
            ((acc * pow10((j - i) as nat) + text_val(s.subrange(i, j))) as u64, j),
        ),
    decreases j - i,
{
    if i == j {
        assert(s.subrange(i, j) =~= Seq::<u8>::empty());
        assert(text_val(Seq::<u8>::empty()) == 0);
        assert(pow10(0) == 1);
        assert(acc * 1 == acc);
    } else {
        let d: nat = (s[i] - 48) as nat;
        let sub = s.subrange(i, j);
        assert(forall|q: int| 0 <= q < sub.len() ==> is_digit_byte(#[trigger] sub[q]));
        lemma_text_val_front(sub);
        assert(sub.drop_first() =~= s.subrange(i + 1, j));
        assert(sub[0] == s[i]);
        let p: nat = pow10((j - i - 1) as nat);
        let tv: nat = text_val(s.subrange(i + 1, j));
        assert(pow10((j - i) as nat) == 10 * p);
        assert(text_val(sub) == d * p + tv);
        let a2: nat = acc as nat * 10 + d;
        assert((acc as nat * 10 + d) * p + tv == acc as nat * (10 * p) + (d * p + tv))
            by (nonlinear_arith);
        lemma_pow10_pos((j - i - 1) as nat);
        assert(a2 <= a2 * p) by (nonlinear_arith)
            requires
                p >= 1,
                a2 >= 0,
        ;
        assert(a2 <= u64::MAX);
        lemma_sp_key_rest(s, i + 1, j, a2 as u64);
    }
}

fn parse_entry(s: &Vec<u8>, i: usize) -> (r: Option<(u64, BigNat, usize)>)
    requires
        i <= s@.len(),
    ensures
        match r {
            Some(t) => t.1.wf() && sp_entry(s@, i as int) == Some((t.0, t.1@, t.2 as int)) && i
                < t.2 <= s@.len(),
            None => sp_entry(s@, i as int) is None,
        },
{
    if !(i < s.len() && s[i] == 34) {
        return None;
    }
    match parse_key(s, i + 1) {
        None => None,
        Some((k, j)) => {
            if (j as u128) + 2 < (s.len() as u128) && s[j] == 34 && s[j + 1] == 58 && s[j + 2]
                == 34 {
                match parse_val(s, j + 3) {
                    None => None,
                    Some((v, j2)) => {
                        if j2 < s.len() && s[j2] == 34 {
                            Some((k, v, j2 + 1))
                        } else {
                            None
                        }
                    },
                }
            } else {
                None
            }
        },
    }
}

fn parse_entries(s: &Vec<u8>, i: usize, acc: Vec<(u64, BigNat)>) -> (r: Option<
    (Vec<(u64, BigNat)>, usize),
>)
    requires
        i <= s@.len(),
        model_keys_distinct(entries_model(acc@)),
        forall|q: int| 0 <= q < acc@.len() ==> digits_wf(#[trigger] acc@[q].1.digits@),
    ensures
        match r {
            Some(t) => {
                &&& sp_entries(s@, i as int, entries_model(acc@)) == Some(
                    (entries_model(t.0@), t.1 as int),
                )
                &&& model_keys_distinct(entries_model(t.0@))
                &&& forall|q: int| 0 <= q < t.0@.len() ==> digits_wf(#[trigger] t.0@[q].1.digits@)
                &&& t.1 <= s@.len()
            },
            None => sp_entries(s@, i as int, entries_model(acc@)) is None,
        },
    decreases s@.len() - i,
{
    let ghost m0 = entries_model(acc@);
    match parse_entry(s, i) {
        None => None,
        Some((k, v, j)) => {
            match crate::cache::find_key(&acc, k) {
                Some(_) => None,
                None => {
                    let mut acc2 = acc;
                    acc2.push((k, v));
                    proof {
                        assert(entries_model(acc2@) =~= m0.push((k, v@)));
                        assert forall|q1: int, q2: int|
                            0 <= q1 < q2 < entries_model(acc2@).len() implies entries_model(
                            acc2@,
                        )[q1].0 != entries_model(acc2@)[q2].0 by {
                            if q2 < m0.len() {
                                assert(m0[q1].0 != m0[q2].0);
                            } else {
                                assert(entries_model(acc2@)[q2].0 == k);
                                assert(acc@[q1].0 != k);
                            }
                        }
                    }
                    if j < s.len() && s[j] == 44 {
                        parse_entries(s, j + 1, acc2)
                    } else if j < s.len() && s[j] == 125 {
                        Some((acc2, j + 1))
                    } else {
                        None
                    }
                },
            }
        },
    }
}

/// Parses a serialized cache; the entries are returned exactly when the
/// text is a canonical serialization with pairwise distinct keys.
pub fn parse_cache(s: &Vec<u8>) -> (r: Option<Cache>)
    ensures
        match r {
            Some(c) => c.wf() && spec_parse(s@) == Some(c@),
            None => spec_parse(s@) is None,
        },
{
    if s.len() < 11 {
        return None;
    }
    if !(s[0] == 123 && s[1] == 34 && s[2] == 100 && s[3] == 97 && s[4] == 116 && s[5] == 97
        && s[6] == 34 && s[7] == 58 && s[8] == 123) {
        proof {
            if s@.take(9) == ser_prefix() {
                assert(s@[0] == s@.take(9)[0] && s@[1] == s@.take(9)[1] && s@[2] == s@.take(9)[2]
                    && s@[3] == s@.take(9)[3] && s@[4] == s@.take(9)[4] && s@[5] == s@.take(9)[5]
                    && s@[6] == s@.take(9)[6] && s@[7] == s@.take(9)[7] && s@[8] == s@.take(
                    9,
                )[8]);
            }
        }
        return None;
    }
    proof {
        assert(s@.take(9) =~= ser_prefix());
    }
    if s[9] == 125 {
        if s.len() == 11 && s[10] == 125 {
            return Some(Cache::empty());
        } else {
            return None;
        }
    }
    let acc: Vec<(u64, BigNat)> = Vec::new();
    proof {
        assert(entries_model(acc@) =~= Seq::<(u64, nat)>::empty());
    }
    match parse_entries(s, 9, acc) {
        None => None,
        Some((es, j)) => {
            if j == s.len() - 1 && s[j] == 125 {
                Some(Cache { entries: es })
            } else {
                None
            }
        },
    }
}


/// The serialized entry list, read from the front.
pub proof fn lemma_ser_entries_front(m: Seq<(u64, nat)>)
    requires
        m.len() >= 1,
    ensures
        ser_entries(m) == ser_entry(m[0]) + (if m.len() == 1 {
            Seq::<u8>::empty()
        } else {
            seq![44u8] + ser_entries(m.drop_first())
        }),
    decreases m.len(),
{
    if m.len() == 1 {
        assert(ser_entries(m) == ser_entry(m[0]));
        assert(ser_entry(m[0]) + Seq::<u8>::empty() =~= ser_entry(m[0]));
    } else if m.len() == 2 {
        assert(m.drop_last().len() == 1);
        assert(ser_entries(m.drop_last()) == ser_entry(m.drop_last()[0]));
        assert(m.drop_last()[0] == m[0]);
        assert(m.drop_first().len() == 1);
        assert(ser_entries(m.drop_first()) == ser_entry(m.drop_first()[0]));
        assert(m.drop_first()[0] == m[1]);
        assert(m.last() == m[1]);
        assert(ser_entries(m) =~= ser_entry(m[0]) + (seq![44u8] + ser_entry(m[1])));
        assert(ser_entries(m) =~= ser_entry(m[0]) + (seq![44u8] + ser_entries(m.drop_first())));
    } else {
        lemma_ser_entries_front(m.drop_last());
        assert(m.drop_last()[0] == m[0]);
        assert(m.drop_last().drop_first() =~= m.drop_first().drop_last());
        assert(m.drop_first().len() >= 2);
        assert(m.drop_first().last() == m.last());
        assert(ser_entries(m.drop_first()) == ser_entries(m.drop_first().drop_last())
            + seq![44u8] + ser_entry(m.drop_first().last()));
        assert(ser_entries(m) == ser_entries(m.drop_last()) + seq![44u8] + ser_entry(m.last()));
        assert(ser_entries(m) =~= ser_entry(m[0]) + (seq![44u8] + ser_entries(m.drop_first())));
    }
}

/// Reading a canonical key back from serialized text.
pub proof fn lemma_rt_key(s: Seq<u8>, i: int, k: u64)
    requires
        0 <= i,
        i + dec_bytes(k as nat).len() <= s.len(),
        s.subrange(i, i + dec_bytes(k as nat).len()) == dec_bytes(k as nat),
        i + dec_bytes(k as nat).len() == s.len() || !is_digit_byte(
            s[i + dec_bytes(k as nat).len()],
        ),
    ensures
        sp_key(s, i) == Some((k, i + dec_bytes(k as nat).len())),
{
    let t = dec_bytes(k as nat);
    let ln = t.len() as int;
    lemma_dec_bytes_shape(k as nat);
    assert forall|q: int| i <= q < i + ln implies s[q] == t[q - i] by {
        assert(s.subrange(i, i + ln)[q - i] == s[q]);
    }
    assert(s[i] == t[0]);
    assert(is_digit_byte(s[i]));
    assert forall|q: int| i <= q < i + ln implies is_digit_byte(#[trigger] s[q]) by {
        assert(is_digit_byte(t[q - i]));
    }
    if k == 0 {
        assert(t == seq![48u8]);
        assert(ln == 1);
        assert(s[i] == 48);
        assert(i + 1 == s.len() || !is_digit_byte(s[i + 1]));
        assert(sp_key(s, i) == Some((0u64, i + 1)));
    } else {
        assert(t[0] != 48);
        assert(s[i] != 48);
        lemma_text_val_dec(k as nat);
        assert(s.subrange(i, i + ln) == t);
        lemma_sp_key_rest(s, i, i + ln, 0);
        assert(0 * pow10((ln) as nat) == 0) by (nonlinear_arith);
        assert(0 * pow10((ln) as nat) + text_val(s.subrange(i, i + ln)) == k as nat);
    }
}

/// Reading a canonical value back from serialized text.
pub proof fn lemma_rt_val(s: Seq<u8>, i: int, v: nat)
    requires
        0 <= i,
        i + dec_bytes(v).len() <= s.len(),
        s.subrange(i, i + dec_bytes(v).len()) == dec_bytes(v),
        i + dec_bytes(v).len() == s.len() || !is_digit_byte(s[i + dec_bytes(v).len()]),
    ensures
        sp_val(s, i) == Some((v, i + dec_bytes(v).len())),
{
    let t = dec_bytes(v);
    let ln = t.len() as int;
    lemma_dec_bytes_shape(v);
    assert forall|q: int| i <= q < i + ln implies s[q] == t[q - i] by {
        assert(s.subrange(i, i + ln)[q - i] == s[q]);
    }
    assert(s[i] == t[0]);
    assert(is_digit_byte(s[i]));
    assert forall|q: int| i <= q < i + ln implies is_digit_byte(#[trigger] s[q]) by {
        assert(is_digit_byte(t[q - i]));
    }
    if v == 0 {
        assert(t == seq![48u8]);
        assert(ln == 1);
        assert(s[i] == 48);
        assert(i + 1 == s.len() || !is_digit_byte(s[i + 1]));
        assert(sp_val(s, i) == Some((0nat, i + 1)));
    } else {
        assert(t[0] != 48);
        assert(s[i] != 48);
        lemma_text_val_dec(v);
        assert(s.subrange(i, i + ln) == t);
        lemma_sp_val_rest(s, i, i + ln, 0);
        assert(0 * pow10((ln) as nat) == 0) by (nonlinear_arith);
        assert(0 * pow10((ln) as nat) + text_val(s.subrange(i, i + ln)) == v);
    }
}

/// Reading one serialized entry back.
pub proof fn lemma_rt_entry(s: Seq<u8>, i: int, e: (u64, nat))
    requires
        0 <= i,
        i + ser_entry(e).len() <= s.len(),
        s.subrange(i, i + ser_entry(e).len()) == ser_entry(e),
    ensures
        sp_entry(s, i) == Some((e.0, e.1, i + ser_entry(e).len())),
{
    let kb = dec_bytes(e.0 as nat);
    let vb = dec_bytes(e.1);
    let l1 = kb.len() as int;
    let l2 = vb.len() as int;
    let se = ser_entry(e);
    let el = se.len() as int;
    lemma_dec_bytes_shape(e.0 as nat);
    lemma_dec_bytes_shape(e.1);
    assert(el == 1 + l1 + 3 + l2 + 1);
    assert(se[0] == 34);
    assert(forall|q: int| 0 <= q < l1 ==> se[1 + q] == kb[q]);
    assert(se[1 + l1] == 34);
    assert(se[2 + l1] == 58);
    assert(se[3 + l1] == 34);
    assert(forall|q: int| 0 <= q < l2 ==> se[4 + l1 + q] == vb[q]);
    assert(se[4 + l1 + l2] == 34);
    assert forall|q: int| 0 <= q < el implies s[i + q] == se[q] by {
        assert(s.subrange(i, i + el)[q] == s[i + q]);
    }
    assert(s[i] == 34);
    assert(s.subrange(i + 1, i + 1 + l1) =~= kb);
    assert(s[i + 1 + l1] == 34);
    assert(!is_digit_byte(s[i + 1 + l1]));
    lemma_rt_key(s, i + 1, e.0);
    let j = i + 1 + l1;
    assert(sp_key(s, i + 1) == Some((e.0, j)));
    assert(s[j] == 34 && s[j + 1] == 58 && s[j + 2] == 34);
    assert(j + 2 < s.len());
    assert(s.subrange(j + 3, j + 3 + l2) =~= vb);
    assert(s[j + 3 + l2] == 34);
    assert(!is_digit_byte(s[j + 3 + l2]));
    lemma_rt_val(s, j + 3, e.1);
    let j2 = j + 3 + l2;
    assert(sp_val(s, j + 3) == Some((e.1, j2)));
    assert(j2 < s.len());
    assert(s[j2] == 34);
    assert(sp_entry(s, i) == Some((e.0, e.1, j2 + 1)));
    assert(j2 + 1 == i + el);
}

/// Reading a serialized entry list, terminated by the closing brace of the
/// data object, accumulates exactly those entries.
pub proof fn lemma_rt_entries(s: Seq<u8>, i: int, m: Seq<(u64, nat)>, acc: Seq<(u64, nat)>)
    requires
        0 <= i,
        m.len() >= 1,
        i + ser_entries(m).len() + 1 <= s.len(),
        s.subrange(i, i + ser_entries(m).len() + 1) == ser_entries(m) + seq![125u8],
        model_keys_distinct(acc + m),
    ensures
        sp_entries(s, i, acc) == Some((acc + m, i + ser_entries(m).len() + 1)),
    decreases m.len(),
{
    let e0 = m[0];
    let se0 = ser_entry(e0);
    let el = se0.len() as int;
    let sm = ser_entries(m);
    let ml = sm.len() as int;
    lemma_ser_entries_front(m);
    lemma_dec_bytes_shape(e0.0 as nat);
    lemma_dec_bytes_shape(e0.1);
    assert(el >= 7);
    assert forall|q: int| 0 <= q < ml + 1 implies s[i + q] == (sm + seq![125u8])[q] by {
        assert(s.subrange(i, i + ml + 1)[q] == s[i + q]);
    }
    assert(s.subrange(i, i + el) =~= se0);
    lemma_rt_entry(s, i, e0);
    let j = i + el;
    assert(sp_entry(s, i) == Some((e0.0, e0.1, j)));
    lemma_lookup_some_iff(acc, e0.0);
    assert forall|q: int| 0 <= q < acc.len() implies acc[q].0 != e0.0 by {
        assert((acc + m)[q] == acc[q]);
        assert((acc + m)[acc.len() as int] == e0);
    }
    assert(lookup_model(acc, e0.0) is None);
    assert(e0 == (e0.0, e0.1));
    if m.len() == 1 {
        assert(ml == el);
        assert(s[j] == (sm + seq![125u8])[ml]);
        assert(s[j] == 125);
        assert(j < s.len());
        assert(acc.push(e0) =~= acc + m);
        assert(sp_entries(s, i, acc) == Some((acc.push((e0.0, e0.1)), j + 1)));
    } else {
        let m2 = m.drop_first();
        let acc2 = acc.push(e0);
        assert(sm == se0 + (seq![44u8] + ser_entries(m2)));
        assert(ml == el + 1 + ser_entries(m2).len());
        assert(s[j] == (sm + seq![125u8])[el]);
        assert((sm + seq![125u8])[el] == 44);
        assert(s[j] == 44);
        assert(j < s.len());
        assert(i < j);
        assert(acc2 + m2 =~= acc + m);
        assert(model_keys_distinct(acc2 + m2));
        let ml2 = ser_entries(m2).len() as int;
        assert forall|q: int| 0 <= q < ml2 + 1 implies s.subrange(j + 1, j + 1 + ml2 + 1)[q]
            == (ser_entries(m2) + seq![125u8])[q] by {
            assert(s.subrange(j + 1, j + 1 + ml2 + 1)[q] == s[j + 1 + q]);
            assert(s[i + (el + 1 + q)] == (sm + seq![125u8])[el + 1 + q]);
            if q < ml2 {
                assert((sm + seq![125u8])[el + 1 + q] == sm[el + 1 + q]);
                assert(sm[el + 1 + q] == (seq![44u8] + ser_entries(m2))[1 + q]);
                assert((seq![44u8] + ser_entries(m2))[1 + q] == ser_entries(m2)[q]);
            } else {
                assert((sm + seq![125u8])[el + 1 + q] == 125);
            }
        }
        assert(s.subrange(j + 1, j + 1 + ml2 + 1) =~= ser_entries(m2) + seq![125u8]);
        lemma_rt_entries(s, j + 1, m2, acc2);
        assert(sp_entries(s, j + 1, acc2) == Some((acc2 + m2, j + 1 + ml2 + 1)));
        assert(sp_entries(s, i, acc) == sp_entries(s, j + 1, acc.push((e0.0, e0.1))));
        assert(acc.push((e0.0, e0.1)) == acc2);
        assert(j + 1 + ser_entries(m2).len() + 1 == i + ml + 1);
    }
}

/// Loading a saved cache gives back exactly the entries that were saved.
pub proof fn lemma_parse_ser(m: Seq<(u64, nat)>)
    requires
        model_keys_distinct(m),
    ensures
        spec_parse(spec_ser(m)) == Some(m),
{
    let s = spec_ser(m);
    let pre = ser_prefix();
    let se = ser_entries(m);
    assert(s.len() == 9 + se.len() + 2);
    assert(s.take(9) =~= pre);
    if m.len() == 0 {
        assert(se == Seq::<u8>::empty());
        assert(s.len() == 11);
        assert(s[9] == (seq![125u8, 125u8])[0]);
        assert(s[9] == 125);
        assert(s[10] == 125);
        assert(spec_parse(s) == Some(Seq::<(u64, nat)>::empty()));
        assert(m =~= Seq::<(u64, nat)>::empty());
    } else {
        lemma_ser_entries_front(m);
        lemma_dec_bytes_shape(m[0].0 as nat);
        assert(ser_entry(m[0])[0] == 34);
        assert(se[0] == ser_entry(m[0])[0]);
        assert(s[9] == se[0]);
        assert(s[9] != 125);
        assert(Seq::<(u64, nat)>::empty() + m =~= m);
        assert(model_keys_distinct(Seq::<(u64, nat)>::empty() + m));
        assert(s.subrange(9, 9 + se.len() as int + 1) =~= se + seq![125u8]);
        lemma_rt_entries(s, 9, m, Seq::<(u64, nat)>::empty());
        let j: int = 9 + se.len() as int + 1;
        assert(sp_entries(s, 9, Seq::<(u64, nat)>::empty()) == Some((m, j as int)));
        assert(j == s.len() - 1);
        assert(s[j as int] == 125);
        assert(spec_parse(s) == Some(m));
    }
}

} // verus!



