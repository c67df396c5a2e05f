//! Exact one-decimal rendering of `d / 1024` for an arbitrarily long
//! decimal digit string `d` (Pango absolute sizes are 1024ths of a point).
//! Rounding is to nearest, ties to even, as `format!("{:.1}", x)` does.
use vstd::prelude::*;

use crate::scan::{digit_value, digits_value};
use crate::text::{decimal, digit_char};

verus! {

/// Value of a sequence of decimal digit values, most significant first.
pub open spec fn nval(ds: Seq<u8>) -> nat
    decreases ds.len(),
{
    if ds.len() == 0 {
        0
    } else {
        nval(ds.drop_last()) * 10 + ds.last() as nat
    }
}

pub open spec fn all_small(ds: Seq<u8>) -> bool {
    forall|i: int| 0 <= i < ds.len() ==> #[trigger] ds[i] < 10
}

/// `x / m`, rounded to nearest with ties to even.
pub open spec fn round_half_even(x: nat, m: nat) -> nat {
    let q = x / m;
    let r = x % m;
    if 2 * r > m || (2 * r == m && q % 2 == 1) {
        q + 1
    } else {
        q
    }
}

/// `d / 1024` written with one decimal (`format!("{:.1}", d / 1024)`).
pub open spec fn one_decimal_per_1024(d: nat) -> Seq<char> {
    let t = round_half_even(d * 10, 1024);
    decimal(t / 10) + seq!['.', digit_char(t % 10)]
}

/// Increment of a digit sequence.
pub open spec fn inc_digits(ds: Seq<u8>) -> Seq<u8>
    decreases ds.len(),
{
    if ds.len() == 0 {
        seq![1u8]
    } else if ds.last() < 9 {
        ds.drop_last().push((ds.last() + 1) as u8)
    } else {
        inc_digits(ds.drop_last()).push(0u8)
    }
}

proof fn lemma_inc(ds: Seq<u8>)
    requires
        all_small(ds),
    ensures
        nval(inc_digits(ds)) == nval(ds) + 1,
        all_small(inc_digits(ds)),
        inc_digits(ds).len() >= 1,
    decreases ds.len(),
{
    if ds.len() == 0 {
        let r = seq![1u8];
        assert(r.drop_last() =~= Seq::<u8>::empty());
        assert(nval(r.drop_last()) == 0);
        assert(r.last() == 1);
        assert(nval(r) == 1);
    } else if ds.last() < 9 {
        let r = ds.drop_last().push((ds.last() + 1) as u8);
        assert(r.drop_last() =~= ds.drop_last());
        assert(r.last() == ds.last() + 1);
        assert(nval(r) == nval(ds.drop_last()) * 10 + ds.last() + 1);
        assert forall|i: int| 0 <= i < r.len() implies #[trigger] r[i] < 10 by {
            if i < r.len() - 1 {
                assert(r[i] == ds[i]);
            }
        }
    } else {
        lemma_inc(ds.drop_last());
        let r = inc_digits(ds.drop_last()).push(0u8);
        assert(r.drop_last() =~= inc_digits(ds.drop_last()));
        assert(r.last() == 0);
        assert(nval(r) == nval(inc_digits(ds.drop_last())) * 10);
        assert(ds.last() == 9);
        assert(nval(ds) == nval(ds.drop_last()) * 10 + 9);
        assert forall|i: int| 0 <= i < r.len() implies #[trigger] r[i] < 10 by {
            if i < r.len() - 1 {
                assert(r[i] == inc_digits(ds.drop_last())[i]);
            }
        }
    }
}

fn inc_vec(v: &mut Vec<u8>)
    requires
        all_small(old(v)@),
    ensures
        final(v)@ == inc_digits(old(v)@),
    decreases old(v)@.len(),
{
    match v.pop() {
        None => {
            v.push(1);
            proof {
                assert(v@ =~= seq![1u8]);
            }
        },
        Some(last) => {
            if last < 9 {
                v.push(last + 1);
            } else {
                inc_vec(v);
                v.push(0);
            }
        },
    }
}

proof fn lemma_nval_zero_prefix(s: Seq<u8>, k: int)
    requires
        0 <= k <= s.len(),
        forall|i: int| 0 <= i < k ==> s[i] == 0,
    ensures
        nval(s) == nval(s.subrange(k, s.len() as int)),
    decreases s.len(),
{
    if s.len() == k {
        lemma_nval_zeros(s);
        assert(s.subrange(k, s.len() as int) =~= Seq::<u8>::empty());
    } else {
        let t = s.drop_last();
        lemma_nval_zero_prefix(t, k);
        assert(s.subrange(k, s.len() as int).drop_last() =~= t.subrange(k, t.len() as int));
    }
}

proof fn lemma_nval_zeros(s: Seq<u8>)
    requires
        forall|i: int| 0 <= i < s.len() ==> s[i] == 0,
    ensures
        nval(s) == 0,
    decreases s.len(),
{
    if s.len() > 0 {
        lemma_nval_zeros(s.drop_last());
    }
}

proof fn lemma_nval_ge_first(s: Seq<u8>)
    requires
        s.len() >= 1,
    ensures
        nval(s) >= s[0],
    decreases s.len(),
{
    if s.len() > 1 {
        lemma_nval_ge_first(s.drop_last());
    }
}

pub open spec fn digit_chars(ds: Seq<u8>) -> Seq<char> {
    ds.map_values(|d: u8| digit_char(d as nat))
}

proof fn lemma_chars_decimal(t: Seq<u8>)
    requires
        t.len() >= 1,
        t[0] != 0,
        all_small(t),
    ensures
        digit_chars(t) == decimal(nval(t)),
    decreases t.len(),
{
    if t.len() == 1 {
        assert(t.drop_last() =~= Seq::<u8>::empty());
        assert(nval(t.drop_last()) == 0);
        assert(t.last() == t[0]);
        assert(nval(t) == t[0] as nat);
        assert(digit_chars(t) =~= seq![digit_char(t[0] as nat)]);
    } else {
        let dl = t.drop_last();
        lemma_chars_decimal(dl);
        lemma_nval_ge_first(dl);
        let n = nval(t);
        assert(n == nval(dl) * 10 + t.last() as nat);
        assert(n / 10 == nval(dl) && n % 10 == t.last() as nat) by {
            vstd::arithmetic::div_mod::lemma_fundamental_div_mod_converse(
                n as int,
                10,
                nval(dl) as int,
                t.last() as int,
            );
        }
        assert(digit_chars(t) =~= digit_chars(dl).push(digit_char(t.last() as nat)));
    }
}

/// Quotient digits and remainder of `d * 10 / 1024`.
fn div_tenfold_by_1024(digits: &[char]) -> (res: (Vec<u8>, u32))
    requires
        digits_value(digits@, 10) is Some,
    ensures
        res.1 < 1024,
        all_small(res.0@),
        res.0@.len() >= 1,
        nval(res.0@) * 1024 + res.1 == digits_value(digits@, 10)->0 * 10,
{
    let mut q: Vec<u8> = Vec::new();
    let mut r: u32 = 0;
    let mut i: usize = 0;
    proof {
        assert(digits@.subrange(0, 0) =~= Seq::<char>::empty());
    }
    while i < digits.len()
        invariant
            i <= digits.len(),
            digits_value(digits@, 10) is Some,
            r < 1024,
            all_small(q@),
            q@.len() == i,
            digits_value(digits@.subrange(0, i as int), 10) is Some,
            digits_value(digits@.subrange(0, i as int), 10)->0 == nval(q@) * 1024 + r,
        decreases digits.len() - i,
    {
        let c = digits[i];
        let ghost p = digits@.subrange(0, i + 1);
        let ghost pv = digits_value(digits@.subrange(0, i as int), 10)->0;
        proof {
            assert(p.drop_last() =~= digits@.subrange(0, i as int));
            lemma_prefix_valid(digits@, i + 1);
            assert(p.last() == c);
        }
        let d: u32 = (c as u32) - ('0' as u32);
        div_step(&mut q, &mut r, d);
        proof {
            assert(digits_value(p, 10)->0 == pv * 10 + d as nat);
        }
        i = i + 1;
    }
    proof {
        assert(digits@.subrange(0, digits@.len() as int) =~= digits@);
    }
    div_step(&mut q, &mut r, 0);
    (q, r)
}

/// Digits of `round_half_even(d * 10, 1024)`.
fn rounded_tenths(digits: &[char]) -> (q: Vec<u8>)
    requires
        digits_value(digits@, 10) is Some,
    ensures
        all_small(q@),
        q@.len() >= 1,
        nval(q@) == round_half_even(digits_value(digits@, 10)->0 * 10, 1024),
{
    let ghost x = digits_value(digits@, 10)->0 * 10;
    let (mut q, r) = div_tenfold_by_1024(digits);
    proof {
        vstd::arithmetic::div_mod::lemma_fundamental_div_mod_converse(
            x as int,
            1024,
            nval(q@) as int,
            r as int,
        );
        let dl = q@.drop_last();
        assert(nval(q@) == nval(dl) * 10 + q@.last() as nat);
        assert(nval(q@) % 2 == q@.last() as nat % 2);
    }
    let last = q[q.len() - 1];
    if 2 * r > 1024 || (2 * r == 1024 && last % 2 == 1) {
        proof {
            lemma_inc(q@);
        }
        inc_vec(&mut q);
    }
    q
}

/// Appends `one_decimal_per_1024` of the value of `digits`.
pub fn push_one_decimal_per_1024(out: &mut Vec<char>, digits: &[char])
    requires
        digits_value(digits@, 10) is Some,
    ensures
        final(out)@ == old(out)@ + one_decimal_per_1024(digits_value(digits@, 10)->0),
{
    let ghost dv = digits_value(digits@, 10)->0;
    let q = rounded_tenths(digits);
    let ghost t = nval(q@);
    let n = q.len();
    let lastd = q[n - 1];
    proof {
        let dl = q@.drop_last();
        assert(nval(q@) == nval(dl) * 10 + lastd as nat);
        vstd::arithmetic::div_mod::lemma_fundamental_div_mod_converse(
            t as int,
            10,
            nval(dl) as int,
            lastd as int,
        );
    }
    push_digits_stripped(out, &q, n - 1);
    out.push('.');
    let c = ((('0' as u32) + (lastd as u32)) as u8) as char;
    out.push(c);
    proof {
        assert(out@ =~= old(out)@ + one_decimal_per_1024(dv));
    }
}

/// Appends `decimal(nval(q[..m]))`.
fn push_digits_stripped(out: &mut Vec<char>, q: &Vec<u8>, m: usize)
    requires
        m <= q@.len(),
        all_small(q@),
    ensures
        final(out)@ == old(out)@ + decimal(nval(q@.subrange(0, m as int))),
{
    let ghost dl = q@.subrange(0, m as int);
    let mut k: usize = 0;
    while k < m && q[k] == 0
        invariant
            k <= m <= q@.len(),
            forall|j: int| 0 <= j < k ==> q@[j] == 0,
        decreases m - k,
    {
        k = k + 1;
    }
    let ghost old_out = out@;
    if k == m {
        proof {
            lemma_nval_zeros(dl);
        }
        out.push('0');
        proof {
            assert(decimal(0) =~= seq![digit_char(0)]);
        }
    } else {
        let mut j = k;
        while j < m
            invariant
                k <= j <= m <= q@.len(),
                all_small(q@),
                out@ == old_out + digit_chars(q@.subrange(k as int, j as int)),
            decreases m - j,
        {
            let dg = q[j];
            let c = ((('0' as u32) + (dg as u32)) as u8) as char;
            out.push(c);
            proof {
                assert(digit_chars(q@.subrange(k as int, j + 1)) =~= digit_chars(
                    q@.subrange(k as int, j as int),
                ).push(digit_char(dg as nat)));
            }
            j = j + 1;
        }
        proof {
            let tail = dl.subrange(k as int, dl.len() as int);
            assert(tail =~= q@.subrange(k as int, m as int));
            lemma_nval_zero_prefix(dl, k as int);
            lemma_chars_decimal(tail);
        }
    }
}

/// One long-division step: bring down digit `d`.
fn div_step(q: &mut Vec<u8>, r: &mut u32, d: u32)
    requires
        *old(r) < 1024,
        d < 10,
        all_small(old(q)@),
    ensures
        *final(r) < 1024,
        all_small(final(q)@),
        final(q)@.len() == old(q)@.len() + 1,
        nval(final(q)@) * 1024 + *final(r) == (nval(old(q)@) * 1024 + *old(r)) * 10 + d,
{
    let ghost old_q = q@;
    let ghost old_r = *r;
    let cur: u32 = *r * 10 + d;
    q.push((cur / 1024) as u8);
    *r = cur % 1024;
    proof {
        assert(q@.drop_last() =~= old_q);
        assert(cur / 1024 < 10);
        assert(cur == (cur / 1024) * 1024 + cur % 1024);
        assert(nval(q@) == nval(old_q) * 10 + (cur / 1024) as nat);
        assert forall|i: int| 0 <= i < q@.len() implies #[trigger] q@[i] < 10 by {
            if i < q@.len() - 1 {
                assert(q@[i] == old_q[i]);
            }
        }
        let rr = *r;
        assert(nval(q@) * 1024 + rr == (nval(old_q) * 1024 + old_r) * 10 + d) by (nonlinear_arith)
            requires
                cur == old_r * 10 + d,
                cur == (cur / 1024) * 1024 + rr,
                nval(q@) == nval(old_q) * 10 + (cur / 1024),
        ;
    }
}

proof fn lemma_prefix_valid(s: Seq<char>, k: int)
    requires
        0 <= k <= s.len(),
        digits_value(s, 10) is Some,
    ensures
        digits_value(s.subrange(0, k), 10) is Some,
    decreases s.len(),
{
    if k < s.len() {
        assert(s.subrange(0, k) =~= s.drop_last().subrange(0, k));
        lemma_prefix_valid(s.drop_last(), k);
    } else {
        assert(s.subrange(0, k) =~= s);
    }
}

} // verus!
