//! Order keys for new items: each sorts after the keys made before it.

use vstd::prelude::*;
use crate::text::{lemma_seq_lt_total, lemma_seq_lt_trans, seq_lt, str_lt};

verus! {

pub open spec fn pow62(k: nat) -> nat
    decreases k,
{
    if k == 0 {
        1
    } else {
        62 * pow62((k - 1) as nat)
    }
}

proof fn lemma_pow62_pos(k: nat)
    ensures
        pow62(k) >= 1,
    decreases k,
{
    if k > 0 {
        lemma_pow62_pos((k - 1) as nat);
    }
}

/// A base-62 digit, in ASCII order: `0`-`9`, `A`-`Z`, `a`-`z`.
pub open spec fn b62(d: int) -> char {
    if d < 10 {
        (48 + d) as char
    } else if d < 36 {
        (55 + d) as char
    } else {
        (61 + d) as char
    }
}

/// The `k` base-62 digits of `n`, most significant first.
pub open spec fn b62_digits(n: nat, k: nat) -> Seq<char>
    decreases k,
{
    if k == 0 {
        seq![]
    } else {
        let p = pow62((k - 1) as nat);
        seq![b62((n / p) as int)] + b62_digits(n % p, (k - 1) as nat)
    }
}

/// How many keys have from `k` to 26 digits.
pub open spec fn keys_from(k: nat) -> nat
    decreases 27 - k,
{
    if k == 0 || k > 26 {
        0
    } else {
        pow62(k) + keys_from(k + 1)
    }
}

/// The key of index `n` among the keys of `k` digits or more.
pub open spec fn key_from(n: nat, k: nat) -> Seq<char>
    decreases 27 - k,
{
    if k == 0 || k > 26 {
        seq![]
    } else if n < pow62(k) {
        seq![(96 + k) as char] + b62_digits(n, k)
    } else {
        key_from((n - pow62(k)) as nat, k + 1)
    }
}

/// The order key of the `n`-th item made, as the integer part of a
/// fractional index: a letter for the number of base-62 digits (`a` for
/// one, `b` for two, ...), then the digits of what is left after the keys
/// with fewer. The first ten are `a0` to `a9`; `az` is followed by `b00`.
pub open spec fn pos_key(n: nat) -> Seq<char> {
    key_from(n, 1)
}

proof fn lemma_b62(d: int)
    requires
        0 <= d < 62,
    ensures
        b62(d) as int == if d < 10 {
            48 + d
        } else if d < 36 {
            55 + d
        } else {
            61 + d
        },
{
}

proof fn lemma_digits_len(n: nat, k: nat)
    ensures
        b62_digits(n, k).len() == k,
    decreases k,
{
    if k > 0 {
        let p = pow62((k - 1) as nat);
        lemma_pow62_pos((k - 1) as nat);
        let rest = b62_digits(n % p, (k - 1) as nat);
        lemma_digits_len(n % p, (k - 1) as nat);
        let whole = b62_digits(n, k);
        assert(whole.len() == 1 + rest.len());
    }
}

proof fn lemma_digits_lt(n: nat, m: nat, k: nat)
    requires
        n < m < pow62(k),
    ensures
        seq_lt(b62_digits(n, k), b62_digits(m, k)),
    decreases k,
{
    let p = pow62((k - 1) as nat);
    lemma_pow62_pos((k - 1) as nat);
    assert(k > 0) by {
        if k == 0 {
            assert(pow62(0) == 1);
        }
    }
    assert(pow62(k) == 62 * p);
    let q1 = n / p;
    let q2 = m / p;
    let r1 = n % p;
    let r2 = m % p;
    assert(n == p * q1 + r1 && 0 <= r1 < p) by (nonlinear_arith)
        requires
            p >= 1,
            q1 == n / p,
            r1 == n % p,
    ;
    assert(m == p * q2 + r2 && 0 <= r2 < p) by (nonlinear_arith)
        requires
            p >= 1,
            q2 == m / p,
            r2 == m % p,
    ;
    assert(q1 <= q2 && q2 < 62) by (nonlinear_arith)
        requires
            n == p * q1 + r1,
            m == p * q2 + r2,
            0 <= r1 < p,
            0 <= r2 < p,
            n < m,
            m < 62 * p,
            q1 >= 0,
    ;
    let a = b62_digits(n, k);
    let b = b62_digits(m, k);
    lemma_digits_len(r1, (k - 1) as nat);
    lemma_digits_len(r2, (k - 1) as nat);
    assert(a[0] == b62(q1 as int));
    assert(b[0] == b62(q2 as int));
    lemma_b62(q1 as int);
    lemma_b62(q2 as int);
    if q1 < q2 {
        assert((a[0] as int) < (b[0] as int));
    } else {
        assert(r1 < r2) by (nonlinear_arith)
            requires
                n == p * q1 + r1,
                m == p * q2 + r2,
                q1 == q2,
                n < m,
        ;
        lemma_digits_lt(r1, r2, (k - 1) as nat);
        assert(a.drop_first() =~= b62_digits(r1, (k - 1) as nat));
        assert(b.drop_first() =~= b62_digits(r2, (k - 1) as nat));
    }
}

proof fn lemma_key_head(n: nat, k: nat)
    requires
        1 <= k <= 26,
        n < keys_from(k),
    ensures
        key_from(n, k).len() >= 1,
        96 + k <= key_from(n, k)[0] as int <= 96 + 26,
    decreases 27 - k,
{
    if n >= pow62(k) {
        assert(k + 1 <= 26) by {
            if k == 26 {
                assert(keys_from(27) == 0);
            }
        }
        lemma_key_head((n - pow62(k)) as nat, k + 1);
    }
}

proof fn lemma_key_lt(n: nat, m: nat, k: nat)
    requires
        1 <= k <= 26,
        n < m < keys_from(k),
    ensures
        seq_lt(key_from(n, k), key_from(m, k)),
    decreases 27 - k,
{
    let p = pow62(k);
    let h = seq![(96 + k) as char];
    if m < p {
        lemma_digits_lt(n, m, k);
        let a = h + b62_digits(n, k);
        let b = h + b62_digits(m, k);
        assert(a.drop_first() =~= b62_digits(n, k));
        assert(b.drop_first() =~= b62_digits(m, k));
        assert(a[0] == b[0]);
    } else {
        assert(k + 1 <= 26) by {
            if k == 26 {
                assert(keys_from(27) == 0);
            }
        }
        if n < p {
            lemma_key_head((m - p) as nat, k + 1);
            let a = h + b62_digits(n, k);
            assert(a[0] as int == 96 + k);
        } else {
            lemma_key_lt((n - p) as nat, (m - p) as nat, k + 1);
        }
    }
}

/// The key of an item sorts after the keys of the items made before it.
pub proof fn law_pos_keys_increase(n: nat, m: nat)
    requires
        n < m < keys_from(1),
    ensures
        seq_lt(pos_key(n), pos_key(m)),
{
    lemma_key_lt(n, m, 1);
}

proof fn lemma_pow62_11()
    ensures
        pow62(11) == 52036560683837093888,
{
    reveal_with_fuel(pow62, 12);
}

proof fn lemma_keys_from_ge(k: nat)
    requires
        1 <= k <= 26,
    ensures
        keys_from(k) >= pow62(k),
{
}

fn b62_exec(d: u128) -> (c: char)
    requires
        d < 62,
    ensures
        c == b62(d as int),
{
    if d < 10 {
        ((48 + d) as u8) as char
    } else if d < 36 {
        ((55 + d) as u8) as char
    } else {
        ((61 + d) as u8) as char
    }
}

/// The order key of the `n`-th item made.
pub fn pos_key_exec(n: usize) -> (r: String)
    ensures
        r@ == pos_key(n as nat),
        n < keys_from(1),
{
    proof {
        lemma_pow62_11();
        lemma_keys_from_ge(11);
        assert(keys_from(1) >= keys_from(11)) by {
            reveal_with_fuel(keys_from, 12);
        }
    }
    let mut x: u128 = n as u128;
    let mut k: u128 = 1;
    let mut p: u128 = 62;
    assert(pow62(1) == 62) by {
        reveal_with_fuel(pow62, 2);
    }
    while x >= p
        invariant
            1 <= k <= 11,
            p == pow62(k as nat),
            x <= n,
            key_from(n as nat, 1) == key_from(x as nat, k as nat),
            pow62(11) == 52036560683837093888,
        decreases 11 - k,
    {
        assert(k < 11) by {
            if k == 11 {
                assert(x < p);
            }
        }
        x = x - p;
        assert(pow62((k + 1) as nat) == 62 * pow62(k as nat));
        assert(p * 62 <= 52036560683837093888 * 62) by (nonlinear_arith)
            requires
                k < 11,
                p == pow62(k as nat),
                pow62(11) == 52036560683837093888,
        {
            lemma_pow62_le(k as nat, 11);
        }
        p = p * 62;
        k = k + 1;
    }
    let mut out = String::new();
    let head = ((96 + k) as u8) as char;
    out.push(head);
    let mut r: u128 = x;
    let mut j: u128 = k;
    let mut q: u128 = p / 62;
    assert(q == pow62((k - 1) as nat)) by (nonlinear_arith)
        requires
            p == 62 * pow62((k - 1) as nat),
            q == p / 62,
    ;
    assert(out@ + b62_digits(r as nat, j as nat) =~= seq![(96 + k) as char] + b62_digits(
        x as nat,
        k as nat,
    ));
    while j > 0
        invariant
            j <= k,
            1 <= k <= 11,
            r < pow62(j as nat),
            j >= 1 ==> q == pow62((j - 1) as nat),
            out@ + b62_digits(r as nat, j as nat) == seq![(96 + k) as char] + b62_digits(
                x as nat,
                k as nat,
            ),
        decreases j,
    {
        proof {
            lemma_pow62_pos((j - 1) as nat);
        }
        let d = r / q;
        assert(d < 62) by (nonlinear_arith)
            requires
                r < 62 * q,
                q >= 1,
                d == r / q,
        ;
        let c = b62_exec(d);
        let ghost before = out@;
        let ghost rest = b62_digits((r % q) as nat, (j - 1) as nat);
        out.push(c);
        assert(out@ + rest =~= before + b62_digits(r as nat, j as nat));
        assert(r % q < q) by (nonlinear_arith)
            requires
                q >= 1,
        ;
        r = r % q;
        if j >= 2 {
            assert(q / 62 == pow62((j - 2) as nat)) by (nonlinear_arith)
                requires
                    q == 62 * pow62((j - 2) as nat),
            ;
        }
        q = q / 62;
        j = j - 1;
    }
    assert(out@ =~= out@ + b62_digits(r as nat, 0));
    proof {
        assert(key_from(x as nat, k as nat) == seq![(96 + k) as char] + b62_digits(x as nat, k as nat));
    }
    out
}

proof fn lemma_pow62_le(a: nat, b: nat)
    requires
        a <= b,
    ensures
        pow62(a) <= pow62(b),
    decreases b - a,
{
    if a < b {
        lemma_pow62_le(a, (b - 1) as nat);
    }
}

// ---------------------------------------------------------------------------
// A key after all the existing ones
// ---------------------------------------------------------------------------

/// The greatest of the keys `ks` in string order; empty when there are none.
pub open spec fn max_key(ks: Seq<Seq<char>>) -> Seq<char>
    decreases ks.len(),
{
    if ks.len() == 0 {
        seq![]
    } else {
        let m = max_key(ks.drop_last());
        if seq_lt(m, ks.last()) {
            ks.last()
        } else {
            m
        }
    }
}

/// The key of a new item among siblings whose keys are `ks`: the next key
/// of the sequence (`pos_key` of their count) when it sorts after all of
/// them, else the greatest of them with `V` added.
pub open spec fn next_key(ks: Seq<Seq<char>>) -> Seq<char> {
    let k = pos_key(ks.len());
    if seq_lt(max_key(ks), k) {
        k
    } else {
        max_key(ks) + seq!['V']
    }
}

proof fn lemma_max_key(ks: Seq<Seq<char>>)
    ensures
        forall|i: int| 0 <= i < ks.len() ==> #[trigger] ks[i] == max_key(ks) || seq_lt(ks[i], max_key(ks)),
    decreases ks.len(),
{
    if ks.len() > 0 {
        let d = ks.drop_last();
        lemma_max_key(d);
        let m = max_key(d);
        let l = ks.last();
        lemma_seq_lt_total(m, l);
        assert forall|i: int| 0 <= i < ks.len() implies #[trigger] ks[i] == max_key(ks) || seq_lt(
            ks[i],
            max_key(ks),
        ) by {
            if i < ks.len() - 1 {
                assert(ks[i] == d[i]);
                if seq_lt(m, l) && ks[i] != m {
                    lemma_seq_lt_trans(ks[i], m, l);
                }
            }
        }
    }
}

proof fn lemma_lt_extended(m: Seq<char>, x: Seq<char>)
    requires
        x.len() > 0,
    ensures
        seq_lt(m, m + x),
    decreases m.len(),
{
    if m.len() > 0 {
        lemma_lt_extended(m.drop_first(), x);
        assert((m + x).drop_first() =~= m.drop_first() + x);
        assert((m + x)[0] == m[0]);
    }
}

/// A new item's key sorts after the key of every existing sibling.
pub proof fn law_next_key_after_all(ks: Seq<Seq<char>>)
    ensures
        forall|i: int| 0 <= i < ks.len() ==> seq_lt(#[trigger] ks[i], next_key(ks)),
{
    lemma_max_key(ks);
    let m = max_key(ks);
    let k = pos_key(ks.len());
    if !seq_lt(m, k) {
        lemma_lt_extended(m, seq!['V']);
    }
    assert forall|i: int| 0 <= i < ks.len() implies seq_lt(#[trigger] ks[i], next_key(ks)) by {
        if ks[i] != m {
            lemma_seq_lt_trans(ks[i], m, next_key(ks));
        }
    }
}

/// The greatest of some keys, computed.
pub fn max_key_exec(ks: &Vec<String>) -> (r: String)
    ensures
        r@ == max_key(crate::text::str_views(ks@)),
{
    let ghost kv = crate::text::str_views(ks@);
    let mut m = String::new();
    let mut i: usize = 0;
    assert(kv.take(0) =~= Seq::<Seq<char>>::empty());
    while i < ks.len()
        invariant
            i <= ks.len(),
            kv == crate::text::str_views(ks@),
            m@ == max_key(kv.take(i as int)),
        decreases ks.len() - i,
    {
        assert(kv.take(i + 1).drop_last() =~= kv.take(i as int));
        assert(kv.take(i + 1).last() == ks@[i as int]@);
        if str_lt(m.as_str(), ks[i].as_str()) {
            m = ks[i].clone();
        }
        i = i + 1;
    }
    assert(kv.take(ks.len() as int) =~= kv);
    m
}

/// The key of a new item among siblings whose keys are `ks`.
pub fn next_key_exec(ks: &Vec<String>) -> (r: String)
    ensures
        r@ == next_key(crate::text::str_views(ks@)),
{
    let m = max_key_exec(ks);
    let k = pos_key_exec(ks.len());
    if str_lt(m.as_str(), k.as_str()) {
        k
    } else {
        let mut r = m;
        r.push('V');
        r
    }
}

} // verus!
