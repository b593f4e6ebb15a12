//! The difficulty target: a 256-bit big-endian integer that a block's hash
//! must not exceed, rescaled from the timestamps of a sampling window.
use vstd::prelude::*;
use crate::block::{be_value, lemma_be_value_bound, pow256, Target};
use crate::encoding::push_bytes;
use crate::config::SAMPLE_EXPECTED_MS;

verus! {

/// The target of the first blocks, before the sampling window is full.
pub open spec fn genesis_target_spec() -> Seq<u8> {
    Seq::new(32, |i: int| if i == 0 { 0u8 } else if i == 1 { 0x3fu8 } else { 0xffu8 })
}

/// `v` limited to the range `[lo, hi]`.
pub open spec fn clamp(v: int, lo: int, hi: int) -> int {
    if v < lo {
        lo
    } else if v > hi {
        hi
    } else {
        v
    }
}

/// The time the window took, in milliseconds, as a factor for the target:
/// between a quarter and four times the expected time.
pub open spec fn elapsed_factor(start: u128, end: u128) -> int {
    clamp(
        if end >= start { end - start } else { 0int },
        (SAMPLE_EXPECTED_MS / 4) as int,
        (SAMPLE_EXPECTED_MS * 4) as int,
    )
}

/// The target after a window that took the given time: the old target
/// scaled by actual over expected time, at most the largest 256-bit value.
pub open spec fn scaled_target(prev: Seq<u8>, start: u128, end: u128) -> nat {
    let v = be_value(prev) * elapsed_factor(start, end) / (SAMPLE_EXPECTED_MS as int);
    if v < pow256(32) {
        v as nat
    } else {
        (pow256(32) - 1) as nat
    }
}

/// What `calculate_target` returns, as an integer.
pub open spec fn target_value(prev: Seq<u8>, start: Option<u128>, end: Option<u128>) -> nat {
    match (start, end) {
        (Some(s), Some(e)) => scaled_target(prev, s, e),
        _ => be_value(genesis_target_spec()),
    }
}

proof fn lemma_be_value_push(s: Seq<u8>, x: u8)
    ensures
        be_value(s.push(x)) == be_value(s) * 256 + x,
    decreases s.len(),
{
    if s.len() == 0 {
        assert(s.push(x).drop_first() =~= Seq::<u8>::empty());
        assert(pow256(0) == 1);
        assert(be_value(s.push(x)) == x as nat * pow256(0) + be_value(s.push(x).drop_first()));
    } else {
        lemma_be_value_push(s.drop_first(), x);
        assert(s.push(x).drop_first() =~= s.drop_first().push(x));
        let p = pow256((s.len() - 1) as nat);
        assert(pow256(s.len()) == 256 * p);
        assert(be_value(s.push(x)) == s[0] as nat * pow256(s.len()) + be_value(
            s.push(x).drop_first(),
        ));
        let a = s[0] as nat;
        let r = be_value(s.drop_first());
        assert(a * (256 * p) + (r * 256 + x) == (a * p + r) * 256 + x) by (nonlinear_arith);
    }
}

proof fn lemma_be_value_split(s: Seq<u8>, k: int)
    requires
        0 <= k <= s.len(),
    ensures
        be_value(s) == be_value(s.take(k)) * pow256((s.len() - k) as nat) + be_value(s.skip(k)),
    decreases k,
{
    if k == 0 {
        assert(s.skip(0) =~= s);
        assert(s.take(0) =~= Seq::<u8>::empty());
        assert(be_value(s.take(0)) == 0);
    } else {
        lemma_be_value_split(s.drop_first(), k - 1);
        assert(s.drop_first().take(k - 1) =~= s.take(k).drop_first());
        assert(s.drop_first().skip(k - 1) =~= s.skip(k));
        let p = pow256((s.len() - k) as nat);
        let q = pow256((k - 1) as nat);
        lemma_pow256_add((k - 1) as nat, (s.len() - k) as nat);
        let a = s[0] as nat;
        let t = be_value(s.take(k).drop_first());
        assert(s.take(k)[0] == s[0]);
        assert(be_value(s) == a * pow256((s.len() - 1) as nat) + be_value(s.drop_first()));
        assert(be_value(s.take(k)) == a * q + t);
        assert(pow256((s.len() - 1) as nat) == q * p);
        assert(be_value(s.drop_first()) == be_value(s.drop_first().take(k - 1)) * p + be_value(
            s.drop_first().skip(k - 1),
        ));
        assert(a * (q * p) + t * p == (a * q + t) * p) by (nonlinear_arith);
        assert(be_value(s) == a * (q * p) + (t * p + be_value(s.skip(k))));
    }
}

proof fn lemma_pow256_add(a: nat, b: nat)
    ensures
        pow256(a) * pow256(b) == pow256(a + b),
    decreases a,
{
    if a > 0 {
        lemma_pow256_add((a - 1) as nat, b);
        assert(pow256(a + b) == 256 * pow256((a - 1 + b) as nat));
        assert(pow256(a) == 256 * pow256((a - 1) as nat));
        let x = pow256((a - 1) as nat);
        let y = pow256(b);
        assert((256 * x) * y == 256 * (x * y)) by (nonlinear_arith);
        assert(((a - 1) as nat + b) as nat == (a - 1 + b) as nat);
        assert(x * y == pow256((a - 1 + b) as nat));
    } else {
        assert(pow256(0) == 1);
        assert(a + b == b);
    }
}

proof fn lemma_pow256_pos(n: nat)
    ensures
        pow256(n) > 0,
    decreases n,
{
    if n > 0 {
        lemma_pow256_pos((n - 1) as nat);
    }
}

proof fn lemma_be_value_zeros(n: nat)
    ensures
        be_value(Seq::new(n, |i: int| 0u8)) == 0,
    decreases n,
{
    if n > 0 {
        assert(Seq::new(n, |i: int| 0u8).drop_first() =~= Seq::new((n - 1) as nat, |i: int| 0u8));
        lemma_be_value_zeros((n - 1) as nat);
    }
}

/// Multiplies a big-endian integer by `m`, the result one byte longer.
fn mul_small(s: &Vec<u8>, m: u32) -> (r: Vec<u8>)
    requires
        s@.len() < 64,
        be_value(s@) * m < pow256((s@.len() + 1) as nat),
    ensures
        r@.len() == s@.len() + 1,
        be_value(r@) == be_value(s@) * m,
{
    let n = s.len();
    let mut out: Vec<u8> = Vec::new();
    let mut k: usize = 0;
    while k < n + 1
        invariant
            n == s@.len(),
            n < 64,
            out@.len() == k,
            k <= n + 1,
            forall|j: int| 0 <= j < k ==> out@[j] == 0u8,
        decreases n + 1 - k,
    {
        out.push(0u8);
        k = k + 1;
    }
    let mut carry: u64 = 0;
    let mut i: usize = n;
    assert(out@.skip(n + 1) =~= Seq::<u8>::empty());
    assert(s@.skip(n as int) =~= Seq::<u8>::empty());
    while i > 0
        invariant
            n == s@.len(),
            n < 64,
            out@.len() == n + 1,
            0 <= i <= n,
            forall|j: int| 0 <= j <= i ==> out@[j] == 0u8,
            carry < 0x1_0000_0000,
            be_value(out@.skip(i + 1)) + carry * pow256((n - i) as nat) == be_value(s@.skip(i as int))
                * m,
        decreases i,
    {
        i = i - 1;
        let d: u64 = s[i] as u64;
        assert(d * (m as u64) + carry < 0x1_0000_0000 * 256) by (nonlinear_arith)
            requires
                d < 256,
                m < 0x1_0000_0000,
                carry < 0x1_0000_0000,
        ;
        let x: u64 = d * (m as u64) + carry;
        let ghost old_out = out@;
        proof { lemma_pow256_pos((n - i - 1) as nat); }
        out.set(i + 1, (x % 256) as u8);
        let ghost c0 = carry;
        carry = x / 256;
        proof {
            let p = pow256((n - i - 1) as nat);
            assert(out@.skip(i + 1).drop_first() =~= old_out.skip(i + 2));
            assert(out@.skip(i + 1)[0] == (x % 256) as u8);
            assert(s@.skip(i as int).drop_first() =~= s@.skip(i + 1));
            assert(be_value(out@.skip(i + 1)) == (x % 256) * p + be_value(old_out.skip(i + 2)));
            assert(be_value(s@.skip(i as int)) == s@[i as int] * p + be_value(s@.skip(i + 1)));
            assert(pow256((n - i) as nat) == 256 * p);
            let lo = be_value(old_out.skip(i + 2));
            let hi = be_value(s@.skip(i + 1));
            assert(lo + c0 * p == hi * m);
            assert((x % 256) * p + lo + (x / 256) * (256 * p) == (s@[i as int] * p + hi) * m)
                by (nonlinear_arith)
                requires
                    lo + c0 * p == hi * m,
                    x == s@[i as int] * m + c0,
            ;
        }
    }
    let ghost before = out@;
    proof {
        assert(s@.skip(0) =~= s@);
        let p = pow256(n as nat);
        let lo = be_value(before.skip(1));
        assert(pow256((n + 1) as nat) == 256 * p);
        assert(carry < 256) by (nonlinear_arith)
            requires
                lo + carry * p == be_value(s@) * m,
                be_value(s@) * m < 256 * p,
                p > 0,
        ;
    }
    out.set(0, carry as u8);
    proof {
        assert(out@.drop_first() =~= before.skip(1));
        assert(out@.drop_first() =~= before.skip(1));
    }
    out
}

/// Divides a big-endian integer by `d`, rounding down.
fn div_small(s: &Vec<u8>, d: u32) -> (r: Vec<u8>)
    requires
        d > 0,
    ensures
        r@.len() == s@.len(),
        be_value(r@) as int == be_value(s@) as int / (d as int),
{
    let mut q: Vec<u8> = Vec::new();
    let mut rem: u64 = 0;
    let mut k: usize = 0;
    assert(s@.take(0) =~= Seq::<u8>::empty());
    assert(q@ =~= Seq::<u8>::empty());
    assert(be_value(s@.take(0)) == 0);
    assert(be_value(q@) == 0);
    while k < s.len()
        invariant
            0 <= k <= s@.len(),
            q@.len() == k,
            rem < d,
            be_value(s@.take(k as int)) == be_value(q@) * d + rem,
        decreases s@.len() - k,
    {
        let v: u64 = rem * 256 + s[k] as u64;
        let digit: u64 = v / (d as u64);
        let ghost qq = q@;
        let ghost r0 = rem;
        assert(digit < 256) by (nonlinear_arith)
            requires
                digit == v / (d as u64),
                v == r0 * 256 + s@[k as int],
                r0 < d,
                s@[k as int] < 256,
                d > 0,
        ;
        q.push(digit as u8);
        rem = v % (d as u64);
        proof {
            lemma_be_value_push(s@.take(k as int), s@[k as int]);
            assert(s@.take(k + 1) =~= s@.take(k as int).push(s@[k as int]));
            lemma_be_value_push(qq, digit as u8);
            let bq = be_value(qq);
            assert(v == digit * d + rem) by (nonlinear_arith)
                requires
                    digit == v / (d as u64),
                    rem == v % (d as u64),
                    d > 0,
            ;
            assert((bq * d + r0) * 256 + s@[k as int] == (bq * 256 + digit) * d + rem)
                by (nonlinear_arith)
                requires
                    v == digit * d + rem,
                    v == r0 * 256 + s@[k as int],
            ;
        }
        k = k + 1;
    }
    assert(s@.take(s@.len() as int) =~= s@);
    proof {
        vstd::arithmetic::div_mod::lemma_fundamental_div_mod_converse_div(
            be_value(s@) as int,
            d as int,
            be_value(q@) as int,
            rem as int,
        );
    }
    q
}

proof fn lemma_be_value_ones(n: nat)
    ensures
        be_value(Seq::new(n, |i: int| 0xffu8)) + 1 == pow256(n),
    decreases n,
{
    if n > 0 {
        assert(Seq::new(n, |i: int| 0xffu8).drop_first() =~= Seq::new(
            (n - 1) as nat,
            |i: int| 0xffu8,
        ));
        lemma_be_value_ones((n - 1) as nat);
        let ff = Seq::new(n, |i: int| 0xffu8);
        assert(be_value(ff) == 255 * pow256((n - 1) as nat) + be_value(ff.drop_first()));
        assert(pow256(n) == 256 * pow256((n - 1) as nat));
    } else {
        assert(pow256(0) == 1);
    }
}

/// The target of the first blocks.
pub fn genesis_target() -> (r: Target)
    ensures
        r@ == genesis_target_spec(),
{
    let mut t: Target = [0xffu8; 32];
    t[0] = 0u8;
    t[1] = 0x3fu8;
    assert(t@ =~= genesis_target_spec());
    t
}

/// The target for the next block, from the timestamps of the first and
/// last block of the sampling window and the latest target; the genesis
/// target while the window is not full.
pub fn calculate_target(prev: &Target, sample_start: Option<u128>, sample_end: Option<u128>) -> (r:
    Target)
    ensures
        be_value(r@) == target_value(prev@, sample_start, sample_end),
{
    let (start, end) = match (sample_start, sample_end) {
        (Some(s), Some(e)) => (s, e),
        _ => {
            let g = genesis_target();
            return g;
        },
    };
    let elapsed: u128 = if end >= start { end - start } else { 0 };
    let m: u128 = if elapsed < SAMPLE_EXPECTED_MS / 4 {
        SAMPLE_EXPECTED_MS / 4
    } else if elapsed > SAMPLE_EXPECTED_MS * 4 {
        SAMPLE_EXPECTED_MS * 4
    } else {
        elapsed
    };
    assert(m == elapsed_factor(start, end));
    let mut wide: Vec<u8> = Vec::new();
    wide.push(0u8);
    wide.push(0u8);
    wide.push(0u8);
    wide.push(0u8);
    push_bytes(&mut wide, prev.as_slice());
    proof {
        lemma_be_value_split(wide@, 4);
        assert(wide@.take(4) =~= Seq::new(4, |i: int| 0u8));
        lemma_be_value_zeros(4);
        assert(wide@.skip(4) =~= prev@);
        lemma_be_value_bound(prev@);
        lemma_pow256_add(32, 5);
        assert(pow256(5) == 1099511627776) by {
            reveal_with_fuel(pow256, 6);
        }
        assert(be_value(wide@) * m < pow256(37)) by (nonlinear_arith)
            requires
                be_value(wide@) < pow256(32),
                m <= 400000,
                pow256(32) * 1099511627776 == pow256(37),
        ;
    }
    let prod = mul_small(&wide, m as u32);
    let quot = div_small(&prod, SAMPLE_EXPECTED_MS as u32);
    let ghost v = be_value(prev@) * m / (SAMPLE_EXPECTED_MS as int);
    assert(be_value(quot@) == v);
    proof {
        lemma_be_value_split(quot@, 5);
    }
    let mut high_zero = true;
    let mut i: usize = 0;
    while i < 5
        invariant
            quot@.len() == 37,
            0 <= i <= 5,
            high_zero == (forall|j: int| 0 <= j < i ==> quot@[j] == 0u8),
        decreases 5 - i,
    {
        if quot[i] != 0 {
            high_zero = false;
        }
        i = i + 1;
    }
    if !high_zero {
        proof {
            let j = choose|j: int| 0 <= j < 5 && quot@[j] != 0u8;
            let hi = quot@.take(5);
            assert(hi[j] != 0u8);
            assert(be_value(hi) >= 1) by {
                if be_value(hi) == 0 {
                    lemma_be_value_nonzero(hi, j);
                }
            }
            lemma_be_value_ones(32);
            assert(be_value(hi) * pow256(32) >= pow256(32)) by (nonlinear_arith)
                requires
                    be_value(hi) >= 1,
            ;
        }
        let t: Target = [0xffu8; 32];
        assert(t@ =~= Seq::new(32, |i: int| 0xffu8));
        return t;
    }
    let mut out: Target = [0u8; 32];
    let mut k: usize = 0;
    while k < 32
        invariant
            quot@.len() == 37,
            0 <= k <= 32,
            forall|j: int| 0 <= j < k ==> out@[j] == quot@[j + 5],
        decreases 32 - k,
    {
        out[k] = quot[k + 5];
        k = k + 1;
    }
    proof {
        assert(out@ =~= quot@.skip(5));
        assert(quot@.take(5) =~= Seq::new(5, |i: int| 0u8));
        lemma_be_value_zeros(5);
        lemma_be_value_bound(out@);
    }
    out
}

proof fn lemma_be_value_nonzero(s: Seq<u8>, j: int)
    requires
        0 <= j < s.len(),
        s[j] != 0u8,
    ensures
        be_value(s) >= 1,
    decreases s.len(),
{
    lemma_pow256_pos((s.len() - 1) as nat);
    if j == 0 {
        assert(s[0] as nat * pow256((s.len() - 1) as nat) >= 1) by (nonlinear_arith)
            requires
                s[0] >= 1,
                pow256((s.len() - 1) as nat) >= 1,
        ;
    } else {
        lemma_be_value_nonzero(s.drop_first(), j - 1);
    }
}

} // verus!
