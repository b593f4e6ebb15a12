//! Reading the canonical encoding back: each reader returns the value and
//! the position after it, and finds a value wherever its encoding stands.
use vstd::prelude::*;
use crate::block::{enc_block, enc_hashes, enc_page, enc_pages, enc_transactions, Block, BlockV};
use crate::config::Hash256;
use crate::encoding::{enc_i64, enc_u128, enc_u32, enc_u64, from_bits, i64_bits};
use crate::page::{Page, PageV};
use crate::transaction::{enc_header, enc_transaction, Transaction, TransactionHeader};

verus! {

/// Whether `e` stands in `b` from `pos` on.
#[verifier::opaque]
pub open spec fn is_at(b: Seq<u8>, pos: int, e: Seq<u8>) -> bool {
    0 <= pos && pos + e.len() <= b.len() && b.subrange(pos, pos + e.len()) == e
}

proof fn lemma_enc_u64_injective(x: u64, y: u64)
    requires
        enc_u64(x) == enc_u64(y),
    ensures
        x == y,
{
    reveal(is_at);
    assert(enc_u64(x)[0] == enc_u64(y)[0]);
    assert(enc_u64(x)[1] == enc_u64(y)[1]);
    assert(enc_u64(x)[2] == enc_u64(y)[2]);
    assert(enc_u64(x)[3] == enc_u64(y)[3]);
    assert(enc_u64(x)[4] == enc_u64(y)[4]);
    assert(enc_u64(x)[5] == enc_u64(y)[5]);
    assert(enc_u64(x)[6] == enc_u64(y)[6]);
    assert(enc_u64(x)[7] == enc_u64(y)[7]);
    assert(x == y) by (bit_vector)
        requires
            x as u8 == y as u8,
            (x >> 8u64) as u8 == (y >> 8u64) as u8,
            (x >> 16u64) as u8 == (y >> 16u64) as u8,
            (x >> 24u64) as u8 == (y >> 24u64) as u8,
            (x >> 32u64) as u8 == (y >> 32u64) as u8,
            (x >> 40u64) as u8 == (y >> 40u64) as u8,
            (x >> 48u64) as u8 == (y >> 48u64) as u8,
            (x >> 56u64) as u8 == (y >> 56u64) as u8,
    ;
}

proof fn lemma_enc_u32_injective(x: u32, y: u32)
    requires
        enc_u32(x) == enc_u32(y),
    ensures
        x == y,
{
    reveal(is_at);
    assert(enc_u32(x)[0] == enc_u32(y)[0]);
    assert(enc_u32(x)[1] == enc_u32(y)[1]);
    assert(enc_u32(x)[2] == enc_u32(y)[2]);
    assert(enc_u32(x)[3] == enc_u32(y)[3]);
    assert(x == y) by (bit_vector)
        requires
            x as u8 == y as u8,
            (x >> 8u32) as u8 == (y >> 8u32) as u8,
            (x >> 16u32) as u8 == (y >> 16u32) as u8,
            (x >> 24u32) as u8 == (y >> 24u32) as u8,
    ;
}

/// Reads a `u64` at `pos`.
pub fn read_u64(b: &[u8], pos: usize) -> (r: Option<(u64, usize)>)
    ensures
        r matches Some((v, end)) ==> end == pos + 8 && is_at(b@, pos as int, enc_u64(v)),
        forall|w: u64| #[trigger] is_at(b@, pos as int, enc_u64(w)) ==> r == Some((w, (pos + 8) as usize)),
{
    proof {
        reveal(is_at);
    }
    if pos > b.len() || b.len() - pos < 8 {
        return None;
    }
    let b0 = b[pos];
    let b1 = b[pos + 1];
    let b2 = b[pos + 2];
    let b3 = b[pos + 3];
    let b4 = b[pos + 4];
    let b5 = b[pos + 5];
    let b6 = b[pos + 6];
    let b7 = b[pos + 7];
    let v: u64 = (b0 as u64) | ((b1 as u64) << 8u64) | ((b2 as u64) << 16u64) | ((b3 as u64)
        << 24u64) | ((b4 as u64) << 32u64) | ((b5 as u64) << 40u64) | ((b6 as u64) << 48u64) | ((
    b7 as u64) << 56u64);
    assert(v as u8 == b0 && (v >> 8u64) as u8 == b1 && (v >> 16u64) as u8 == b2 && (v >> 24u64)
        as u8 == b3 && (v >> 32u64) as u8 == b4 && (v >> 40u64) as u8 == b5 && (v >> 48u64) as u8
        == b6 && (v >> 56u64) as u8 == b7) by (bit_vector)
        requires
            v == (b0 as u64) | ((b1 as u64) << 8u64) | ((b2 as u64) << 16u64) | ((b3 as u64)
                << 24u64) | ((b4 as u64) << 32u64) | ((b5 as u64) << 40u64) | ((b6 as u64)
                << 48u64) | ((b7 as u64) << 56u64),
    ;
    assert(enc_u64(v) =~= b@.subrange(pos as int, pos + 8));
    proof {
        assert forall|w: u64| #[trigger] is_at(b@, pos as int, enc_u64(w)) implies w == v by {
            lemma_enc_u64_injective(v, w);
        }
    }
    Some((v, pos + 8))
}

/// Reads a `u32` at `pos`.
pub fn read_u32_at(b: &[u8], pos: usize) -> (r: Option<(u32, usize)>)
    ensures
        r matches Some((v, end)) ==> end == pos + 4 && is_at(b@, pos as int, enc_u32(v)),
        forall|w: u32| #[trigger] is_at(b@, pos as int, enc_u32(w)) ==> r == Some((w, (pos + 4) as usize)),
{
    proof {
        reveal(is_at);
    }
    let n = b.len();
    match crate::encoding::read_u32(b, pos) {
        Some(v) => {
            proof {
                assert forall|w: u32| #[trigger] is_at(b@, pos as int, enc_u32(w)) implies w == v by {
                    lemma_enc_u32_injective(v, w);
                }
            }
            Some((v, pos + 4))
        },
        None => None,
    }
}

/// Reads an `i64` at `pos`.
pub fn read_i64(b: &[u8], pos: usize) -> (r: Option<(i64, usize)>)
    ensures
        r matches Some((v, end)) ==> end == pos + 8 && is_at(b@, pos as int, enc_i64(v)),
        forall|w: i64| #[trigger] is_at(b@, pos as int, enc_i64(w)) ==> r == Some((w, (pos + 8) as usize)),
{
    proof {
        reveal(is_at);
    }
    match read_u64(b, pos) {
        Some((u, end)) => {
            let v = from_bits(u);
            proof {
                assert forall|w: i64| #[trigger] is_at(b@, pos as int, enc_i64(w)) implies w == v by {
                    assert(is_at(b@, pos as int, enc_u64(i64_bits(w))));
                    assert(i64_bits(w) == u);
                }
            }
            Some((v, end))
        },
        None => {
            proof {
                assert forall|w: i64| #[trigger] is_at(b@, pos as int, enc_i64(w)) implies false by {
                    assert(is_at(b@, pos as int, enc_u64(i64_bits(w))));
                }
            }
            None
        },
    }
}

/// Reads a `u128` at `pos`.
pub fn read_u128(b: &[u8], pos: usize) -> (r: Option<(u128, usize)>)
    ensures
        r matches Some((v, end)) ==> end == pos + 16 && is_at(b@, pos as int, enc_u128(v)),
        forall|w: u128| #[trigger] is_at(b@, pos as int, enc_u128(w)) ==> r == Some((w, (pos + 16) as usize)),
{
    proof {
        reveal(is_at);
    }
    let (lo, mid) = match read_u64(b, pos) {
        Some(x) => x,
        None => {
            proof {
                assert forall|w: u128| #[trigger] is_at(b@, pos as int, enc_u128(w)) implies false by {
                    let e = enc_u128(w);
                    assert(b@.subrange(pos as int, pos + 8) =~= e.subrange(0, 8));
                    assert(e.subrange(0, 8) =~= enc_u64(w as u64));
                    assert(is_at(b@, pos as int, enc_u64(w as u64)));
                }
            }
            return None;
        },
    };
    let (hi, end) = match read_u64(b, mid) {
        Some(x) => x,
        None => {
            proof {
                assert forall|w: u128| #[trigger] is_at(b@, pos as int, enc_u128(w)) implies false by {
                    let e = enc_u128(w);
                    assert(b@.subrange(pos + 8, pos + 16) =~= e.subrange(8, 16));
                    assert(e.subrange(8, 16) =~= enc_u64((w >> 64u128) as u64));
                    assert(is_at(b@, mid as int, enc_u64((w >> 64u128) as u64)));
                }
            }
            return None;
        },
    };
    let v: u128 = (lo as u128) | ((hi as u128) << 64u128);
    assert(v as u64 == lo && (v >> 64u128) as u64 == hi) by (bit_vector)
        requires
            v == (lo as u128) | ((hi as u128) << 64u128),
    ;
    assert(enc_u128(v) =~= b@.subrange(pos as int, pos + 16));
    proof {
        assert forall|w: u128| #[trigger] is_at(b@, pos as int, enc_u128(w)) implies w == v by {
            let e = enc_u128(w);
            assert(b@.subrange(pos as int, pos + 8) =~= e.subrange(0, 8));
            assert(e.subrange(0, 8) =~= enc_u64(w as u64));
            assert(is_at(b@, pos as int, enc_u64(w as u64)));
            assert(b@.subrange(pos + 8, pos + 16) =~= e.subrange(8, 16));
            assert(e.subrange(8, 16) =~= enc_u64((w >> 64u128) as u64));
            assert(is_at(b@, mid as int, enc_u64((w >> 64u128) as u64)));
            let wl = w as u64;
            let wh = (w >> 64u128) as u64;
            assert(w == v) by (bit_vector)
                requires
                    v == (lo as u128) | ((hi as u128) << 64u128),
                    wl == w as u64,
                    wh == (w >> 64u128) as u64,
                    wl == lo,
                    wh == hi,
            ;
        }
    }
    Some((v, end))
}

/// Reads `N` bytes at `pos` into an array.
pub fn read_array<const N: usize>(b: &[u8], pos: usize) -> (r: Option<([u8; N], usize)>)
    ensures
        r matches Some((v, end)) ==> end == pos + N && is_at(b@, pos as int, v@),
        forall|w: [u8; N]| #[trigger] is_at(b@, pos as int, w@) ==> r == Some((w, (pos + N) as usize)),
{
    proof {
        reveal(is_at);
    }
    if pos > b.len() || b.len() - pos < N {
        proof {
            assert forall|w: [u8; N]| #[trigger] is_at(b@, pos as int, w@) implies false by {
                assert(w@.len() == N);
            }
        }
        return None;
    }
    let n = b.len();
    let mut out = [0u8; N];
    let mut i: usize = 0;
    while i < N
        invariant
            0 <= i <= N,
            n == b@.len(),
            pos + N <= n,
            out@.len() == N,
            forall|j: int| 0 <= j < i ==> out@[j] == b@[pos + j],
        decreases N - i,
    {
        out[i] = b[pos + i];
        i = i + 1;
    }
    assert(out@ =~= b@.subrange(pos as int, pos + N));
    proof {
        broadcast use vstd::array::group_array_axioms;

        assert forall|w: [u8; N]| #[trigger] is_at(b@, pos as int, w@) implies w == out by {
            assert(w@ =~= out@);
            assert(w =~= out);
        }
    }
    Some((out, pos + N))
}

proof fn lemma_is_at_len(b: Seq<u8>, pos: int, e: Seq<u8>)
    ensures
        is_at(b, pos, e) ==> 0 <= pos && pos + e.len() <= b.len(),
{
    reveal(is_at);
}

proof fn lemma_is_at_concat(b: Seq<u8>, pos: int, x: Seq<u8>, y: Seq<u8>)
    ensures
        is_at(b, pos, x + y) ==> is_at(b, pos, x) && is_at(b, pos + x.len(), y),
        is_at(b, pos, x) && is_at(b, pos + x.len(), y) ==> is_at(b, pos, x + y),
{
    reveal(is_at);
    if is_at(b, pos, x + y) {
        assert((x + y).subrange(0, x.len() as int) =~= x);
        assert((x + y).subrange(x.len() as int, (x.len() + y.len()) as int) =~= y);
        assert(b.subrange(pos, pos + x.len()) =~= (x + y).subrange(0, x.len() as int));
        assert(b.subrange(pos + x.len(), pos + x.len() + y.len()) =~= (x + y).subrange(
            x.len() as int,
            (x.len() + y.len()) as int,
        ));
    }
    if is_at(b, pos, x) && is_at(b, pos + x.len(), y) {
        assert(b.subrange(pos, pos + (x + y).len()) =~= x + y);
    }
}

proof fn lemma_header_parts(b: Seq<u8>, pos: int, w: TransactionHeader)
    ensures
        is_at(b, pos, enc_header(w)) <==> (is_at(b, pos, enc_u32(w.id)) && is_at(b, pos + 4, w.from@)
            && is_at(b, pos + 260, w.to@) && is_at(b, pos + 292, enc_i64(w.amount)) && is_at(
            b,
            pos + 300,
            enc_i64(w.transaction_fee),
        )),
{
    reveal(is_at);
    let a = enc_u32(w.id);
    let f = w.from@;
    let t = w.to@;
    let m = enc_i64(w.amount);
    let e = enc_i64(w.transaction_fee);
    lemma_is_at_concat(b, pos, a + f + t + m, e);
    lemma_is_at_concat(b, pos, a + f + t, m);
    lemma_is_at_concat(b, pos, a + f, t);
    lemma_is_at_concat(b, pos, a, f);
}

/// Reads a transaction header at `pos`.
pub fn read_header(b: &[u8], pos: usize) -> (r: Option<(TransactionHeader, usize)>)
    ensures
        r matches Some((h, end)) ==> end == pos + enc_header(h).len() && is_at(
            b@,
            pos as int,
            enc_header(h),
        ),
        forall|w: TransactionHeader| #[trigger] is_at(b@, pos as int, enc_header(w)) ==> r == Some(
            (w, (pos + enc_header(w).len()) as usize),
        ),
{
    proof {
        reveal(is_at);
    }
    let (id, at1) = match read_u32_at(b, pos) {
        Some(x) => x,
        None => {
            proof {
                assert forall|w: TransactionHeader| #[trigger] is_at(b@, pos as int, enc_header(w)) implies false by {
                    lemma_header_parts(b@, pos as int, w);
                }
            }
            return None;
        },
    };
    let (from, at2) = match read_array::<256>(b, at1) {
        Some(x) => x,
        None => {
            proof {
                assert forall|w: TransactionHeader| #[trigger] is_at(b@, pos as int, enc_header(w)) implies false by {
                    lemma_header_parts(b@, pos as int, w);
                }
            }
            return None;
        },
    };
    let (to, at3) = match read_array::<32>(b, at2) {
        Some(x) => x,
        None => {
            proof {
                assert forall|w: TransactionHeader| #[trigger] is_at(b@, pos as int, enc_header(w)) implies false by {
                    lemma_header_parts(b@, pos as int, w);
                }
            }
            return None;
        },
    };
    let (amount, at4) = match read_i64(b, at3) {
        Some(x) => x,
        None => {
            proof {
                assert forall|w: TransactionHeader| #[trigger] is_at(b@, pos as int, enc_header(w)) implies false by {
                    lemma_header_parts(b@, pos as int, w);
                }
            }
            return None;
        },
    };
    let (transaction_fee, at5) = match read_i64(b, at4) {
        Some(x) => x,
        None => {
            proof {
                assert forall|w: TransactionHeader| #[trigger] is_at(b@, pos as int, enc_header(w)) implies false by {
                    lemma_header_parts(b@, pos as int, w);
                }
            }
            return None;
        },
    };
    let h = TransactionHeader { id, from, to, amount, transaction_fee };
    proof {
        lemma_header_parts(b@, pos as int, h);
        assert forall|w: TransactionHeader| #[trigger] is_at(b@, pos as int, enc_header(w)) implies w == h by {
            lemma_header_parts(b@, pos as int, w);
        }
    }
    Some((h, at5))
}

proof fn lemma_is_at_prefix(b: Seq<u8>, pos: int, x: Seq<u8>, y: Seq<u8>)
    requires
        is_at(b, pos, x),
        y.len() <= x.len(),
        x.subrange(0, y.len() as int) == y,
    ensures
        is_at(b, pos, y),
{
    reveal(is_at);
    assert(b.subrange(pos, pos + y.len()) =~= x.subrange(0, y.len() as int));
}

proof fn lemma_transaction_parts(b: Seq<u8>, pos: int, w: Transaction)
    ensures
        is_at(b, pos, enc_transaction(w)) <==> (is_at(b, pos, enc_header(w.header)) && is_at(
            b,
            pos + 308,
            w.signature@,
        ) && is_at(b, pos + 564, w.e@)),
{
    reveal(is_at);
    lemma_is_at_concat(b, pos, enc_header(w.header) + w.signature@, w.e@);
    lemma_is_at_concat(b, pos, enc_header(w.header), w.signature@);
}

/// Reads a transfer at `pos`.
pub fn read_transaction(b: &[u8], pos: usize) -> (r: Option<(Transaction, usize)>)
    ensures
        r matches Some((t, end)) ==> end == pos + enc_transaction(t).len() && is_at(
            b@,
            pos as int,
            enc_transaction(t),
        ),
        forall|w: Transaction| #[trigger] is_at(b@, pos as int, enc_transaction(w)) ==> r == Some(
            (w, (pos + enc_transaction(w).len()) as usize),
        ),
{
    proof {
        reveal(is_at);
    }
    let (header, at1) = match read_header(b, pos) {
        Some(x) => x,
        None => {
            proof {
                assert forall|w: Transaction| #[trigger] is_at(b@, pos as int, enc_transaction(w)) implies false by {
                    lemma_transaction_parts(b@, pos as int, w);
                }
            }
            return None;
        },
    };
    let (signature, at2) = match read_array::<256>(b, at1) {
        Some(x) => x,
        None => {
            proof {
                assert forall|w: Transaction| #[trigger] is_at(b@, pos as int, enc_transaction(w)) implies false by {
                    lemma_transaction_parts(b@, pos as int, w);
                }
            }
            return None;
        },
    };
    let (e, at3) = match read_array::<3>(b, at2) {
        Some(x) => x,
        None => {
            proof {
                assert forall|w: Transaction| #[trigger] is_at(b@, pos as int, enc_transaction(w)) implies false by {
                    lemma_transaction_parts(b@, pos as int, w);
                }
            }
            return None;
        },
    };
    let t = Transaction { header, signature, e };
    proof {
        lemma_transaction_parts(b@, pos as int, t);
        assert forall|w: Transaction| #[trigger] is_at(b@, pos as int, enc_transaction(w)) implies w == t by {
            lemma_transaction_parts(b@, pos as int, w);
        }
    }
    Some((t, at3))
}

proof fn lemma_hashes_prefix(w: Seq<Hash256>, j: int)
    requires
        0 <= j <= w.len(),
    ensures
        enc_hashes(w.take(j)).len() <= enc_hashes(w).len(),
        enc_hashes(w).subrange(0, enc_hashes(w.take(j)).len() as int) == enc_hashes(w.take(j)),
        enc_hashes(w).len() == 32 * w.len(),
    decreases w.len(),
{
    reveal(is_at);
    if w.len() == 0 {
        assert(w.take(j) =~= w);
        assert(enc_hashes(w).subrange(0, 0) =~= enc_hashes(w));
    } else if j == w.len() {
        assert(w.take(j) =~= w);
        assert(enc_hashes(w).subrange(0, enc_hashes(w).len() as int) =~= enc_hashes(w));
        lemma_hashes_prefix(w.drop_last(), 0);
    } else {
        lemma_hashes_prefix(w.drop_last(), j);
        assert(w.drop_last().take(j) =~= w.take(j));
        let x = enc_hashes(w.take(j));
        let d = enc_hashes(w.drop_last());
        assert(enc_hashes(w) == d + w.last()@);
        assert((d + w.last()@).subrange(0, x.len() as int) =~= d.subrange(0, x.len() as int));
    }
}

/// Reads `count` hashes at `pos`.
pub fn read_hashes(b: &[u8], pos: usize, count: u64) -> (r: Option<(Vec<Hash256>, usize)>)
    ensures
        r matches Some((v, end)) ==> v@.len() == count && end == pos + enc_hashes(v@).len()
            && is_at(b@, pos as int, enc_hashes(v@)),
        forall|w: Seq<Hash256>|
            w.len() == count && #[trigger] is_at(b@, pos as int, enc_hashes(w)) ==> r is Some
                && (r->0).0@ == w,
{
    proof {
        reveal(is_at);
    }
    if pos > b.len() {
        return None;
    }
    let mut out: Vec<Hash256> = Vec::new();
    let mut cur = pos;
    let mut k: u64 = 0;
    assert(b@.subrange(pos as int, pos as int) =~= enc_hashes(out@));
    while k < count
        invariant
            0 <= k <= count,
            out@.len() == k,
            pos <= cur,
            cur == pos + enc_hashes(out@).len(),
            is_at(b@, pos as int, enc_hashes(out@)),
            forall|w: Seq<Hash256>|
                w.len() == count && #[trigger] is_at(b@, pos as int, enc_hashes(w)) ==> out@
                    == w.take(k as int),
        decreases count - k,
    {
        let ghost before = out@;
        match read_array::<32>(b, cur) {
            Some((h, next)) => {
                proof {
                    assert forall|w: Seq<Hash256>|
                        w.len() == count && #[trigger] is_at(b@, pos as int, enc_hashes(w)) implies w[k as int] == h by {
                        lemma_hashes_prefix(w, k + 1);
                        assert(w.take(k + 1).drop_last() =~= w.take(k as int));
                        lemma_is_at_prefix(b@, pos as int, enc_hashes(w), enc_hashes(w.take(k + 1)));
                        lemma_is_at_concat(b@, pos as int, enc_hashes(w.take(k as int)), w[k as int]@);
                    }
                }
                out.push(h);
                cur = next;
                proof {
                    lemma_is_at_concat(b@, pos as int, enc_hashes(before), h@);
                    assert(out@.drop_last() =~= before);
                    assert forall|w: Seq<Hash256>|
                        w.len() == count && #[trigger] is_at(b@, pos as int, enc_hashes(w)) implies out@
                            == w.take(k + 1) by {
                        assert(out@ =~= w.take(k + 1));
                    }
                }
            },
            None => {
                proof {
                    assert forall|w: Seq<Hash256>|
                        w.len() == count && #[trigger] is_at(b@, pos as int, enc_hashes(w)) implies false by {
                        lemma_hashes_prefix(w, k + 1);
                        assert(w.take(k + 1).drop_last() =~= w.take(k as int));
                        lemma_is_at_prefix(b@, pos as int, enc_hashes(w), enc_hashes(w.take(k + 1)));
                        lemma_is_at_concat(b@, pos as int, enc_hashes(w.take(k as int)), w[k as int]@);
                    }
                }
                return None;
            },
        }
        k = k + 1;
    }
    proof {
        assert forall|w: Seq<Hash256>|
            w.len() == count && #[trigger] is_at(b@, pos as int, enc_hashes(w)) implies out@ == w by {
            assert(w.take(count as int) =~= w);
        }
    }
    Some((out, cur))
}

proof fn lemma_page_parts(b: Seq<u8>, pos: int, w: PageV)
    ensures
        is_at(b, pos, enc_page(w)) <==> (is_at(b, pos, enc_u32(w.id)) && is_at(b, pos + 4, w.site@)
            && is_at(b, pos + 36, enc_u64(w.data_hashes.len() as u64)) && is_at(
            b,
            pos + 44,
            enc_hashes(w.data_hashes),
        ) && is_at(b, pos + 44 + enc_hashes(w.data_hashes).len(), enc_u32(w.data_length)) && is_at(
            b,
            pos + 48 + enc_hashes(w.data_hashes).len(),
            enc_i64(w.fee),
        )),
{
    reveal(is_at);
    let a = enc_u32(w.id);
    let s = w.site@;
    let c = enc_u64(w.data_hashes.len() as u64);
    let h = enc_hashes(w.data_hashes);
    let d = enc_u32(w.data_length);
    let f = enc_i64(w.fee);
    lemma_is_at_concat(b, pos, a + s + c + h + d, f);
    lemma_is_at_concat(b, pos, a + s + c + h, d);
    lemma_is_at_concat(b, pos, a + s + c, h);
    lemma_is_at_concat(b, pos, a + s, c);
    lemma_is_at_concat(b, pos, a, s);
}

/// Reads a page at `pos`.
pub fn read_page(b: &[u8], pos: usize) -> (r: Option<(Page, usize)>)
    ensures
        r matches Some((p, end)) ==> end == pos + enc_page(p@).len() && is_at(
            b@,
            pos as int,
            enc_page(p@),
        ),
        forall|w: PageV| #[trigger] is_at(b@, pos as int, enc_page(w)) ==> r is Some && (r->0).0@
            == w && (r->0).1 == pos + enc_page(w).len(),
{
    proof {
        reveal(is_at);
    }
    let n = b.len();
    let (id, at1) = match read_u32_at(b, pos) {
        Some(x) => x,
        None => {
            proof {
                assert forall|w: PageV| #[trigger] is_at(b@, pos as int, enc_page(w)) implies false by {
                    lemma_page_parts(b@, pos as int, w); lemma_hashes_prefix(w.data_hashes, 0);
                }
            }
            return None;
        },
    };
    let (site, at2) = match read_array::<32>(b, at1) {
        Some(x) => x,
        None => {
            proof {
                assert forall|w: PageV| #[trigger] is_at(b@, pos as int, enc_page(w)) implies false by {
                    lemma_page_parts(b@, pos as int, w); lemma_hashes_prefix(w.data_hashes, 0);
                }
            }
            return None;
        },
    };
    let (count, at3) = match read_u64(b, at2) {
        Some(x) => x,
        None => {
            proof {
                assert forall|w: PageV| #[trigger] is_at(b@, pos as int, enc_page(w)) implies false by {
                    lemma_page_parts(b@, pos as int, w); lemma_hashes_prefix(w.data_hashes, 0);
                }
            }
            return None;
        },
    };
    proof {
        assert forall|w: PageV| #[trigger] is_at(b@, pos as int, enc_page(w)) implies w.data_hashes.len()
            == count by {
            lemma_page_parts(b@, pos as int, w);
            lemma_hashes_prefix(w.data_hashes, 0);
        }
    }
    let (data_hashes, at4) = match read_hashes(b, at3, count) {
        Some(x) => x,
        None => {
            proof {
                assert forall|w: PageV| #[trigger] is_at(b@, pos as int, enc_page(w)) implies false by {
                    lemma_page_parts(b@, pos as int, w); lemma_hashes_prefix(w.data_hashes, 0);
                }
            }
            return None;
        },
    };
    let (data_length, at5) = match read_u32_at(b, at4) {
        Some(x) => x,
        None => {
            proof {
                assert forall|w: PageV| #[trigger] is_at(b@, pos as int, enc_page(w)) implies false by {
                    lemma_page_parts(b@, pos as int, w); lemma_hashes_prefix(w.data_hashes, 0);
                }
            }
            return None;
        },
    };
    let (fee, at6) = match read_i64(b, at5) {
        Some(x) => x,
        None => {
            proof {
                assert forall|w: PageV| #[trigger] is_at(b@, pos as int, enc_page(w)) implies false by {
                    lemma_page_parts(b@, pos as int, w); lemma_hashes_prefix(w.data_hashes, 0);
                }
            }
            return None;
        },
    };
    let page = Page { id, site, data_hashes, data_length, fee };
    proof {
        lemma_page_parts(b@, pos as int, page@);
        assert forall|w: PageV| #[trigger] is_at(b@, pos as int, enc_page(w)) implies page@ == w by {
            lemma_page_parts(b@, pos as int, w);
            lemma_hashes_prefix(w.data_hashes, 0);
        }
    }
    Some((page, at6))
}

/// The values of a list of pages.
pub open spec fn page_views(s: Seq<Page>) -> Seq<PageV> {
    s.map_values(|p: Page| p@)
}

/// A list of transfers, as it is.
pub open spec fn same_transactions(s: Seq<Transaction>) -> Seq<Transaction> {
    s
}

proof fn lemma_pages_prefix(w: Seq<PageV>, j: int)
    requires
        0 <= j <= w.len(),
    ensures
        enc_pages(w.take(j)).len() <= enc_pages(w).len(),
        enc_pages(w).subrange(0, enc_pages(w.take(j)).len() as int) == enc_pages(w.take(j)),
        enc_pages(w).len() >= w.len(),
    decreases w.len(),
{
    reveal(is_at);
    if w.len() == 0 {
        assert(w.take(j) =~= w);
        assert(enc_pages(w).subrange(0, 0) =~= enc_pages(w));
    } else if j == w.len() {
        assert(w.take(j) =~= w);
        assert(enc_pages(w).subrange(0, enc_pages(w).len() as int) =~= enc_pages(w));
        lemma_pages_prefix(w.drop_last(), 0);
        assert(enc_page(w.last()).len() >= 1);
    } else {
        lemma_pages_prefix(w.drop_last(), j);
        assert(w.drop_last().take(j) =~= w.take(j));
        let x = enc_pages(w.take(j));
        let d = enc_pages(w.drop_last());
        assert(enc_pages(w) == d + enc_page(w.last()));
        assert((d + enc_page(w.last())).subrange(0, x.len() as int) =~= d.subrange(0, x.len() as int));
        assert(enc_page(w.last()).len() >= 1);
    }
}

/// Reads `count` pages at `pos`.
pub fn read_pages(b: &[u8], pos: usize, count: u64) -> (r: Option<(Vec<Page>, usize)>)
    ensures
        r matches Some((v, end)) ==> v@.len() == count && end == pos + enc_pages(page_views(v@)).len()
            && is_at(b@, pos as int, enc_pages(page_views(v@))),
        forall|w: Seq<PageV>|
            w.len() == count && #[trigger] is_at(b@, pos as int, enc_pages(w)) ==> r is Some
                && page_views((r->0).0@) == w,
{
    proof {
        reveal(is_at);
    }
    if pos > b.len() {
        return None;
    }
    let mut out: Vec<Page> = Vec::new();
    let mut cur = pos;
    let mut k: u64 = 0;
    assert(page_views(out@) =~= Seq::<PageV>::empty());
    assert(b@.subrange(pos as int, pos as int) =~= enc_pages(page_views(out@)));
    while k < count
        invariant
            0 <= k <= count,
            out@.len() == k,
            pos <= cur,
            cur == pos + enc_pages(page_views(out@)).len(),
            is_at(b@, pos as int, enc_pages(page_views(out@))),
            forall|w: Seq<PageV>|
                w.len() == count && #[trigger] is_at(b@, pos as int, enc_pages(w)) ==> page_views(out@)
                    == w.take(k as int),
        decreases count - k,
    {
        let ghost before = page_views(out@);
        match read_page(b, cur) {
            Some((h, next)) => {
                proof {
                    assert forall|w: Seq<PageV>|
                        w.len() == count && #[trigger] is_at(b@, pos as int, enc_pages(w)) implies w[k as int] == h@ by {
                        lemma_pages_prefix(w, k + 1);
                        assert(w.take(k + 1).drop_last() =~= w.take(k as int));
                        lemma_is_at_prefix(b@, pos as int, enc_pages(w), enc_pages(w.take(k + 1)));
                        lemma_is_at_concat(b@, pos as int, enc_pages(w.take(k as int)), enc_page(w[k as int]));
                    }
                }
                let ghost hv = h@;
                out.push(h);
                cur = next;
                proof {
                    assert(page_views(out@) =~= before.push(hv));
                    lemma_is_at_concat(b@, pos as int, enc_pages(before), enc_page(hv));
                    assert(page_views(out@).drop_last() =~= before);
                    assert forall|w: Seq<PageV>|
                        w.len() == count && #[trigger] is_at(b@, pos as int, enc_pages(w)) implies page_views(out@)
                            == w.take(k + 1) by {
                        assert(page_views(out@) =~= w.take(k + 1));
                    }
                }
            },
            None => {
                proof {
                    assert forall|w: Seq<PageV>|
                        w.len() == count && #[trigger] is_at(b@, pos as int, enc_pages(w)) implies false by {
                        lemma_pages_prefix(w, k + 1);
                        assert(w.take(k + 1).drop_last() =~= w.take(k as int));
                        lemma_is_at_prefix(b@, pos as int, enc_pages(w), enc_pages(w.take(k + 1)));
                        lemma_is_at_concat(b@, pos as int, enc_pages(w.take(k as int)), enc_page(w[k as int]));
                    }
                }
                return None;
            },
        }
        k = k + 1;
    }
    proof {
        assert forall|w: Seq<PageV>|
            w.len() == count && #[trigger] is_at(b@, pos as int, enc_pages(w)) implies page_views(out@) == w by {
            assert(w.take(count as int) =~= w);
        }
    }
    Some((out, cur))
}

proof fn lemma_transactions_prefix(w: Seq<Transaction>, j: int)
    requires
        0 <= j <= w.len(),
    ensures
        enc_transactions(w.take(j)).len() <= enc_transactions(w).len(),
        enc_transactions(w).subrange(0, enc_transactions(w.take(j)).len() as int) == enc_transactions(w.take(j)),
        enc_transactions(w).len() >= w.len(),
    decreases w.len(),
{
    reveal(is_at);
    if w.len() == 0 {
        assert(w.take(j) =~= w);
        assert(enc_transactions(w).subrange(0, 0) =~= enc_transactions(w));
    } else if j == w.len() {
        assert(w.take(j) =~= w);
        assert(enc_transactions(w).subrange(0, enc_transactions(w).len() as int) =~= enc_transactions(w));
        lemma_transactions_prefix(w.drop_last(), 0);
        assert(enc_transaction(w.last()).len() >= 1);
    } else {
        lemma_transactions_prefix(w.drop_last(), j);
        assert(w.drop_last().take(j) =~= w.take(j));
        let x = enc_transactions(w.take(j));
        let d = enc_transactions(w.drop_last());
        assert(enc_transactions(w) == d + enc_transaction(w.last()));
        assert((d + enc_transaction(w.last())).subrange(0, x.len() as int) =~= d.subrange(0, x.len() as int));
        assert(enc_transaction(w.last()).len() >= 1);
    }
}

/// Reads `count` transactions at `pos`.
pub fn read_transactions(b: &[u8], pos: usize, count: u64) -> (r: Option<(Vec<Transaction>, usize)>)
    ensures
        r matches Some((v, end)) ==> v@.len() == count && end == pos + enc_transactions(same_transactions(v@)).len()
            && is_at(b@, pos as int, enc_transactions(same_transactions(v@))),
        forall|w: Seq<Transaction>|
            w.len() == count && #[trigger] is_at(b@, pos as int, enc_transactions(w)) ==> r is Some
                && same_transactions((r->0).0@) == w,
{
    proof {
        reveal(is_at);
    }
    if pos > b.len() {
        return None;
    }
    let mut out: Vec<Transaction> = Vec::new();
    let mut cur = pos;
    let mut k: u64 = 0;
    assert(same_transactions(out@) =~= Seq::<Transaction>::empty());
    assert(b@.subrange(pos as int, pos as int) =~= enc_transactions(same_transactions(out@)));
    while k < count
        invariant
            0 <= k <= count,
            out@.len() == k,
            pos <= cur,
            cur == pos + enc_transactions(same_transactions(out@)).len(),
            is_at(b@, pos as int, enc_transactions(same_transactions(out@))),
            forall|w: Seq<Transaction>|
                w.len() == count && #[trigger] is_at(b@, pos as int, enc_transactions(w)) ==> same_transactions(out@)
                    == w.take(k as int),
        decreases count - k,
    {
        let ghost before = same_transactions(out@);
        match read_transaction(b, cur) {
            Some((h, next)) => {
                proof {
                    assert forall|w: Seq<Transaction>|
                        w.len() == count && #[trigger] is_at(b@, pos as int, enc_transactions(w)) implies w[k as int] == h by {
                        lemma_transactions_prefix(w, k + 1);
                        assert(w.take(k + 1).drop_last() =~= w.take(k as int));
                        lemma_is_at_prefix(b@, pos as int, enc_transactions(w), enc_transactions(w.take(k + 1)));
                        lemma_is_at_concat(b@, pos as int, enc_transactions(w.take(k as int)), enc_transaction(w[k as int]));
                    }
                }
                let ghost hv = h;
                out.push(h);
                cur = next;
                proof {
                    assert(same_transactions(out@) =~= before.push(hv));
                    lemma_is_at_concat(b@, pos as int, enc_transactions(before), enc_transaction(hv));
                    assert(same_transactions(out@).drop_last() =~= before);
                    assert forall|w: Seq<Transaction>|
                        w.len() == count && #[trigger] is_at(b@, pos as int, enc_transactions(w)) implies same_transactions(out@)
                            == w.take(k + 1) by {
                        assert(same_transactions(out@) =~= w.take(k + 1));
                    }
                }
            },
            None => {
                proof {
                    assert forall|w: Seq<Transaction>|
                        w.len() == count && #[trigger] is_at(b@, pos as int, enc_transactions(w)) implies false by {
                        lemma_transactions_prefix(w, k + 1);
                        assert(w.take(k + 1).drop_last() =~= w.take(k as int));
                        lemma_is_at_prefix(b@, pos as int, enc_transactions(w), enc_transactions(w.take(k + 1)));
                        lemma_is_at_concat(b@, pos as int, enc_transactions(w.take(k as int)), enc_transaction(w[k as int]));
                    }
                }
                return None;
            },
        }
        k = k + 1;
    }
    proof {
        assert forall|w: Seq<Transaction>|
            w.len() == count && #[trigger] is_at(b@, pos as int, enc_transactions(w)) implies same_transactions(out@) == w by {
            assert(w.take(count as int) =~= w);
        }
    }
    Some((out, cur))
}

/// The fixed fields at the start of a block's encoding.
pub open spec fn enc_block_front(w: BlockV) -> Seq<u8> {
    w.prev_hash@ + enc_u64(w.block_id) + w.reward_to@
}

/// The fixed fields at the end of a block's encoding.
pub open spec fn enc_block_back(w: BlockV) -> Seq<u8> {
    enc_u128(w.timestamp) + w.target@ + enc_u64(w.pow)
}

proof fn lemma_front_parts(b: Seq<u8>, pos: int, w: BlockV)
    ensures
        is_at(b, pos, enc_block_front(w)) <==> (is_at(b, pos, w.prev_hash@) && is_at(
            b,
            pos + 32,
            enc_u64(w.block_id),
        ) && is_at(b, pos + 40, w.reward_to@)),
{
    reveal(is_at);
    lemma_is_at_concat(b, pos, w.prev_hash@ + enc_u64(w.block_id), w.reward_to@);
    lemma_is_at_concat(b, pos, w.prev_hash@, enc_u64(w.block_id));
}

proof fn lemma_back_parts(b: Seq<u8>, pos: int, w: BlockV)
    ensures
        is_at(b, pos, enc_block_back(w)) <==> (is_at(b, pos, enc_u128(w.timestamp)) && is_at(
            b,
            pos + 16,
            w.target@,
        ) && is_at(b, pos + 48, enc_u64(w.pow))),
{
    reveal(is_at);
    lemma_is_at_concat(b, pos, enc_u128(w.timestamp) + w.target@, enc_u64(w.pow));
    lemma_is_at_concat(b, pos, enc_u128(w.timestamp), w.target@);
}

/// Reads the fields at the start of a block.
fn read_block_front(b: &[u8], pos: usize) -> (r: Option<(Hash256, u64, Hash256, usize)>)
    ensures
        r matches Some((h, id, to, end)) ==> end == pos + 72 && is_at(b@, pos as int, h@ + enc_u64(id) + to@),
        forall|w: BlockV| #[trigger] is_at(b@, pos as int, enc_block_front(w)) ==> r == Some(
            (w.prev_hash, w.block_id, w.reward_to, (pos + 72) as usize),
        ),
{
    proof {
        reveal(is_at);
    }
    let (prev_hash, at1) = match read_array::<32>(b, pos) {
        Some(x) => x,
        None => {
            proof {
                assert forall|w: BlockV| #[trigger] is_at(b@, pos as int, enc_block_front(w)) implies false by {
                    lemma_front_parts(b@, pos as int, w);
                }
            }
            return None;
        },
    };
    let (block_id, at2) = match read_u64(b, at1) {
        Some(x) => x,
        None => {
            proof {
                assert forall|w: BlockV| #[trigger] is_at(b@, pos as int, enc_block_front(w)) implies false by {
                    lemma_front_parts(b@, pos as int, w);
                }
            }
            return None;
        },
    };
    let (reward_to, at3) = match read_array::<32>(b, at2) {
        Some(x) => x,
        None => {
            proof {
                assert forall|w: BlockV| #[trigger] is_at(b@, pos as int, enc_block_front(w)) implies false by {
                    lemma_front_parts(b@, pos as int, w);
                }
            }
            return None;
        },
    };
    proof {
        lemma_is_at_concat(b@, pos as int, prev_hash@, enc_u64(block_id));
        lemma_is_at_concat(b@, pos as int, prev_hash@ + enc_u64(block_id), reward_to@);
        assert forall|w: BlockV| #[trigger] is_at(b@, pos as int, enc_block_front(w)) implies w.prev_hash
            == prev_hash && w.block_id == block_id && w.reward_to == reward_to by {
            lemma_front_parts(b@, pos as int, w);
        }
    }
    Some((prev_hash, block_id, reward_to, at3))
}

/// Reads the fields at the end of a block.
fn read_block_back(b: &[u8], pos: usize) -> (r: Option<(u128, Hash256, u64, usize)>)
    ensures
        r matches Some((ts, t, pow, end)) ==> end == pos + 56 && is_at(
            b@,
            pos as int,
            enc_u128(ts) + t@ + enc_u64(pow),
        ),
        forall|w: BlockV| #[trigger] is_at(b@, pos as int, enc_block_back(w)) ==> r == Some(
            (w.timestamp, w.target, w.pow, (pos + 56) as usize),
        ),
{
    proof {
        reveal(is_at);
    }
    let (timestamp, at1) = match read_u128(b, pos) {
        Some(x) => x,
        None => {
            proof {
                assert forall|w: BlockV| #[trigger] is_at(b@, pos as int, enc_block_back(w)) implies false by {
                    lemma_back_parts(b@, pos as int, w);
                }
            }
            return None;
        },
    };
    let (target, at2) = match read_array::<32>(b, at1) {
        Some(x) => x,
        None => {
            proof {
                assert forall|w: BlockV| #[trigger] is_at(b@, pos as int, enc_block_back(w)) implies false by {
                    lemma_back_parts(b@, pos as int, w);
                }
            }
            return None;
        },
    };
    let (pow, at3) = match read_u64(b, at2) {
        Some(x) => x,
        None => {
            proof {
                assert forall|w: BlockV| #[trigger] is_at(b@, pos as int, enc_block_back(w)) implies false by {
                    lemma_back_parts(b@, pos as int, w);
                }
            }
            return None;
        },
    };
    proof {
        lemma_is_at_concat(b@, pos as int, enc_u128(timestamp), target@);
        lemma_is_at_concat(b@, pos as int, enc_u128(timestamp) + target@, enc_u64(pow));
        assert forall|w: BlockV| #[trigger] is_at(b@, pos as int, enc_block_back(w)) implies w.timestamp
            == timestamp && w.target == target && w.pow == pow by {
            lemma_back_parts(b@, pos as int, w);
        }
    }
    Some((timestamp, target, pow, at3))
}

proof fn lemma_block_parts(b: Seq<u8>, pos: int, w: BlockV)
    ensures
        is_at(b, pos, enc_block(w)) <==> ({
            let pl = enc_pages(w.pages).len();
            let tl = enc_transactions(w.transactions).len();
            &&& is_at(b, pos, enc_block_front(w))
            &&& is_at(b, pos + 72, enc_u64(w.pages.len() as u64))
            &&& is_at(b, pos + 80, enc_pages(w.pages))
            &&& is_at(b, pos + 80 + pl, enc_u64(w.transactions.len() as u64))
            &&& is_at(b, pos + 88 + pl, enc_transactions(w.transactions))
            &&& is_at(b, pos + 88 + pl + tl, enc_block_back(w))
        }),
{
    reveal(is_at);
    let a = enc_block_front(w);
    let e = enc_u64(w.pages.len() as u64);
    let f = enc_pages(w.pages);
    let g = enc_u64(w.transactions.len() as u64);
    let h = enc_transactions(w.transactions);
    let k = enc_block_back(w);
    assert(enc_block(w) =~= a + e + f + g + h + k);
    lemma_is_at_concat(b, pos, a + e + f + g + h, k);
    lemma_is_at_concat(b, pos, a + e + f + g, h);
    lemma_is_at_concat(b, pos, a + e + f, g);
    lemma_is_at_concat(b, pos, a + e, f);
    lemma_is_at_concat(b, pos, a, e);
}

/// Reads a block at `pos`.
#[verifier::rlimit(60)]
pub fn read_block(b: &[u8], pos: usize) -> (r: Option<(Block, usize)>)
    ensures
        r matches Some((blk, end)) ==> end == pos + enc_block(blk@).len() && is_at(
            b@,
            pos as int,
            enc_block(blk@),
        ),
        forall|w: BlockV| #[trigger] is_at(b@, pos as int, enc_block(w)) ==> r is Some && (r->0).0@
            == w && (r->0).1 == pos + enc_block(w).len(),
{
    let n = b.len();
    let (prev_hash, block_id, reward_to, at3) = match read_block_front(b, pos) {
        Some(x) => x,
        None => {
            proof {
                assert forall|w: BlockV| #[trigger] is_at(b@, pos as int, enc_block(w)) implies false by {
                    lemma_block_parts(b@, pos as int, w);
                }
            }
            return None;
        },
    };
    let (np, at4) = match read_u64(b, at3) {
        Some(x) => x,
        None => {
            proof {
                assert forall|w: BlockV| #[trigger] is_at(b@, pos as int, enc_block(w)) implies false by {
                    lemma_block_parts(b@, pos as int, w);
                }
            }
            return None;
        },
    };
    proof {
        assert forall|w: BlockV| #[trigger] is_at(b@, pos as int, enc_block(w)) implies w.pages.len()
            == np by {
            lemma_block_parts(b@, pos as int, w);
            lemma_pages_prefix(w.pages, 0);
            lemma_is_at_len(b@, pos + 80, enc_pages(w.pages));
        }
    }
    let (pages, at5) = match read_pages(b, at4, np) {
        Some(x) => x,
        None => {
            proof {
                assert forall|w: BlockV| #[trigger] is_at(b@, pos as int, enc_block(w)) implies false by {
                    lemma_block_parts(b@, pos as int, w);
                }
            }
            return None;
        },
    };
    let (nt, at6) = match read_u64(b, at5) {
        Some(x) => x,
        None => {
            proof {
                assert forall|w: BlockV| #[trigger] is_at(b@, pos as int, enc_block(w)) implies false by {
                    lemma_block_parts(b@, pos as int, w);
                }
            }
            return None;
        },
    };
    proof {
        assert forall|w: BlockV| #[trigger] is_at(b@, pos as int, enc_block(w)) implies w.transactions.len()
            == nt by {
            lemma_block_parts(b@, pos as int, w);
            lemma_transactions_prefix(w.transactions, 0);
            lemma_is_at_len(
                b@,
                pos + 88 + enc_pages(w.pages).len(),
                enc_transactions(w.transactions),
            );
        }
    }
    let (transactions, at7) = match read_transactions(b, at6, nt) {
        Some(x) => x,
        None => {
            proof {
                assert forall|w: BlockV| #[trigger] is_at(b@, pos as int, enc_block(w)) implies false by {
                    lemma_block_parts(b@, pos as int, w);
                }
            }
            return None;
        },
    };
    let (timestamp, target, pow, at10) = match read_block_back(b, at7) {
        Some(x) => x,
        None => {
            proof {
                assert forall|w: BlockV| #[trigger] is_at(b@, pos as int, enc_block(w)) implies false by {
                    lemma_block_parts(b@, pos as int, w);
                }
            }
            return None;
        },
    };
    let blk = Block { prev_hash, block_id, reward_to, pages, transactions, timestamp, target, pow };
    proof {
        assert(blk@.pages == page_views(pages@));
        lemma_block_parts(b@, pos as int, blk@);
        lemma_front_parts(b@, pos as int, blk@);
        lemma_back_parts(b@, at7 as int, blk@);
        assert forall|w: BlockV| #[trigger] is_at(b@, pos as int, enc_block(w)) implies blk@ == w by {
            lemma_block_parts(b@, pos as int, w);
        }
    }
    Some((blk, at10))
}

/// Decodes a whole byte string as one block. Every block's encoding decodes
/// to that block, and whatever decodes encodes back to the same bytes.
pub fn decode_block(bytes: &[u8]) -> (r: Option<Block>)
    ensures
        r matches Some(blk) ==> enc_block(blk@) == bytes@,
        forall|w: BlockV| #[trigger] enc_block(w) == bytes@ ==> r is Some && r->0@ == w,
{
    proof {
        reveal(is_at);
    }
    match read_block(bytes, 0) {
        Some((blk, end)) => {
            if end == bytes.len() {
                assert(bytes@.subrange(0, end as int) =~= bytes@);
                Some(blk)
            } else {
                proof {
                    assert forall|w: BlockV| #[trigger] enc_block(w) == bytes@ implies false by {
                        assert(bytes@.subrange(0, bytes@.len() as int) =~= bytes@);
                        assert(is_at(bytes@, 0, enc_block(w)));
                    }
                }
                None
            }
        },
        None => {
            proof {
                assert forall|w: BlockV| #[trigger] enc_block(w) == bytes@ implies false by {
                    assert(bytes@.subrange(0, bytes@.len() as int) =~= bytes@);
                    assert(is_at(bytes@, 0, enc_block(w)));
                }
            }
            None
        },
    }
}

/// Decodes a whole byte string as one transfer. Every transfer's encoding
/// decodes to that transfer, and whatever decodes encodes back to the same
/// bytes.
pub fn decode_transaction(bytes: &[u8]) -> (r: Option<Transaction>)
    ensures
        r matches Some(t) ==> enc_transaction(t) == bytes@,
        forall|w: Transaction| #[trigger] enc_transaction(w) == bytes@ ==> r == Some(w),
{
    proof {
        reveal(is_at);
    }
    match read_transaction(bytes, 0) {
        Some((t, end)) => {
            if end == bytes.len() {
                assert(bytes@.subrange(0, end as int) =~= bytes@);
                Some(t)
            } else {
                proof {
                    assert forall|w: Transaction| #[trigger] enc_transaction(w) == bytes@ implies false by {
                        assert(bytes@.subrange(0, bytes@.len() as int) =~= bytes@);
                        assert(is_at(bytes@, 0, enc_transaction(w)));
                    }
                }
                None
            }
        },
        None => {
            proof {
                assert forall|w: Transaction| #[trigger] enc_transaction(w) == bytes@ implies false by {
                    assert(bytes@.subrange(0, bytes@.len() as int) =~= bytes@);
                    assert(is_at(bytes@, 0, enc_transaction(w)));
                }
            }
            None
        },
    }
}

/// The encoding of a transfer.
pub fn encode_transaction(t: &Transaction) -> (r: Vec<u8>)
    ensures
        r@ == enc_transaction(*t),
{
    let mut out: Vec<u8> = Vec::new();
    crate::transaction::push_transaction(&mut out, t);
    assert(out@ =~= enc_transaction(*t));
    out
}

/// The encoding of a block, whatever its size.
pub fn encode_block(b: &Block) -> (r: Vec<u8>)
    ensures
        r@ == enc_block(b@),
{
    let mut out: Vec<u8> = Vec::new();
    crate::block::push_block(&mut out, b);
    assert(out@ =~= enc_block(b@));
    out
}

} // verus!
