//! The decoder for the query-endpoint document.
//!
//! The decoder accepts exactly the canonical wire shape the encoder
//! produces: on success the input is the encoding of the returned
//! snapshot, and every encoded snapshot is decoded back to its value —
//! the round trip is exact.

use vstd::prelude::*;

verus! {

use vstd::utf8::encode_utf8;
use crate::observation::{BleInfo, BleInfoView};
use crate::codec::{
    lit,
    esc,
    esc_byte,
    str_tok,
    hex_digit,
    dec_digits,
    int_tok,
    bytes_items,
    payload_tok,
    fields_tok,
    rec_tok,
    recs_items,
    snapshot_tok,
    views_of,
};

/// Splitting a subrange known to be a concatenation.
proof fn lemma_subrange_cat(s: Seq<u8>, i: int, j: int, a: Seq<u8>, b: Seq<u8>)
    requires
        0 <= i <= j <= s.len(),
        s.subrange(i, j) == a + b,
    ensures
        i + a.len() + b.len() == j,
        s.subrange(i, i + a.len() as int) == a,
        s.subrange(i + a.len() as int, j) == b,
{
    assert(s.subrange(i, j).len() == a.len() + b.len());
    assert(s.subrange(i, i + a.len() as int) =~= a) by {
        assert forall|k: int| 0 <= k < a.len() implies s.subrange(i, i + a.len() as int)[k]
            == a[k] by {
            assert(s.subrange(i, j)[k] == (a + b)[k]);
        }
    }
    assert(s.subrange(i + a.len() as int, j) =~= b) by {
        assert forall|k: int| 0 <= k < b.len() implies s.subrange(i + a.len() as int, j)[k]
            == b[k] by {
            assert(s.subrange(i + a.len() as int, j)[k] == s[i + a.len() + k]);
            assert(s.subrange(i, j)[a.len() + k] == s[i + a.len() + k]);
            assert(s.subrange(i, j)[a.len() + k] == (a + b)[a.len() + k]);
        }
    }
}

/// Joining adjacent subranges.
proof fn lemma_cat_subrange(s: Seq<u8>, i: int, j: int, k: int)
    requires
        0 <= i <= j <= k <= s.len(),
    ensures
        s.subrange(i, k) == s.subrange(i, j) + s.subrange(j, k),
{
    assert(s.subrange(i, k) =~= s.subrange(i, j) + s.subrange(j, k));
}

/// Matches a piece of fixed text. `Some` exactly when the text stands
/// at `i`, and then it consumes exactly that text.
fn parse_lit(bytes: &[u8], i: usize, pat: &str) -> (r: Option<usize>)
    requires
        i <= bytes@.len(),
    ensures
        r matches Some(j) ==> i <= j <= bytes@.len() && j == i + lit(pat).len()
            && bytes@.subrange(i as int, j as int) == lit(pat),
        r is None ==> !(i + lit(pat).len() <= bytes@.len() && bytes@.subrange(
            i as int,
            i + lit(pat).len() as int,
        ) == lit(pat)),
{
    let pb = pat.as_bytes();
    assert(pb@ == lit(pat));
    let n = bytes.len();
    if n - i < pb.len() {
        return None;
    }
    let mut k: usize = 0;
    while k < pb.len()
        invariant
            0 <= k <= pb@.len(),
            n == bytes@.len(),
            i + pb@.len() <= n,
            pb@ == lit(pat),
            bytes@.subrange(i as int, i + k as int) == pb@.subrange(0, k as int),
        decreases pb@.len() - k,
    {
        if bytes[i + k] != pb[k] {
            proof {
                if bytes@.subrange(i as int, i + lit(pat).len() as int) == lit(pat) {
                    assert(bytes@.subrange(i as int, i + lit(pat).len() as int)[k as int]
                        == lit(pat)[k as int]);
                    assert(bytes@[i + k] == pb@[k as int]);
                }
            }
            return None;
        }
        k = k + 1;
        proof {
            assert(bytes@.subrange(i as int, i + k as int) =~= pb@.subrange(0, k as int));
        }
    }
    proof {
        assert(pb@.subrange(0, pb@.len() as int) =~= pb@);
    }
    Some(i + pb.len())
}

/// A decimal digit byte.
pub open spec fn is_digit(b: u8) -> bool {
    0x30 <= b <= 0x39
}

/// The value of a run of digit bytes, most significant first.
pub open spec fn digits_val(s: Seq<u8>) -> int
    decreases s.len(),
{
    if s.len() == 0 {
        0
    } else {
        digits_val(s.drop_last()) * 10 + (s.last() as int - 0x30)
    }
}

/// The canonical digits of `n` evaluate back to `n`, are all digit
/// bytes, and have no leading zero unless they are the single digit of
/// a value below ten.
proof fn lemma_dec_digits_val(n: nat)
    ensures
        digits_val(dec_digits(n)) == n,
        forall|k: int| 0 <= k < dec_digits(n).len() ==> is_digit(#[trigger] dec_digits(n)[k]),
        dec_digits(n).len() >= 1,
        n >= 10 ==> dec_digits(n)[0] > 0x30,
        n < 10 ==> dec_digits(n) == seq![(0x30 + n) as u8],
    decreases n,
{
    if n < 10 {
        let s = dec_digits(n);
        assert(s.len() == 1 && s.last() == (0x30 + n) as u8);
        assert(s.drop_last() =~= Seq::<u8>::empty());
        assert(digits_val(Seq::<u8>::empty()) == 0);
        assert(digits_val(s) == n);
    } else {
        lemma_dec_digits_val(n / 10);
        let s = dec_digits(n);
        let p = dec_digits(n / 10);
        assert(s == p.push((0x30 + (n % 10)) as u8));
        assert(s.drop_last() =~= p);
        assert(digits_val(s) == digits_val(p) * 10 + (n % 10));
        assert(n / 10 * 10 + n % 10 == n);
        if n / 10 >= 10 {
            assert(s[0] == p[0]);
        } else {
            assert(p == seq![(0x30 + (n / 10)) as u8]);
            assert(n / 10 >= 1);
            assert(s[0] == p[0]);
        }
    }
}

/// A nonempty run of digits whose first digit is not zero has a
/// positive value.
proof fn lemma_digits_val_pos(s: Seq<u8>)
    requires
        s.len() >= 1,
        forall|k: int| 0 <= k < s.len() ==> is_digit(#[trigger] s[k]),
        s[0] > 0x30,
    ensures
        digits_val(s) >= 1,
    decreases s.len(),
{
    if s.len() == 1 {
        assert(s.drop_last() =~= Seq::<u8>::empty());
        assert(digits_val(Seq::<u8>::empty()) == 0);
        assert(s.last() == s[0]);
        assert(digits_val(s) == s[0] - 0x30);
    } else {
        let p = s.drop_last();
        assert(p[0] == s[0]);
        assert(forall|k: int| 0 <= k < p.len() ==> is_digit(#[trigger] p[k]));
        lemma_digits_val_pos(p);
    }
}

/// Digit values are never negative.
proof fn lemma_digits_val_nonneg(s: Seq<u8>)
    requires
        forall|k: int| 0 <= k < s.len() ==> is_digit(#[trigger] s[k]),
    ensures
        digits_val(s) >= 0,
    decreases s.len(),
{
    if s.len() > 0 {
        let p = s.drop_last();
        assert(forall|k: int| 0 <= k < p.len() ==> is_digit(#[trigger] p[k]));
        lemma_digits_val_nonneg(p);
    }
}

/// A canonical digit run is the canonical rendering of its value.
proof fn lemma_digits_val_roundtrip(s: Seq<u8>)
    requires
        s.len() >= 1,
        forall|k: int| 0 <= k < s.len() ==> is_digit(#[trigger] s[k]),
        s[0] != 0x30 || s.len() == 1,
    ensures
        digits_val(s) >= 0,
        dec_digits(digits_val(s) as nat) == s,
    decreases s.len(),
{
    lemma_digits_val_nonneg(s);
    if s.len() == 1 {
        let v = digits_val(s);
        assert(s.drop_last() =~= Seq::<u8>::empty());
        assert(digits_val(Seq::<u8>::empty()) == 0);
        assert(s.last() == s[0]);
        assert(v == s[0] - 0x30);
        assert(dec_digits(v as nat) =~= s);
    } else {
        let p = s.drop_last();
        let d = s.last();
        assert(p[0] == s[0]);
        assert(forall|k: int| 0 <= k < p.len() ==> is_digit(#[trigger] p[k]));
        assert(s[0] > 0x30);
        lemma_digits_val_pos(p);
        lemma_digits_val_roundtrip(p);
        let v = digits_val(s);
        let vp = digits_val(p);
        assert(v == vp * 10 + (d - 0x30));
        assert(v / 10 == vp && v % 10 == d - 0x30) by (nonlinear_arith)
            requires
                v == vp * 10 + (d - 0x30),
                0 <= d - 0x30 <= 9,
                vp >= 1,
        ;
        assert(v >= 10);
        assert(dec_digits(v as nat) == dec_digits((v / 10) as nat).push(
            (0x30 + ((v as nat) % 10)) as u8,
        ));
        assert(dec_digits(v as nat) =~= s);
    }
}

/// The value of a prefix of a digit run never exceeds the value of the
/// whole run.
proof fn lemma_digits_val_prefix(s: Seq<u8>, k: int)
    requires
        0 <= k <= s.len(),
        forall|j: int| 0 <= j < s.len() ==> is_digit(#[trigger] s[j]),
    ensures
        digits_val(s.subrange(0, k)) <= digits_val(s),
    decreases s.len() - k,
{
    if k == s.len() {
        assert(s.subrange(0, k) =~= s);
    } else {
        let t = s.subrange(0, k + 1);
        assert(t.drop_last() =~= s.subrange(0, k));
        assert(forall|j: int| 0 <= j < t.len() ==> is_digit(#[trigger] t[j]));
        lemma_digits_val_nonneg(s.subrange(0, k));
        assert(digits_val(t) == digits_val(s.subrange(0, k)) * 10 + (t.last() - 0x30));
        assert(digits_val(s.subrange(0, k)) <= digits_val(t));
        lemma_digits_val_prefix(s, k + 1);
    }
}

proof fn lemma_digits_val_snoc(s: Seq<u8>, d: u8)
    ensures
        digits_val(s.push(d)) == digits_val(s) * 10 + (d - 0x30),
{
    assert(s.push(d).drop_last() =~= s);
    assert(s.push(d).last() == d);
}

/// Parses a canonical unsigned decimal token: `Some((v, j))` consumes
/// exactly the canonical digits of `v` and stops at a non-digit; every
/// canonical digit run for a value up to `u32::MAX`, delimited by a
/// non-digit, is accepted.
fn parse_digits(bytes: &[u8], i: usize) -> (r: Option<(u32, usize)>)
    requires
        i <= bytes@.len(),
    ensures
        r matches Some(p) ==> i < p.1 <= bytes@.len() && bytes@.subrange(i as int, p.1 as int)
            == dec_digits(p.0 as nat) && (p.1 == bytes@.len() || !is_digit(
            bytes@[p.1 as int],
        )),
        forall|m: nat, j2: int|
            (m <= u32::MAX && i <= j2 <= bytes@.len() && bytes@.subrange(i as int, j2)
                == dec_digits(m) && (j2 == bytes@.len() || !is_digit(bytes@[j2]))) ==> (
            r matches Some(p) && p.0 as nat == m && p.1 == j2),
{
    let n = bytes.len();
    let mut j: usize = i;
    let mut acc: u64 = 0;
    while j < n && 0x30 <= bytes[j] && bytes[j] <= 0x39
        invariant
            n == bytes@.len(),
            i <= j <= n,
            acc <= u32::MAX,
            forall|k: int| i <= k < j ==> is_digit(#[trigger] bytes@[k]),
            acc == digits_val(bytes@.subrange(i as int, j as int)),
        decreases n - j,
    {
        let d = bytes[j];
        let acc2: u64 = acc * 10 + ((d - 0x30) as u64);
        proof {
            lemma_digits_val_snoc(bytes@.subrange(i as int, j as int), d);
            assert(bytes@.subrange(i as int, j as int).push(d) =~= bytes@.subrange(
                i as int,
                j + 1,
            ));
            assert(digits_val(bytes@.subrange(i as int, j + 1)) == acc2);
        }
        if acc2 > 0xFFFF_FFFF {
            proof {
                assert forall|m: nat, j2: int|
                    !(m <= u32::MAX && i <= j2 <= bytes@.len() && bytes@.subrange(i as int, j2)
                        == dec_digits(m) && (j2 == bytes@.len() || !is_digit(
                        bytes@[j2],
                    ))) by {
                    if m <= u32::MAX && i <= j2 <= bytes@.len() && bytes@.subrange(i as int, j2)
                        == dec_digits(m) && (j2 == bytes@.len() || !is_digit(bytes@[j2])) {
                        lemma_dec_digits_val(m);
                        // the witness run extends past position j
                        if j2 <= j {
                            if j2 < j {
                                assert(is_digit(bytes@[j2]));
                            } else {
                                assert(bytes@.subrange(i as int, j2)[j - i] == dec_digits(
                                    m,
                                )[j - i]);
                            }
                            assert(false);
                        }
                        // hence the just-read digits are a prefix of the witness run
                        assert(dec_digits(m).subrange(0, j + 1 - i) =~= bytes@.subrange(
                            i as int,
                            j + 1,
                        )) by {
                            assert forall|k: int| 0 <= k < j + 1 - i implies #[trigger] (
                            dec_digits(m).subrange(0, j + 1 - i)[k]) == bytes@.subrange(
                                i as int,
                                j + 1,
                            )[k] by {
                                assert(dec_digits(m)[k] == bytes@.subrange(i as int, j2)[k]);
                            }
                        }
                        lemma_digits_val_prefix(dec_digits(m), j + 1 - i);
                        assert(digits_val(dec_digits(m).subrange(0, j + 1 - i)) == acc2);
                        assert(acc2 <= m);
                        assert(false);
                    }
                }
            }
            return None;
        }
        acc = acc2;
        j = j + 1;
    }
    if j == i {
        proof {
            assert forall|m: nat, j2: int|
                !(m <= u32::MAX && i <= j2 <= bytes@.len() && bytes@.subrange(i as int, j2)
                    == dec_digits(m) && (j2 == bytes@.len() || !is_digit(bytes@[j2]))) by {
                if m <= u32::MAX && i <= j2 <= bytes@.len() && bytes@.subrange(i as int, j2)
                    == dec_digits(m) && (j2 == bytes@.len() || !is_digit(bytes@[j2])) {
                    lemma_dec_digits_val(m);
                    assert(j2 - i >= 1);
                    assert(bytes@.subrange(i as int, j2)[0] == dec_digits(m)[0]);
                    assert(is_digit(bytes@[i as int]));
                    assert(i < n);
                    assert(false);
                }
            }
        }
        return None;
    }
    if bytes[i] == 0x30 && j > i + 1 {
        proof {
            assert forall|m: nat, j2: int|
                !(m <= u32::MAX && i <= j2 <= bytes@.len() && bytes@.subrange(i as int, j2)
                    == dec_digits(m) && (j2 == bytes@.len() || !is_digit(bytes@[j2]))) by {
                if m <= u32::MAX && i <= j2 <= bytes@.len() && bytes@.subrange(i as int, j2)
                    == dec_digits(m) && (j2 == bytes@.len() || !is_digit(bytes@[j2])) {
                    lemma_dec_digits_val(m);
                    assert(bytes@.subrange(i as int, j2)[0] == dec_digits(m)[0]);
                    assert(dec_digits(m)[0] == 0x30);
                    assert(m < 10);
                    assert(j2 == i + 1);
                    assert(is_digit(bytes@[i + 1]));
                    assert(false);
                }
            }
        }
        return None;
    }
    let v = acc as u32;
    proof {
        let consumed = bytes@.subrange(i as int, j as int);
        assert(consumed[0] == bytes@[i as int]);
        lemma_digits_val_roundtrip(consumed);
        assert(dec_digits(acc as nat) == consumed);
        assert(v as nat == acc as nat);
        assert forall|m: nat, j2: int|
            (m <= u32::MAX && i <= j2 <= bytes@.len() && bytes@.subrange(i as int, j2)
                == dec_digits(m) && (j2 == bytes@.len() || !is_digit(bytes@[j2]))) implies (
            v as nat == m && j == j2) by {
            lemma_dec_digits_val(m);
            if j2 < j {
                assert(is_digit(bytes@[j2]));
                assert(false);
            }
            if j2 > j {
                assert(dec_digits(m)[j - i] == bytes@.subrange(i as int, j2)[j - i]);
                assert(is_digit(bytes@[j as int]));
                assert(j < n);
                assert(false);
            }
            assert(dec_digits(m) == consumed);
            assert(digits_val(dec_digits(m)) == digits_val(consumed));
        }
    }
    Some((v, j))
}

/// Parses a canonical signed decimal token into an `i32`.
fn parse_int(bytes: &[u8], i: usize) -> (r: Option<(i32, usize)>)
    requires
        i <= bytes@.len(),
    ensures
        r matches Some(p) ==> i < p.1 <= bytes@.len() && bytes@.subrange(i as int, p.1 as int)
            == int_tok(p.0 as int) && (p.1 == bytes@.len() || !is_digit(bytes@[p.1 as int])),
        forall|m: int, j2: int|
            (i32::MIN <= m <= i32::MAX && i <= j2 <= bytes@.len() && bytes@.subrange(
                i as int,
                j2,
            ) == int_tok(m) && (j2 == bytes@.len() || !is_digit(bytes@[j2]))) ==> (
            r matches Some(p) && p.0 as int == m && p.1 == j2),
{
    let n = bytes.len();
    if i < n && bytes[i] == 0x2d {
        let sub = parse_digits(bytes, i + 1);
        proof {
            assert forall|m: int, j2: int|
                (i32::MIN <= m <= i32::MAX && i <= j2 <= bytes@.len() && bytes@.subrange(
                    i as int,
                    j2,
                ) == int_tok(m) && (j2 == bytes@.len() || !is_digit(bytes@[j2]))) implies (m < 0
                && bytes@.subrange(i + 1, j2) == dec_digits((-m) as nat) && i + 1 <= j2) by {
                lemma_dec_digits_val((-m) as nat);
                if m >= 0 {
                    lemma_dec_digits_val(m as nat);
                    assert(bytes@.subrange(i as int, j2)[0] == int_tok(m)[0]);
                    assert(is_digit(bytes@[i as int]));
                    assert(false);
                }
                lemma_subrange_cat(
                    bytes@,
                    i as int,
                    j2,
                    seq![0x2du8],
                    dec_digits((-m) as nat),
                );
            }
        }
        match sub {
            Option::Some(p) => {
                let (v, j) = p;
                if v == 0 || v > 0x80000000u32 {
                    proof {
                        assert forall|m: int, j2: int|
                            !(i32::MIN <= m <= i32::MAX && i <= j2 <= bytes@.len()
                                && bytes@.subrange(i as int, j2) == int_tok(m) && (j2
                                == bytes@.len() || !is_digit(bytes@[j2]))) by {
                            if i32::MIN <= m <= i32::MAX && i <= j2 <= bytes@.len()
                                && bytes@.subrange(i as int, j2) == int_tok(m) && (j2
                                == bytes@.len() || !is_digit(bytes@[j2])) {
                                assert(m < 0);
                                assert(v as nat == (-m) as nat);
                                assert(1 <= -m <= 0x80000000);
                                assert(false);
                            }
                        }
                    }
                    return None;
                }
                let val: i32 = (-(v as i64)) as i32;
                proof {
                    assert(val as int == -(v as int));
                    lemma_cat_subrange(bytes@, i as int, i + 1, j as int);
                    assert(bytes@.subrange(i as int, i + 1) =~= seq![0x2du8]);
                    assert(bytes@.subrange(i as int, j as int) == seq![0x2du8] + dec_digits(
                        v as nat,
                    ));
                    assert((-(val as int)) as nat == v as nat);
                    assert(bytes@.subrange(i as int, j as int) == int_tok(val as int));
                    assert forall|m: int, j2: int|
                        (i32::MIN <= m <= i32::MAX && i <= j2 <= bytes@.len()
                            && bytes@.subrange(i as int, j2) == int_tok(m) && (j2
                            == bytes@.len() || !is_digit(bytes@[j2]))) implies (val as int == m
                        && j == j2) by {
                        assert(m < 0);
                        assert((-m) as nat <= u32::MAX);
                        assert(v as nat == (-m) as nat && j == j2);
                    }
                }
                Some((val, j))
            },
            Option::None => {
                proof {
                    assert forall|m: int, j2: int|
                        !(i32::MIN <= m <= i32::MAX && i <= j2 <= bytes@.len()
                            && bytes@.subrange(i as int, j2) == int_tok(m) && (j2
                            == bytes@.len() || !is_digit(bytes@[j2]))) by {
                        if i32::MIN <= m <= i32::MAX && i <= j2 <= bytes@.len()
                            && bytes@.subrange(i as int, j2) == int_tok(m) && (j2
                            == bytes@.len() || !is_digit(bytes@[j2])) {
                            assert(m < 0);
                            assert((-m) as nat <= u32::MAX);
                            assert(false);
                        }
                    }
                }
                None
            },
        }
    } else {
        let sub = parse_digits(bytes, i);
        proof {
            assert forall|m: int, j2: int|
                (i32::MIN <= m <= i32::MAX && i <= j2 <= bytes@.len() && bytes@.subrange(
                    i as int,
                    j2,
                ) == int_tok(m) && (j2 == bytes@.len() || !is_digit(bytes@[j2]))) implies (m >= 0
                && bytes@.subrange(i as int, j2) == dec_digits(m as nat)) by {
                if m < 0 {
                    lemma_dec_digits_val((-m) as nat);
                    assert(int_tok(m).len() >= 2);
                    assert(i < j2);
                    assert(bytes@.subrange(i as int, j2)[0] == int_tok(m)[0]);
                    assert(int_tok(m)[0] == 0x2d);
                    assert(bytes@[i as int] == 0x2d);
                    assert(i < n);
                    assert(false);
                }
            }
        }
        match sub {
            Option::Some(p) => {
                let (v, j) = p;
                if v > 0x7fffffffu32 {
                    proof {
                        assert forall|m: int, j2: int|
                            !(i32::MIN <= m <= i32::MAX && i <= j2 <= bytes@.len()
                                && bytes@.subrange(i as int, j2) == int_tok(m) && (j2
                                == bytes@.len() || !is_digit(bytes@[j2]))) by {
                            if i32::MIN <= m <= i32::MAX && i <= j2 <= bytes@.len()
                                && bytes@.subrange(i as int, j2) == int_tok(m) && (j2
                                == bytes@.len() || !is_digit(bytes@[j2])) {
                                assert(m >= 0);
                                assert(v as nat == m as nat);
                                assert(false);
                            }
                        }
                    }
                    return None;
                }
                let val: i32 = v as i32;
                proof {
                    assert(val as int == v as int);
                    assert(bytes@.subrange(i as int, j as int) == int_tok(val as int));
                    assert forall|m: int, j2: int|
                        (i32::MIN <= m <= i32::MAX && i <= j2 <= bytes@.len()
                            && bytes@.subrange(i as int, j2) == int_tok(m) && (j2
                            == bytes@.len() || !is_digit(bytes@[j2]))) implies (val as int == m
                        && j == j2) by {
                        assert(m >= 0);
                        assert(v as nat == m as nat && j == j2);
                    }
                }
                Some((val, j))
            },
            Option::None => {
                proof {
                    assert forall|m: int, j2: int|
                        !(i32::MIN <= m <= i32::MAX && i <= j2 <= bytes@.len()
                            && bytes@.subrange(i as int, j2) == int_tok(m) && (j2
                            == bytes@.len() || !is_digit(bytes@[j2]))) by {
                        if i32::MIN <= m <= i32::MAX && i <= j2 <= bytes@.len()
                            && bytes@.subrange(i as int, j2) == int_tok(m) && (j2
                            == bytes@.len() || !is_digit(bytes@[j2])) {
                            assert(m >= 0);
                            assert(false);
                        }
                    }
                }
                None
            },
        }
    }
}

proof fn lemma_cancel_prefix(a: Seq<u8>, s: Seq<u8>, t: Seq<u8>)
    requires
        a + s == a + t,
    ensures
        s == t,
{
    assert((a + s).len() == (a + t).len());
    assert((a + s).len() == a.len() + s.len());
    assert((a + t).len() == a.len() + t.len());
    assert(s.len() == t.len());
    assert(s =~= t) by {
        assert forall|k: int| 0 <= k < s.len() implies s[k] == t[k] by {
            let i2 = a.len() + k;
            assert((a + s)[i2] == s[k]);
            assert((a + t)[i2] == t[k]);
            assert((a + s)[i2] == (a + t)[i2]);
        }
    }
}

proof fn lemma_hex_digit_inj(m: u8, n: u8)
    requires
        m < 16,
        n < 16,
        hex_digit(m) == hex_digit(n),
    ensures
        m == n,
{
}

/// No escape image begins with a quote byte.
proof fn lemma_esc_byte_first(b: u8)
    ensures
        esc_byte(b).len() >= 1,
        esc_byte(b)[0] != 0x22,
{
}

/// Escape images are mutually prefix-free: if one, extended, equals
/// another, extended, the escaped bytes were the same.
proof fn lemma_esc_byte_prefix_free(a0: u8, x0: u8, u: Seq<u8>, v: Seq<u8>)
    requires
        esc_byte(a0) + u == esc_byte(x0) + v,
    ensures
        a0 == x0,
        u == v,
{
    let ea = esc_byte(a0);
    let ex = esc_byte(x0);
    let whole = ea + u;
    assert(whole[0] == ea[0] && whole[0] == ex[0]);
    let a_esc = a0 == 0x22 || a0 == 0x5c || a0 < 0x20;
    let x_esc = x0 == 0x22 || x0 == 0x5c || x0 < 0x20;
    if !a_esc && !x_esc {
        assert(a0 == x0);
    } else if a_esc && !x_esc {
        assert(ea[0] == 0x5c && ex[0] == x0);
        assert(x0 == 0x5c);
        assert(false);
    } else if !a_esc && x_esc {
        assert(ex[0] == 0x5c && ea[0] == a0);
        assert(a0 == 0x5c);
        assert(false);
    } else {
        assert(whole[1] == ea[1] && whole[1] == ex[1]);
        if a0 == 0x22 {
            assert(ea[1] == 0x22);
            assert(x0 == 0x22);
        } else if a0 == 0x5c {
            assert(ea[1] == 0x5c);
            assert(x0 == 0x5c);
        } else {
            assert(ea[1] == 0x75);
            assert(x0 < 0x20);
            assert(whole[4] == ea[4] && whole[4] == ex[4]);
            assert(whole[5] == ea[5] && whole[5] == ex[5]);
            lemma_hex_digit_inj(a0 / 16, x0 / 16);
            lemma_hex_digit_inj(a0 % 16, x0 % 16);
            assert(a0 == x0);
        }
    }
    assert(ea.len() == ex.len());
    lemma_cancel_prefix(ea, u, v);
}

/// What the parser has unescaped so far aligns with a prefix of the
/// text any string-token witness escapes.
proof fn lemma_esc_prefix(a: Seq<u8>, x: Seq<u8>, s: Seq<u8>, t: Seq<u8>)
    requires
        esc(a) + s == esc(x) + seq![0x22u8] + t,
    ensures
        a.len() <= x.len(),
        a == x.subrange(0, a.len() as int),
    decreases a.len(),
{
    if a.len() == 0 {
        assert(a =~= x.subrange(0, 0));
    } else if x.len() == 0 {
        lemma_esc_byte_first(a[0]);
        assert(esc(a) == esc_byte(a[0]) + esc(a.drop_first()));
        assert((esc(a) + s)[0] == esc_byte(a[0])[0]);
        assert((esc(x) + seq![0x22u8] + t)[0] == 0x22);
        assert(false);
    } else {
        let a0 = a[0];
        let x0 = x[0];
        let ra = a.drop_first();
        let rx = x.drop_first();
        assert(esc(a) + s =~= esc_byte(a0) + (esc(ra) + s));
        assert(esc(x) + seq![0x22u8] + t =~= esc_byte(x0) + (esc(rx) + seq![0x22u8] + t));
        lemma_esc_byte_prefix_free(a0, x0, esc(ra) + s, esc(rx) + seq![0x22u8] + t);
        lemma_esc_prefix(ra, rx, s, t);
        assert(a =~= x.subrange(0, a.len() as int)) by {
            assert forall|k: int| 0 <= k < a.len() implies a[k] == x.subrange(
                0,
                a.len() as int,
            )[k] by {
                if k == 0 {
                } else {
                    assert(ra[k - 1] == rx.subrange(0, ra.len() as int)[k - 1]);
                }
            }
        }
    }
}

/// A string-token witness at `i`, held against what the parser has
/// consumed so far: the unescaped bytes are a prefix of the witness
/// text's encoding, and the next input bytes are determined.
proof fn lemma_str_witness_step(bytes: Seq<u8>, i: int, x: Seq<char>, j2: int, pos: int, a: Seq<u8>)
    requires
        0 <= i,
        i <= j2 <= bytes.len(),
        bytes.subrange(i, j2) == str_tok(encode_utf8(x)),
        i + 1 <= pos <= bytes.len(),
        bytes.subrange(i + 1, pos) == esc(a),
    ensures
        a.len() <= encode_utf8(x).len(),
        a == encode_utf8(x).subrange(0, a.len() as int),
        pos <= j2 - 1,
        a.len() == encode_utf8(x).len() ==> (pos == j2 - 1 && bytes[pos] == 0x22),
        a.len() < encode_utf8(x).len() ==> {
            let eb = esc_byte(encode_utf8(x)[a.len() as int]);
            pos + eb.len() <= j2 - 1 && bytes.subrange(pos, pos + eb.len() as int) == eb
        },
{
    let xx = encode_utf8(x);
    let tok = str_tok(xx);
    assert(tok == seq![0x22u8] + esc(xx) + seq![0x22u8]);
    assert(tok =~= seq![0x22u8] + (esc(xx) + seq![0x22u8]));
    lemma_subrange_cat(bytes, i, j2, seq![0x22u8], esc(xx) + seq![0x22u8]);
    lemma_subrange_cat(bytes, i + 1, j2, esc(xx), seq![0x22u8]);
    // line the two decompositions of the tail of the input up
    lemma_cat_subrange(bytes, i + 1, pos, bytes.len() as int);
    lemma_cat_subrange(bytes, i + 1, j2 - 1, bytes.len() as int);
    lemma_cat_subrange(bytes, j2 - 1, j2, bytes.len() as int);
    let s = bytes.subrange(pos, bytes.len() as int);
    let t = bytes.subrange(j2, bytes.len() as int);
    assert(bytes.subrange(j2 - 1, bytes.len() as int) =~= seq![0x22u8] + t);
    assert(esc(a) + s == esc(xx) + seq![0x22u8] + t) by {
        assert(bytes.subrange(i + 1, bytes.len() as int) == esc(a) + s);
        assert(bytes.subrange(i + 1, bytes.len() as int) =~= esc(xx) + (seq![0x22u8] + t));
        assert(esc(xx) + (seq![0x22u8] + t) =~= esc(xx) + seq![0x22u8] + t);
    }
    lemma_esc_prefix(a, xx, s, t);
    let k = a.len() as int;
    // esc of the witness text splits at the parsed prefix
    assert(xx =~= a + xx.subrange(k, xx.len() as int));
    crate::codec::lemma_esc_concat(a, xx.subrange(k, xx.len() as int));
    let rest = xx.subrange(k, xx.len() as int);
    assert(esc(xx) == esc(a) + esc(rest));
    assert(esc(a) + s =~= esc(a) + (esc(rest) + seq![0x22u8] + t)) by {
        assert(esc(xx) + seq![0x22u8] + t =~= esc(a) + (esc(rest) + seq![0x22u8] + t));
    }
    lemma_cancel_prefix(esc(a), s, esc(rest) + seq![0x22u8] + t);
    assert(s == esc(rest) + seq![0x22u8] + t);
    assert(s.len() == bytes.len() - pos);
    assert(pos + esc(rest).len() == j2 - 1);
    if k == xx.len() {
        assert(rest.len() == 0);
        assert(esc(rest).len() == 0);
        assert(pos == j2 - 1);
        assert(s[0] == 0x22);
        assert(bytes[pos] == 0x22);
    } else {
        assert(rest.len() > 0);
        assert(rest[0] == xx[k]);
        assert(esc(rest) == esc_byte(xx[k]) + esc(rest.drop_first()));
        let eb = esc_byte(xx[k]);
        assert(pos + eb.len() <= j2 - 1);
        assert(bytes.subrange(pos, pos + eb.len() as int) =~= eb) by {
            assert forall|q: int| 0 <= q < eb.len() implies bytes.subrange(
                pos,
                pos + eb.len() as int,
            )[q] == eb[q] by {
                assert(s[q] == (esc(rest) + seq![0x22u8] + t)[q]);
                assert((esc(rest) + seq![0x22u8] + t)[q] == esc(rest)[q]);
                assert(esc(rest)[q] == (esc_byte(xx[k]) + esc(rest.drop_first()))[q]);
            }
        }
    }
}

/// A string token for the text `x` stands at `i` and ends at `j2`.
spec fn swit(bytes: Seq<u8>, i: int, x: Seq<char>, j2: int) -> bool {
    &&& i <= j2 <= bytes.len()
    &&& bytes.subrange(i, j2) == str_tok(encode_utf8(x))
}

/// Parses a string token: a quote, canonically escaped UTF-8 text, a
/// closing quote. Accepts exactly the token shape the encoder emits.
fn parse_string(bytes: &[u8], i: usize) -> (r: Option<(String, usize)>)
    requires
        i <= bytes@.len(),
    ensures
        r matches Some(p) ==> i < p.1 <= bytes@.len() && bytes@.subrange(i as int, p.1 as int)
            == str_tok(encode_utf8(p.0@)),
        forall|x: Seq<char>, j2: int|
            swit(bytes@, i as int, x, j2) ==> (r matches Some(p) && p.0@ == x && p.1 == j2),
{
    let n = bytes.len();
    if i >= n || bytes[i] != 0x22 {
        proof {
            assert forall|x: Seq<char>, j2: int| !swit(bytes@, i as int, x, j2) by {
                if swit(bytes@, i as int, x, j2) {
                    let tok = str_tok(encode_utf8(x));
                    assert(tok.len() >= 2);
                    assert(bytes@.subrange(i as int, j2)[0] == tok[0]);
                    assert(tok[0] == (seq![0x22u8] + esc(encode_utf8(x)) + seq![0x22u8])[0]);
                    assert(tok[0] == 0x22);
                    assert(bytes@[i as int] == 0x22);
                    assert(i < n);
                    assert(false);
                }
            }
        }
        return None;
    }
    let mut pos: usize = i + 1;
    let mut out: Vec<u8> = Vec::new();
    loop
        invariant
            n == bytes@.len(),
            i + 1 <= pos <= n,
            i < n,
            bytes@[i as int] == 0x22,
            bytes@.subrange(i + 1, pos as int) == esc(out@),
        decreases n - pos,
    {
        if pos >= n {
            proof {
                assert forall|x: Seq<char>, j2: int| !swit(bytes@, i as int, x, j2) by {
                    if swit(bytes@, i as int, x, j2) {
                        lemma_str_witness_step(bytes@, i as int, x, j2, pos as int, out@);
                        assert(pos <= j2 - 1 < n);
                        assert(false);
                    }
                }
            }
            return None;
        }
        let b = bytes[pos];
        if b == 0x22 {
            let ghost outg = out@;
            let conv = crate::codec::string_from_utf8(out);
            match conv {
                Option::Some(sstr) => {
                    proof {
                        assert(bytes@.subrange(i as int, i + 1) =~= seq![0x22u8]);
                        assert(bytes@.subrange(pos as int, pos + 1) =~= seq![0x22u8]);
                        lemma_cat_subrange(bytes@, i as int, i + 1, pos as int);
                        lemma_cat_subrange(bytes@, i as int, pos as int, pos + 1);
                        assert(bytes@.subrange(i as int, pos + 1) =~= seq![0x22u8] + esc(outg)
                            + seq![0x22u8]);
                        assert(encode_utf8(sstr@) == outg);
                        assert(bytes@.subrange(i as int, pos + 1) == str_tok(
                            encode_utf8(sstr@),
                        ));
                        assert forall|x: Seq<char>, j2: int|
                            swit(bytes@, i as int, x, j2) implies (sstr@ == x && pos + 1
                            == j2) by {
                            lemma_str_witness_step(bytes@, i as int, x, j2, pos as int, outg);
                            let xx = encode_utf8(x);
                            if outg.len() < xx.len() {
                                let eb = esc_byte(xx[outg.len() as int]);
                                lemma_esc_byte_first(xx[outg.len() as int]);
                                assert(bytes@.subrange(pos as int, pos + eb.len() as int)[0]
                                    == eb[0]);
                                assert(bytes@[pos as int] == eb[0]);
                                assert(false);
                            }
                            assert(xx.subrange(0, xx.len() as int) =~= xx);
                            assert(outg == xx);
                            vstd::utf8::encode_utf8_decode_utf8(x);
                            vstd::utf8::encode_utf8_decode_utf8(sstr@);
                            assert(sstr@ == x);
                            assert(pos == j2 - 1);
                        }
                    }
                    return Some((sstr, pos + 1));
                },
                Option::None => {
                    proof {
                        assert forall|x: Seq<char>, j2: int| !swit(bytes@, i as int, x, j2) by {
                            if swit(bytes@, i as int, x, j2) {
                                lemma_str_witness_step(
                                    bytes@,
                                    i as int,
                                    x,
                                    j2,
                                    pos as int,
                                    outg,
                                );
                                let xx = encode_utf8(x);
                                if outg.len() < xx.len() {
                                    let eb = esc_byte(xx[outg.len() as int]);
                                    lemma_esc_byte_first(xx[outg.len() as int]);
                                    assert(bytes@.subrange(
                                        pos as int,
                                        pos + eb.len() as int,
                                    )[0] == eb[0]);
                                    assert(bytes@[pos as int] == eb[0]);
                                    assert(false);
                                }
                                assert(xx.subrange(0, xx.len() as int) =~= xx);
                                assert(outg == xx);
                                vstd::utf8::encode_utf8_valid_utf8(x);
                                assert(false);
                            }
                        }
                    }
                    return None;
                },
            }
        } else if b == 0x5c {
            if n - pos < 2 {
                proof {
                    assert forall|x: Seq<char>, j2: int| !swit(bytes@, i as int, x, j2) by {
                        if swit(bytes@, i as int, x, j2) {
                            lemma_str_witness_step(bytes@, i as int, x, j2, pos as int, out@);
                            let xx = encode_utf8(x);
                            assert(out@.len() < xx.len());
                            let e0 = xx[out@.len() as int];
                            let eb = esc_byte(e0);
                            assert(bytes@.subrange(pos as int, pos + eb.len() as int)[0]
                                == eb[0]);
                            assert(bytes@[pos as int] == eb[0]);
                            assert(eb[0] == 0x5c);
                            assert(eb.len() >= 2);
                            assert(pos + eb.len() <= j2 - 1 <= n);
                            assert(false);
                        }
                    }
                }
                return None;
            }
            let c = bytes[pos + 1];
            if c == 0x22 || c == 0x5c {
                let unescaped: u8 = c;
                let ghost out0 = out@;
                out.push(unescaped);
                proof {
                    crate::codec::lemma_esc_push(out0, unescaped);
                    assert(out@ == out0.push(unescaped));
                    assert(bytes@.subrange(pos as int, pos + 2) =~= esc_byte(unescaped));
                    lemma_cat_subrange(bytes@, i + 1, pos as int, pos + 2);
                    assert(bytes@.subrange(i + 1, pos + 2) == esc(out0) + esc_byte(unescaped));
                    assert(bytes@.subrange(i + 1, pos + 2) == esc(out@));
                }
                pos = pos + 2;
            } else if c == 0x75 {
                if n - pos < 6 {
                    proof {
                        assert forall|x: Seq<char>, j2: int| !swit(bytes@, i as int, x, j2) by {
                            if swit(bytes@, i as int, x, j2) {
                                lemma_str_witness_step(
                                    bytes@,
                                    i as int,
                                    x,
                                    j2,
                                    pos as int,
                                    out@,
                                );
                                let xx = encode_utf8(x);
                                assert(out@.len() < xx.len());
                                let e0 = xx[out@.len() as int];
                                let eb = esc_byte(e0);
                                assert(bytes@.subrange(pos as int, pos + eb.len() as int)[0]
                                    == eb[0]);
                                assert(bytes@.subrange(pos as int, pos + eb.len() as int)[1]
                                    == eb[1]);
                                assert(bytes@[pos as int] == eb[0]);
                                assert(bytes@[pos + 1] == eb[1]);
                                assert(e0 < 0x20);
                                assert(eb.len() == 6);
                                assert(pos + 6 <= j2 - 1 <= n);
                                assert(false);
                            }
                        }
                    }
                    return None;
                }
                let d2 = bytes[pos + 2];
                let d3 = bytes[pos + 3];
                let h1 = bytes[pos + 4];
                let h2 = bytes[pos + 5];
                let is_dig = 0x30 <= h2 && h2 <= 0x39;
                let is_hex = 0x61 <= h2 && h2 <= 0x66;
                if d2 != 0x30 || d3 != 0x30 || !(h1 == 0x30 || h1 == 0x31) || (!is_dig
                    && !is_hex) {
                    proof {
                        assert forall|x: Seq<char>, j2: int| !swit(bytes@, i as int, x, j2) by {
                            if swit(bytes@, i as int, x, j2) {
                                lemma_str_witness_step(
                                    bytes@,
                                    i as int,
                                    x,
                                    j2,
                                    pos as int,
                                    out@,
                                );
                                let xx = encode_utf8(x);
                                assert(out@.len() < xx.len());
                                let e0 = xx[out@.len() as int];
                                let eb = esc_byte(e0);
                                assert(bytes@.subrange(pos as int, pos + eb.len() as int)[0]
                                    == eb[0]);
                                assert(bytes@[pos as int] == eb[0]);
                                assert(eb[0] == 0x5c);
                                assert(e0 == 0x22 || e0 == 0x5c || e0 < 0x20);
                                assert(eb.len() >= 2);
                                assert(bytes@.subrange(pos as int, pos + eb.len() as int)[1]
                                    == eb[1]);
                                assert(bytes@[pos + 1] == eb[1]);
                                assert(e0 < 0x20);
                                assert(eb.len() == 6);
                                assert(bytes@.subrange(pos as int, pos + 6)[2] == eb[2]);
                                assert(bytes@.subrange(pos as int, pos + 6)[3] == eb[3]);
                                assert(bytes@.subrange(pos as int, pos + 6)[4] == eb[4]);
                                assert(bytes@.subrange(pos as int, pos + 6)[5] == eb[5]);
                                assert(bytes@[pos + 2] == 0x30);
                                assert(bytes@[pos + 3] == 0x30);
                                assert(bytes@[pos + 4] == hex_digit(e0 / 16));
                                assert(bytes@[pos + 5] == hex_digit(e0 % 16));
                                assert(e0 / 16 == 0 || e0 / 16 == 1);
                                assert(hex_digit(e0 / 16) == 0x30 || hex_digit(e0 / 16)
                                    == 0x31);
                                assert(e0 % 16 < 16);
                                assert((0x30 <= hex_digit(e0 % 16) && hex_digit(e0 % 16)
                                    <= 0x39) || (0x61 <= hex_digit(e0 % 16) && hex_digit(
                                    e0 % 16,
                                ) <= 0x66));
                                assert(false);
                            }
                        }
                    }
                    return None;
                }
                let hv2: u8 = if is_dig {
                    h2 - 0x30
                } else {
                    h2 - 0x57
                };
                let val: u8 = (h1 - 0x30) * 16 + hv2;
                let ghost out0 = out@;
                out.push(val);
                proof {
                    assert(hv2 < 16);
                    assert(val < 0x20);
                    assert(val / 16 == h1 - 0x30 && val % 16 == hv2);
                    assert(hex_digit(val / 16) == h1);
                    assert(hex_digit(val % 16) == h2);
                    assert(esc_byte(val) =~= seq![
                        0x5cu8,
                        0x75u8,
                        0x30u8,
                        0x30u8,
                        hex_digit(val / 16),
                        hex_digit(val % 16),
                    ]);
                    assert(bytes@.subrange(pos as int, pos + 6) =~= esc_byte(val));
                    crate::codec::lemma_esc_push(out0, val);
                    assert(out@ == out0.push(val));
                    lemma_cat_subrange(bytes@, i + 1, pos as int, pos + 6);
                    assert(bytes@.subrange(i + 1, pos + 6) == esc(out0) + esc_byte(val));
                    assert(bytes@.subrange(i + 1, pos + 6) == esc(out@));
                }
                pos = pos + 6;
            } else {
                proof {
                    assert forall|x: Seq<char>, j2: int| !swit(bytes@, i as int, x, j2) by {
                        if swit(bytes@, i as int, x, j2) {
                            lemma_str_witness_step(bytes@, i as int, x, j2, pos as int, out@);
                            let xx = encode_utf8(x);
                            assert(out@.len() < xx.len());
                            let e0 = xx[out@.len() as int];
                            let eb = esc_byte(e0);
                            assert(bytes@.subrange(pos as int, pos + eb.len() as int)[0]
                                == eb[0]);
                            assert(bytes@[pos as int] == eb[0]);
                            assert(eb[0] == 0x5c);
                            assert(e0 == 0x22 || e0 == 0x5c || e0 < 0x20);
                            assert(eb.len() >= 2);
                            assert(bytes@.subrange(pos as int, pos + eb.len() as int)[1]
                                == eb[1]);
                            assert(bytes@[pos + 1] == eb[1]);
                            assert(false);
                        }
                    }
                }
                return None;
            }
        } else if b < 0x20 {
            proof {
                assert forall|x: Seq<char>, j2: int| !swit(bytes@, i as int, x, j2) by {
                    if swit(bytes@, i as int, x, j2) {
                        lemma_str_witness_step(bytes@, i as int, x, j2, pos as int, out@);
                        let xx = encode_utf8(x);
                        if out@.len() < xx.len() {
                            let e0 = xx[out@.len() as int];
                            let eb = esc_byte(e0);
                            assert(bytes@.subrange(pos as int, pos + eb.len() as int)[0]
                                == eb[0]);
                            assert(bytes@[pos as int] == eb[0]);
                        }
                        assert(false);
                    }
                }
            }
            return None;
        } else {
            let ghost out0 = out@;
            out.push(b);
            proof {
                crate::codec::lemma_esc_push(out0, b);
                assert(out@ == out0.push(b));
                assert(esc_byte(b) =~= seq![b]);
                assert(bytes@.subrange(pos as int, pos + 1) =~= seq![b]);
                lemma_cat_subrange(bytes@, i + 1, pos as int, pos + 1);
                assert(bytes@.subrange(i + 1, pos + 1) == esc(out0) + esc_byte(b));
                assert(bytes@.subrange(i + 1, pos + 1) == esc(out@));
            }
            pos = pos + 1;
        }
    }
}

/// The byte values of the fixed text `null`.
proof fn lemma_null_lit()
    ensures
        lit("null").len() == 4,
        lit("null")[0] == 0x6e,
{
    reveal_strlit("null");
    let cs = "null"@;
    assert(cs.len() == 4 && cs[0] == 'n');
    assert(vstd::utf8::is_ascii_chars(cs));
    vstd::utf8::is_ascii_chars_encode_utf8(cs);
    assert(lit("null")[0] == cs[0] as u8);
}

/// A payload token for contents `q` stands at `i` and ends at `j2`.
spec fn pwit(bytes: Seq<u8>, i: int, q: Option<Seq<u8>>, j2: int) -> bool {
    &&& i <= j2 <= bytes.len()
    &&& bytes.subrange(i, j2) == payload_tok(q)
}

/// Unfolds the item list of a payload at element `m`.
proof fn lemma_bytes_items_skip(bs: Seq<u8>, m: int)
    requires
        0 <= m < bs.len(),
    ensures
        m == bs.len() - 1 ==> bytes_items(bs.skip(m)) == dec_digits(bs[m] as nat),
        m < bs.len() - 1 ==> bytes_items(bs.skip(m)) == dec_digits(bs[m] as nat)
            + seq![0x2cu8] + bytes_items(bs.skip(m + 1)),
{
    let t = bs.skip(m);
    assert(t.len() == bs.len() - m);
    assert(t[0] == bs[m]);
    if m == bs.len() - 1 {
        assert(t.len() == 1);
    } else {
        assert(t.drop_first() =~= bs.skip(m + 1));
    }
}

/// Parses a payload token: `null`, or a bracketed list of canonical
/// byte values.
fn parse_payload(bytes: &[u8], i: usize) -> (r: Option<(Option<Vec<u8>>, usize)>)
    requires
        i <= bytes@.len(),
    ensures
        r matches Some(p) ==> i < p.1 <= bytes@.len() && bytes@.subrange(i as int, p.1 as int)
            == payload_tok(crate::observation::payload_view(p.0)),
        forall|q: Option<Seq<u8>>, j2: int|
            pwit(bytes@, i as int, q, j2) ==> (r matches Some(p)
                && crate::observation::payload_view(p.0) == q && p.1 == j2),
{
    let n = bytes.len();
    match parse_lit(bytes, i, "null") {
        Option::Some(j) => {
            proof {
                lemma_null_lit();
                assert(bytes@.subrange(i as int, j as int) == payload_tok(
                    Option::<Seq<u8>>::None,
                ));
                assert forall|q: Option<Seq<u8>>, j2: int|
                    pwit(bytes@, i as int, q, j2) implies (q is None && j == j2) by {
                    match q {
                        Option::Some(bs) => {
                            assert(payload_tok(q) == seq![0x5bu8] + bytes_items(bs)
                                + seq![0x5du8]);
                            assert(payload_tok(q).len() >= 2);
                            assert((seq![0x5bu8] + bytes_items(bs) + seq![0x5du8])[0] == (
                            seq![0x5bu8] + bytes_items(bs))[0]);
                            assert((seq![0x5bu8] + bytes_items(bs))[0] == 0x5b);
                            assert(bytes@.subrange(i as int, j2)[0] == payload_tok(q)[0]);
                            assert(bytes@[i as int] == 0x5b);
                            assert(bytes@.subrange(i as int, j as int)[0] == lit("null")[0]);
                            assert(bytes@[i as int] == 0x6e);
                            assert(false);
                        },
                        Option::None => {},
                    }
                    assert(payload_tok(q).len() == 4);
                    assert(j2 == i + 4);
                }
            }
            return Some((None, j));
        },
        Option::None => {},
    }
    if i >= n || bytes[i] != 0x5b {
        proof {
            lemma_null_lit();
            assert forall|q: Option<Seq<u8>>, j2: int| !pwit(bytes@, i as int, q, j2) by {
                if pwit(bytes@, i as int, q, j2) {
                    match q {
                        Option::None => {
                            assert(bytes@.subrange(i as int, j2) == lit("null"));
                            assert(j2 == i + 4);
                            assert(false);
                        },
                        Option::Some(bs) => {
                            assert(payload_tok(q) == seq![0x5bu8] + bytes_items(bs)
                                + seq![0x5du8]);
                            assert(payload_tok(q).len() >= 2);
                            assert((seq![0x5bu8] + bytes_items(bs) + seq![0x5du8])[0] == (
                            seq![0x5bu8] + bytes_items(bs))[0]);
                            assert((seq![0x5bu8] + bytes_items(bs))[0] == 0x5b);
                            assert(bytes@.subrange(i as int, j2)[0] == payload_tok(q)[0]);
                            assert(bytes@[i as int] == 0x5b);
                            assert(i < n);
                            assert(false);
                        },
                    }
                }
            }
        }
        return None;
    }
    proof {
        lemma_null_lit();
        assert forall|q: Option<Seq<u8>>, j2: int|
            pwit(bytes@, i as int, q, j2) implies (q is Some && bytes@.subrange(i + 1, j2 - 1)
            == bytes_items(q.unwrap()) && bytes@[j2 - 1] == 0x5d && i + 1 <= j2 - 1) by {
            match q {
                Option::None => {
                    assert(bytes@.subrange(i as int, j2) == lit("null"));
                    assert(false);
                },
                Option::Some(bs) => {
                    assert(payload_tok(q) =~= seq![0x5bu8] + (bytes_items(bs)
                        + seq![0x5du8]));
                    lemma_subrange_cat(
                        bytes@,
                        i as int,
                        j2,
                        seq![0x5bu8],
                        bytes_items(bs) + seq![0x5du8],
                    );
                    lemma_subrange_cat(bytes@, i + 1, j2, bytes_items(bs), seq![0x5du8]);
                    assert(bytes@.subrange(j2 - 1, j2)[0] == bytes@[j2 - 1]);
                },
            }
        }
    }
    let mut pos: usize = i + 1;
    if pos < n && bytes[pos] == 0x5d {
        let out: Vec<u8> = Vec::new();
        proof {
            assert(bytes@.subrange(i + 1, pos as int).len() == 0);
            assert(bytes_items(out@).len() == 0);
            assert(bytes@.subrange(i as int, pos + 1) =~= seq![0x5bu8] + bytes_items(out@)
                + seq![0x5du8]);
            assert forall|q: Option<Seq<u8>>, j2: int|
                pwit(bytes@, i as int, q, j2) implies (
                crate::observation::payload_view(Some(out)) == q && pos + 1 == j2) by {
                let bs = q.unwrap();
                if bs.len() > 0 {
                    lemma_bytes_items_skip(bs, 0);
                    assert(bs.skip(0) =~= bs);
                    lemma_dec_digits_val(bs[0] as nat);
                    assert(bytes@.subrange(i + 1, j2 - 1)[0] == bytes_items(bs)[0]);
                    assert(bytes_items(bs)[0] == dec_digits(bs[0] as nat)[0]);
                    assert(is_digit(bytes@[i + 1]));
                    assert(false);
                }
                assert(bs =~= out@);
                assert(bytes_items(bs).len() == 0);
                assert(j2 - 1 == i + 1);
            }
        }
        return Some((Some(out), pos + 1));
    }
    let mut out: Vec<u8> = Vec::new();
    proof {
        assert forall|q: Option<Seq<u8>>, j2: int|
            pwit(bytes@, i as int, q, j2) implies (q matches Some(bs) && out@.len() < bs.len()
            && out@ == bs.subrange(0, out@.len() as int) && pos as int <= j2 - 1 <= n
            && bytes@.subrange(pos as int, j2 - 1) == bytes_items(bs.skip(out@.len() as int))
            && i + 1 <= j2 - 1 && bytes@[j2 - 1] == 0x5d) by {
            let bs = q.unwrap();
            if bs.len() == 0 {
                assert(bytes_items(bs).len() == 0);
                assert(j2 - 1 == i + 1);
                assert(bytes@[i + 1] == 0x5d);
                assert(false);
            }
            assert(bs.skip(0) =~= bs);
            assert(out@ =~= bs.subrange(0, 0));
        }
    }
    loop
        invariant
            n == bytes@.len(),
            i + 1 <= pos <= n,
            i < n,
            bytes@[i as int] == 0x5b,
            bytes@.subrange(i + 1, pos as int) == (if out@.len() == 0 {
                Seq::<u8>::empty()
            } else {
                bytes_items(out@) + seq![0x2cu8]
            }),
            forall|q: Option<Seq<u8>>, j2: int|
                pwit(bytes@, i as int, q, j2) ==> (q matches Some(bs) && out@.len() < bs.len()
                    && out@ == bs.subrange(0, out@.len() as int) && pos as int <= j2 - 1 <= n
                    && bytes@.subrange(pos as int, j2 - 1) == bytes_items(
                    bs.skip(out@.len() as int),
                ) && i + 1 <= j2 - 1 && bytes@[j2 - 1] == 0x5d),
        decreases n - pos,
    {
        let ghost m = out@.len() as int;
        proof {
            assert forall|q: Option<Seq<u8>>, j2: int|
                pwit(bytes@, i as int, q, j2) implies {
                let bs = q.unwrap();
                &&& q is Some
                &&& bytes@.subrange(pos as int, pos + dec_digits(
                    bs[m] as nat,
                ).len() as int) == dec_digits(bs[m] as nat)
                &&& pos + dec_digits(bs[m] as nat).len() <= j2 - 1
                &&& (pos + dec_digits(bs[m] as nat).len() == j2 - 1 || bytes@[pos
                    + dec_digits(bs[m] as nat).len()] == 0x2c)
            } by {
                let bs = q.unwrap();
                lemma_bytes_items_skip(bs, m);
                lemma_dec_digits_val(bs[m] as nat);
                if m == bs.len() - 1 {
                    assert(bytes@.subrange(pos as int, j2 - 1) == dec_digits(bs[m] as nat));
                } else {
                    assert(bytes_items(bs.skip(m)) =~= dec_digits(bs[m] as nat) + (
                    seq![0x2cu8] + bytes_items(bs.skip(m + 1))));
                    lemma_subrange_cat(
                        bytes@,
                        pos as int,
                        j2 - 1,
                        dec_digits(bs[m] as nat),
                        seq![0x2cu8] + bytes_items(bs.skip(m + 1)),
                    );
                    assert(bytes@.subrange(
                        pos + dec_digits(bs[m] as nat).len() as int,
                        j2 - 1,
                    )[0] == 0x2c);
                }
            }
        }
        let item = parse_digits(bytes, pos);
        match item {
            Option::Some(p) => {
                let (v, j) = p;
                if v > 255 {
                    proof {
                        assert forall|q: Option<Seq<u8>>, j2: int|
                            !pwit(bytes@, i as int, q, j2) by {
                            if pwit(bytes@, i as int, q, j2) {
                                let bs = q.unwrap();
                                lemma_dec_digits_val(bs[m] as nat);
                                assert(v as nat == bs[m] as nat);
                                assert(false);
                            }
                        }
                    }
                    return None;
                }
                let ghost out0 = out@;
                out.push(v as u8);
                proof {
                    crate::codec::lemma_bytes_items_snoc(out0, v as u8);
                    assert(out@ == out0.push(v as u8));
                    lemma_cat_subrange(bytes@, i + 1, pos as int, j as int);
                    if out0.len() == 0 {
                        assert(bytes@.subrange(i + 1, j as int) =~= dec_digits(v as nat));
                        assert(bytes@.subrange(i + 1, j as int) == bytes_items(out@));
                    } else {
                        assert(bytes@.subrange(i + 1, j as int) =~= bytes_items(out0)
                            + seq![0x2cu8] + dec_digits(v as nat));
                        assert(bytes@.subrange(i + 1, j as int) == bytes_items(out@));
                    }
                }
                if j >= n {
                    proof {
                        assert forall|q: Option<Seq<u8>>, j2: int|
                            !pwit(bytes@, i as int, q, j2) by {
                            if pwit(bytes@, i as int, q, j2) {
                                let bs = q.unwrap();
                                lemma_dec_digits_val(bs[m] as nat);
                                assert(v as nat == bs[m] as nat && j == pos + dec_digits(
                                    bs[m] as nat,
                                ).len());
                                assert(j <= j2 - 1);
                                assert(j2 - 1 < n);
                                assert(false);
                            }
                        }
                    }
                    return None;
                }
                let d = bytes[j];
                if d == 0x5d {
                    proof {
                        assert(bytes@.subrange(i as int, i + 1) =~= seq![0x5bu8]);
                        assert(bytes@.subrange(j as int, j + 1) =~= seq![0x5du8]);
                        lemma_cat_subrange(bytes@, i as int, i + 1, j as int);
                        lemma_cat_subrange(bytes@, i as int, j as int, j + 1);
                        assert(bytes@.subrange(i as int, j + 1) =~= seq![0x5bu8]
                            + bytes_items(out@) + seq![0x5du8]);
                        assert forall|q: Option<Seq<u8>>, j2: int|
                            pwit(bytes@, i as int, q, j2) implies (q == Some(out@) && j + 1
                            == j2) by {
                            let bs = q.unwrap();
                            lemma_dec_digits_val(bs[m] as nat);
                            assert(v as nat == bs[m] as nat && j == pos + dec_digits(
                                bs[m] as nat,
                            ).len());
                            if m + 1 < bs.len() {
                                assert(bytes@[j as int] == 0x2c);
                                assert(false);
                            }
                            assert(m + 1 == bs.len());
                            assert(out@ =~= bs);
                            assert(j == j2 - 1);
                        }
                    }
                    return Some((Some(out), j + 1));
                }
                if d == 0x2c {
                    proof {
                        assert(bytes@.subrange(j as int, j + 1) =~= seq![0x2cu8]);
                        lemma_cat_subrange(bytes@, i + 1, j as int, j + 1);
                        assert(bytes@.subrange(i + 1, j + 1) == bytes_items(out@)
                            + seq![0x2cu8]);
                        assert forall|q: Option<Seq<u8>>, j2: int|
                            pwit(bytes@, i as int, q, j2) implies (q matches Some(bs)
                            && out@.len() < bs.len() && out@ == bs.subrange(
                            0,
                            out@.len() as int,
                        ) && j + 1 <= j2 - 1 <= n && bytes@.subrange(j + 1, j2 - 1)
                            == bytes_items(bs.skip(out@.len() as int)) && i + 1 <= j2 - 1
                            && bytes@[j2 - 1] == 0x5d) by {
                            let bs = q.unwrap();
                            lemma_dec_digits_val(bs[m] as nat);
                            assert(v as nat == bs[m] as nat && j == pos + dec_digits(
                                bs[m] as nat,
                            ).len());
                            if m + 1 == bs.len() {
                                assert(j == j2 - 1);
                                assert(bytes@[j as int] == 0x5d);
                                assert(false);
                            }
                            assert(m + 1 < bs.len());
                            assert(out@ =~= bs.subrange(0, m + 1));
                            lemma_bytes_items_skip(bs, m);
                            assert(bytes_items(bs.skip(m)) =~= dec_digits(bs[m] as nat) + (
                            seq![0x2cu8] + bytes_items(bs.skip(m + 1))));
                            lemma_subrange_cat(
                                bytes@,
                                pos as int,
                                j2 - 1,
                                dec_digits(bs[m] as nat),
                                seq![0x2cu8] + bytes_items(bs.skip(m + 1)),
                            );
                            lemma_subrange_cat(
                                bytes@,
                                j as int,
                                j2 - 1,
                                seq![0x2cu8],
                                bytes_items(bs.skip(m + 1)),
                            );
                        }
                    }
                    pos = j + 1;
                } else {
                    proof {
                        assert forall|q: Option<Seq<u8>>, j2: int|
                            !pwit(bytes@, i as int, q, j2) by {
                            if pwit(bytes@, i as int, q, j2) {
                                let bs = q.unwrap();
                                lemma_dec_digits_val(bs[m] as nat);
                                assert(v as nat == bs[m] as nat && j == pos + dec_digits(
                                    bs[m] as nat,
                                ).len());
                                if m + 1 == bs.len() {
                                    assert(j == j2 - 1);
                                    assert(bytes@[j as int] == 0x5d);
                                } else {
                                    assert(bytes@[j as int] == 0x2c);
                                }
                                assert(false);
                            }
                        }
                    }
                    return None;
                }
            },
            Option::None => {
                proof {
                    assert forall|q: Option<Seq<u8>>, j2: int| !pwit(bytes@, i as int, q, j2) by {
                        if pwit(bytes@, i as int, q, j2) {
                            let bs = q.unwrap();
                            lemma_dec_digits_val(bs[m] as nat);
                            assert(false);
                        }
                    }
                }
                return None;
            },
        }
    }
}

/// The byte values of the fixed separators between record fields.
proof fn lemma_field_lits()
    ensures
        lit(",\"rssi\":").len() >= 1 && lit(",\"rssi\":")[0] == 0x2c,
        lit(",\"manufacture_id\":").len() >= 1 && lit(",\"manufacture_id\":")[0] == 0x2c,
        lit(",\"name\":").len() >= 1 && lit(",\"name\":")[0] == 0x2c,
{
    reveal_strlit(",\"rssi\":");
    reveal_strlit(",\"manufacture_id\":");
    reveal_strlit(",\"name\":");
    assert(vstd::utf8::is_ascii_chars(",\"rssi\":"@));
    assert(vstd::utf8::is_ascii_chars(",\"manufacture_id\":"@));
    assert(vstd::utf8::is_ascii_chars(",\"name\":"@));
    vstd::utf8::is_ascii_chars_encode_utf8(",\"rssi\":"@);
    vstd::utf8::is_ascii_chars_encode_utf8(",\"manufacture_id\":"@);
    vstd::utf8::is_ascii_chars_encode_utf8(",\"name\":"@);
    assert(lit(",\"rssi\":")[0] == ",\"rssi\":"@[0] as u8);
    assert(lit(",\"manufacture_id\":")[0] == ",\"manufacture_id\":"@[0] as u8);
    assert(lit(",\"name\":")[0] == ",\"name\":"@[0] as u8);
}

/// The field list of a record for `o` stands at `i` and ends at `j2`.
spec fn fwit(bytes: Seq<u8>, i: int, o: BleInfoView, j2: int) -> bool {
    &&& i <= j2 <= bytes.len()
    &&& bytes.subrange(i, j2) == fields_tok(o)
    &&& crate::observation::rssi_in_range(o)
}

/// Unpacks a field-list witness into its ten components.
proof fn lemma_fields_witness(bytes: Seq<u8>, i: int, o: BleInfoView, j2: int)
    requires
        0 <= i,
        fwit(bytes, i, o, j2),
    ensures
        ({
            let a1 = i + lit("\"address\":").len();
            let a2 = a1 + str_tok(encode_utf8(o.address)).len();
            let a3 = a2 + lit(",\"rssi\":").len();
            let a4 = a3 + int_tok(o.rssi).len();
            let a5 = a4 + lit(",\"manufacture_id\":").len();
            let a6 = a5 + payload_tok(o.manufacture_id).len();
            let a7 = a6 + lit(",\"name\":").len();
            let a8 = a7 + str_tok(encode_utf8(o.name)).len();
            let a9 = a8 + lit(",\"time\":").len();
            &&& bytes.subrange(i, a1) == lit("\"address\":")
            &&& bytes.subrange(a1, a2) == str_tok(encode_utf8(o.address))
            &&& bytes.subrange(a2, a3) == lit(",\"rssi\":")
            &&& bytes.subrange(a3, a4) == int_tok(o.rssi)
            &&& bytes.subrange(a4, a5) == lit(",\"manufacture_id\":")
            &&& bytes.subrange(a5, a6) == payload_tok(o.manufacture_id)
            &&& bytes.subrange(a6, a7) == lit(",\"name\":")
            &&& bytes.subrange(a7, a8) == str_tok(encode_utf8(o.name))
            &&& bytes.subrange(a8, a9) == lit(",\"time\":")
            &&& bytes.subrange(a9, j2) == str_tok(encode_utf8(o.time))
            &&& a9 + str_tok(encode_utf8(o.time)).len() == j2
        }),
{
    reveal(crate::codec::fields_tok);
    let p1 = lit("\"address\":");
    let p2 = str_tok(encode_utf8(o.address));
    let p3 = lit(",\"rssi\":");
    let p4 = int_tok(o.rssi);
    let p5 = lit(",\"manufacture_id\":");
    let p6 = payload_tok(o.manufacture_id);
    let p7 = lit(",\"name\":");
    let p8 = str_tok(encode_utf8(o.name));
    let p9 = lit(",\"time\":");
    let p10 = str_tok(encode_utf8(o.time));
    assert(fields_tok(o) == p1 + p2 + p3 + p4 + p5 + p6 + p7 + p8 + p9 + p10);
    lemma_subrange_cat(bytes, i, j2, p1 + p2 + p3 + p4 + p5 + p6 + p7 + p8 + p9, p10);
    let b9 = i + (p1 + p2 + p3 + p4 + p5 + p6 + p7 + p8 + p9).len();
    lemma_subrange_cat(bytes, i, b9, p1 + p2 + p3 + p4 + p5 + p6 + p7 + p8, p9);
    let b8 = i + (p1 + p2 + p3 + p4 + p5 + p6 + p7 + p8).len();
    lemma_subrange_cat(bytes, i, b8, p1 + p2 + p3 + p4 + p5 + p6 + p7, p8);
    let b7 = i + (p1 + p2 + p3 + p4 + p5 + p6 + p7).len();
    lemma_subrange_cat(bytes, i, b7, p1 + p2 + p3 + p4 + p5 + p6, p7);
    let b6 = i + (p1 + p2 + p3 + p4 + p5 + p6).len();
    lemma_subrange_cat(bytes, i, b6, p1 + p2 + p3 + p4 + p5, p6);
    let b5 = i + (p1 + p2 + p3 + p4 + p5).len();
    lemma_subrange_cat(bytes, i, b5, p1 + p2 + p3 + p4, p5);
    let b4 = i + (p1 + p2 + p3 + p4).len();
    lemma_subrange_cat(bytes, i, b4, p1 + p2 + p3, p4);
    let b3 = i + (p1 + p2 + p3).len();
    lemma_subrange_cat(bytes, i, b3, p1 + p2, p3);
    let b2 = i + (p1 + p2).len();
    lemma_subrange_cat(bytes, i, b2, p1, p2);
}

/// Parses the five fields of a record, in the served order.
#[verifier::rlimit(60)]
fn parse_fields(bytes: &[u8], i: usize) -> (r: Option<(BleInfo, usize)>)
    requires
        i <= bytes@.len(),
    ensures
        r matches Some(p) ==> i <= p.1 <= bytes@.len() && bytes@.subrange(i as int, p.1 as int)
            == fields_tok(p.0@),
        forall|o: BleInfoView, j2: int|
            fwit(bytes@, i as int, o, j2) ==> (r matches Some(p) && p.0@ == o && p.1 == j2),
{
    let n = bytes.len();
    let j1 = match parse_lit(bytes, i, "\"address\":") {
        Option::Some(j) => j,
        Option::None => {
            proof {
                assert forall|o: BleInfoView, j2: int| !fwit(bytes@, i as int, o, j2) by {
                    if fwit(bytes@, i as int, o, j2) {
                        lemma_fields_witness(bytes@, i as int, o, j2);
                        assert(false);
                    }
                }
            }
            return None;
        },
    };
    let (addr, j2p) = match parse_string(bytes, j1) {
        Option::Some(p) => p,
        Option::None => {
            proof {
                assert forall|o: BleInfoView, j2: int| !fwit(bytes@, i as int, o, j2) by {
                    if fwit(bytes@, i as int, o, j2) {
                        lemma_fields_witness(bytes@, i as int, o, j2);
                        let a1 = i + lit("\"address\":").len();
                        let a2 = a1 + str_tok(encode_utf8(o.address)).len();
                        assert(swit(bytes@, a1, o.address, a2));
                        assert(false);
                    }
                }
            }
            return None;
        },
    };
    let j3 = match parse_lit(bytes, j2p, ",\"rssi\":") {
        Option::Some(j) => j,
        Option::None => {
            proof {
                assert forall|o: BleInfoView, j2: int| !fwit(bytes@, i as int, o, j2) by {
                    if fwit(bytes@, i as int, o, j2) {
                        lemma_fields_witness(bytes@, i as int, o, j2);
                        let a1 = i + lit("\"address\":").len();
                        let a2 = a1 + str_tok(encode_utf8(o.address)).len();
                        assert(swit(bytes@, a1, o.address, a2));
                        assert(j2p == a2);
                        assert(false);
                    }
                }
            }
            return None;
        },
    };
    let (rssi, j4) = match parse_int(bytes, j3) {
        Option::Some(p) => p,
        Option::None => {
            proof {
                assert forall|o: BleInfoView, j2: int| !fwit(bytes@, i as int, o, j2) by {
                    if fwit(bytes@, i as int, o, j2) {
                        lemma_fields_witness(bytes@, i as int, o, j2);
                        lemma_field_lits();
                        let a1 = i + lit("\"address\":").len();
                        let a2 = a1 + str_tok(encode_utf8(o.address)).len();
                        let a3 = a2 + lit(",\"rssi\":").len();
                        let a4 = a3 + int_tok(o.rssi).len();
                        assert(swit(bytes@, a1, o.address, a2));
                        assert(j3 == a3);
                        assert(bytes@.subrange(a4, a4 + lit(",\"manufacture_id\":").len() as int)[0]
                            == 0x2c);
                        assert(bytes@[a4] == 0x2c);
                        assert(!is_digit(bytes@[a4]));
                        assert(false);
                    }
                }
            }
            return None;
        },
    };
    let j5 = match parse_lit(bytes, j4, ",\"manufacture_id\":") {
        Option::Some(j) => j,
        Option::None => {
            proof {
                assert forall|o: BleInfoView, j2: int| !fwit(bytes@, i as int, o, j2) by {
                    if fwit(bytes@, i as int, o, j2) {
                        lemma_fields_witness(bytes@, i as int, o, j2);
                        lemma_field_lits();
                        let a1 = i + lit("\"address\":").len();
                        let a2 = a1 + str_tok(encode_utf8(o.address)).len();
                        let a3 = a2 + lit(",\"rssi\":").len();
                        let a4 = a3 + int_tok(o.rssi).len();
                        assert(swit(bytes@, a1, o.address, a2));
                        assert(j3 == a3);
                        assert(bytes@.subrange(a4, a4 + lit(",\"manufacture_id\":").len() as int)[0]
                            == 0x2c);
                        assert(bytes@[a4] == 0x2c);
                        assert(!is_digit(bytes@[a4]));
                        assert(j4 == a4);
                        assert(false);
                    }
                }
            }
            return None;
        },
    };
    let (mid, j6) = match parse_payload(bytes, j5) {
        Option::Some(p) => p,
        Option::None => {
            proof {
                assert forall|o: BleInfoView, j2: int| !fwit(bytes@, i as int, o, j2) by {
                    if fwit(bytes@, i as int, o, j2) {
                        lemma_fields_witness(bytes@, i as int, o, j2);
                        lemma_field_lits();
                        let a1 = i + lit("\"address\":").len();
                        let a2 = a1 + str_tok(encode_utf8(o.address)).len();
                        let a3 = a2 + lit(",\"rssi\":").len();
                        let a4 = a3 + int_tok(o.rssi).len();
                        let a5 = a4 + lit(",\"manufacture_id\":").len();
                        let a6 = a5 + payload_tok(o.manufacture_id).len();
                        assert(swit(bytes@, a1, o.address, a2));
                        assert(j3 == a3);
                        assert(bytes@.subrange(a4, a5)[0] == 0x2c);
                        assert(!is_digit(bytes@[a4]));
                        assert(j4 == a4);
                        assert(j5 == a5);
                        assert(pwit(bytes@, a5, o.manufacture_id, a6));
                        assert(false);
                    }
                }
            }
            return None;
        },
    };
    let j7 = match parse_lit(bytes, j6, ",\"name\":") {
        Option::Some(j) => j,
        Option::None => {
            proof {
                assert forall|o: BleInfoView, j2: int| !fwit(bytes@, i as int, o, j2) by {
                    if fwit(bytes@, i as int, o, j2) {
                        lemma_fields_witness(bytes@, i as int, o, j2);
                        lemma_field_lits();
                        let a1 = i + lit("\"address\":").len();
                        let a2 = a1 + str_tok(encode_utf8(o.address)).len();
                        let a3 = a2 + lit(",\"rssi\":").len();
                        let a4 = a3 + int_tok(o.rssi).len();
                        let a5 = a4 + lit(",\"manufacture_id\":").len();
                        let a6 = a5 + payload_tok(o.manufacture_id).len();
                        assert(swit(bytes@, a1, o.address, a2));
                        assert(j3 == a3);
                        assert(bytes@.subrange(a4, a5)[0] == 0x2c);
                        assert(!is_digit(bytes@[a4]));
                        assert(j4 == a4 && j5 == a5);
                        assert(pwit(bytes@, a5, o.manufacture_id, a6));
                        assert(j6 == a6);
                        assert(false);
                    }
                }
            }
            return None;
        },
    };
    let (name, j8) = match parse_string(bytes, j7) {
        Option::Some(p) => p,
        Option::None => {
            proof {
                assert forall|o: BleInfoView, j2: int| !fwit(bytes@, i as int, o, j2) by {
                    if fwit(bytes@, i as int, o, j2) {
                        lemma_fields_witness(bytes@, i as int, o, j2);
                        lemma_field_lits();
                        let a1 = i + lit("\"address\":").len();
                        let a2 = a1 + str_tok(encode_utf8(o.address)).len();
                        let a3 = a2 + lit(",\"rssi\":").len();
                        let a4 = a3 + int_tok(o.rssi).len();
                        let a5 = a4 + lit(",\"manufacture_id\":").len();
                        let a6 = a5 + payload_tok(o.manufacture_id).len();
                        let a7 = a6 + lit(",\"name\":").len();
                        let a8 = a7 + str_tok(encode_utf8(o.name)).len();
                        assert(swit(bytes@, a1, o.address, a2));
                        assert(j3 == a3);
                        assert(bytes@.subrange(a4, a5)[0] == 0x2c);
                        assert(!is_digit(bytes@[a4]));
                        assert(j4 == a4 && j5 == a5);
                        assert(pwit(bytes@, a5, o.manufacture_id, a6));
                        assert(j6 == a6 && j7 == a7);
                        assert(swit(bytes@, a7, o.name, a8));
                        assert(false);
                    }
                }
            }
            return None;
        },
    };
    let j9 = match parse_lit(bytes, j8, ",\"time\":") {
        Option::Some(j) => j,
        Option::None => {
            proof {
                assert forall|o: BleInfoView, j2: int| !fwit(bytes@, i as int, o, j2) by {
                    if fwit(bytes@, i as int, o, j2) {
                        lemma_fields_witness(bytes@, i as int, o, j2);
                        lemma_field_lits();
                        let a1 = i + lit("\"address\":").len();
                        let a2 = a1 + str_tok(encode_utf8(o.address)).len();
                        let a3 = a2 + lit(",\"rssi\":").len();
                        let a4 = a3 + int_tok(o.rssi).len();
                        let a5 = a4 + lit(",\"manufacture_id\":").len();
                        let a6 = a5 + payload_tok(o.manufacture_id).len();
                        let a7 = a6 + lit(",\"name\":").len();
                        let a8 = a7 + str_tok(encode_utf8(o.name)).len();
                        assert(swit(bytes@, a1, o.address, a2));
                        assert(j3 == a3);
                        assert(bytes@.subrange(a4, a5)[0] == 0x2c);
                        assert(!is_digit(bytes@[a4]));
                        assert(j4 == a4 && j5 == a5);
                        assert(pwit(bytes@, a5, o.manufacture_id, a6));
                        assert(j6 == a6 && j7 == a7);
                        assert(swit(bytes@, a7, o.name, a8));
                        assert(j8 == a8);
                        assert(false);
                    }
                }
            }
            return None;
        },
    };
    let (time, j10) = match parse_string(bytes, j9) {
        Option::Some(p) => p,
        Option::None => {
            proof {
                assert forall|o: BleInfoView, j2: int| !fwit(bytes@, i as int, o, j2) by {
                    if fwit(bytes@, i as int, o, j2) {
                        lemma_fields_witness(bytes@, i as int, o, j2);
                        lemma_field_lits();
                        let a1 = i + lit("\"address\":").len();
                        let a2 = a1 + str_tok(encode_utf8(o.address)).len();
                        let a3 = a2 + lit(",\"rssi\":").len();
                        let a4 = a3 + int_tok(o.rssi).len();
                        let a5 = a4 + lit(",\"manufacture_id\":").len();
                        let a6 = a5 + payload_tok(o.manufacture_id).len();
                        let a7 = a6 + lit(",\"name\":").len();
                        let a8 = a7 + str_tok(encode_utf8(o.name)).len();
                        let a9 = a8 + lit(",\"time\":").len();
                        assert(swit(bytes@, a1, o.address, a2));
                        assert(j3 == a3);
                        assert(bytes@.subrange(a4, a5)[0] == 0x2c);
                        assert(!is_digit(bytes@[a4]));
                        assert(j4 == a4 && j5 == a5);
                        assert(pwit(bytes@, a5, o.manufacture_id, a6));
                        assert(j6 == a6 && j7 == a7);
                        assert(swit(bytes@, a7, o.name, a8));
                        assert(j8 == a8 && j9 == a9);
                        assert(swit(bytes@, a9, o.time, j2));
                        assert(false);
                    }
                }
            }
            return None;
        },
    };
    let ghost addr_v = addr@;
    let ghost name_v = name@;
    let ghost time_v = time@;
    let ghost mid_v = crate::observation::payload_view(mid);
    let ghost rssi_v = rssi as int;
    let obs = BleInfo::new(addr, rssi, mid, name, time);
    proof {
        reveal(crate::codec::fields_tok);
        lemma_cat_subrange(bytes@, i as int, j1 as int, j2p as int);
        lemma_cat_subrange(bytes@, i as int, j2p as int, j3 as int);
        lemma_cat_subrange(bytes@, i as int, j3 as int, j4 as int);
        lemma_cat_subrange(bytes@, i as int, j4 as int, j5 as int);
        lemma_cat_subrange(bytes@, i as int, j5 as int, j6 as int);
        lemma_cat_subrange(bytes@, i as int, j6 as int, j7 as int);
        lemma_cat_subrange(bytes@, i as int, j7 as int, j8 as int);
        lemma_cat_subrange(bytes@, i as int, j8 as int, j9 as int);
        lemma_cat_subrange(bytes@, i as int, j9 as int, j10 as int);
        assert(obs@.address == addr_v && obs@.rssi == rssi_v && obs@.manufacture_id == mid_v
            && obs@.name == name_v && obs@.time == time_v);
        assert(bytes@.subrange(i as int, j10 as int) == fields_tok(obs@));
        assert forall|o: BleInfoView, j2: int|
            fwit(bytes@, i as int, o, j2) implies (obs@ == o && j10 == j2) by {
            lemma_fields_witness(bytes@, i as int, o, j2);
            lemma_field_lits();
            let a1 = i + lit("\"address\":").len();
            let a2 = a1 + str_tok(encode_utf8(o.address)).len();
            let a3 = a2 + lit(",\"rssi\":").len();
            let a4 = a3 + int_tok(o.rssi).len();
            let a5 = a4 + lit(",\"manufacture_id\":").len();
            let a6 = a5 + payload_tok(o.manufacture_id).len();
            let a7 = a6 + lit(",\"name\":").len();
            let a8 = a7 + str_tok(encode_utf8(o.name)).len();
            let a9 = a8 + lit(",\"time\":").len();
            assert(swit(bytes@, a1, o.address, a2));
            assert(addr_v == o.address && j2p == a2);
            assert(j3 == a3);
            assert(bytes@.subrange(a4, a5)[0] == 0x2c);
            assert(!is_digit(bytes@[a4]));
            assert(rssi_v == o.rssi && j4 == a4);
            assert(j5 == a5);
            assert(pwit(bytes@, a5, o.manufacture_id, a6));
            assert(mid_v == o.manufacture_id && j6 == a6);
            assert(j7 == a7);
            assert(swit(bytes@, a7, o.name, a8));
            assert(name_v == o.name && j8 == a8);
            assert(j9 == a9);
            assert(swit(bytes@, a9, o.time, j2));
            assert(time_v == o.time && j10 == j2);
            assert(obs@ =~= o);
        }
    }
    Some((obs, j10))
}

/// A record token for `o` stands at `i` and ends at `j2`.
spec fn rwit(bytes: Seq<u8>, i: int, o: BleInfoView, j2: int) -> bool {
    &&& i <= j2 <= bytes.len()
    &&& bytes.subrange(i, j2) == rec_tok(o)
    &&& crate::observation::rssi_in_range(o)
}

/// Unpacks a record witness: an opening brace, the fields, a closing
/// brace.
proof fn lemma_record_witness(bytes: Seq<u8>, i: int, o: BleInfoView, j2: int)
    requires
        0 <= i,
        rwit(bytes, i, o, j2),
    ensures
        i + 2 <= j2,
        bytes[i] == 0x7b,
        bytes[j2 - 1] == 0x7d,
        fwit(bytes, i + 1, o, j2 - 1),
{
    assert(rec_tok(o) =~= seq![0x7bu8] + (fields_tok(o) + seq![0x7du8]));
    lemma_subrange_cat(bytes, i, j2, seq![0x7bu8], fields_tok(o) + seq![0x7du8]);
    lemma_subrange_cat(bytes, i + 1, j2, fields_tok(o), seq![0x7du8]);
    assert(bytes.subrange(i, i + 1)[0] == bytes[i]);
    assert(bytes.subrange(j2 - 1, j2)[0] == bytes[j2 - 1]);
}

/// Parses one observation record.
fn parse_record(bytes: &[u8], i: usize) -> (r: Option<(BleInfo, usize)>)
    requires
        i <= bytes@.len(),
    ensures
        r matches Some(p) ==> i < p.1 <= bytes@.len() && bytes@.subrange(i as int, p.1 as int)
            == rec_tok(p.0@),
        forall|o: BleInfoView, j2: int|
            rwit(bytes@, i as int, o, j2) ==> (r matches Some(p) && p.0@ == o && p.1 == j2),
{
    let n = bytes.len();
    if i >= n || bytes[i] != 0x7b {
        proof {
            assert forall|o: BleInfoView, j2: int| !rwit(bytes@, i as int, o, j2) by {
                if rwit(bytes@, i as int, o, j2) {
                    lemma_record_witness(bytes@, i as int, o, j2);
                    assert(false);
                }
            }
        }
        return None;
    }
    match parse_fields(bytes, i + 1) {
        Option::Some(p) => {
            let (obs, j) = p;
            if j >= n || bytes[j] != 0x7d {
                proof {
                    assert forall|o: BleInfoView, j2: int| !rwit(bytes@, i as int, o, j2) by {
                        if rwit(bytes@, i as int, o, j2) {
                            lemma_record_witness(bytes@, i as int, o, j2);
                            assert(fwit(bytes@, i + 1, o, j2 - 1));
                            assert(j == j2 - 1);
                            assert(false);
                        }
                    }
                }
                return None;
            }
            proof {
                assert(bytes@.subrange(i as int, i + 1) =~= seq![0x7bu8]);
                assert(bytes@.subrange(j as int, j + 1) =~= seq![0x7du8]);
                lemma_cat_subrange(bytes@, i as int, i + 1, j as int);
                lemma_cat_subrange(bytes@, i as int, j as int, j + 1);
                assert(bytes@.subrange(i as int, j + 1) =~= seq![0x7bu8] + fields_tok(obs@)
                    + seq![0x7du8]);
                assert forall|o: BleInfoView, j2: int|
                    rwit(bytes@, i as int, o, j2) implies (obs@ == o && j + 1 == j2) by {
                    lemma_record_witness(bytes@, i as int, o, j2);
                    assert(fwit(bytes@, i + 1, o, j2 - 1));
                    assert(obs@ == o && j == j2 - 1);
                }
            }
            Some((obs, j + 1))
        },
        Option::None => {
            proof {
                assert forall|o: BleInfoView, j2: int| !rwit(bytes@, i as int, o, j2) by {
                    if rwit(bytes@, i as int, o, j2) {
                        lemma_record_witness(bytes@, i as int, o, j2);
                        assert(fwit(bytes@, i + 1, o, j2 - 1));
                        assert(false);
                    }
                }
            }
            None
        },
    }
}

/// The byte values of the closing text of a snapshot document.
proof fn lemma_close_lit()
    ensures
        lit("]}").len() == 2,
        lit("]}")[0] == 0x5d,
        lit("]}")[1] == 0x7d,
{
    reveal_strlit("]}");
    let cs = "]}"@;
    assert(cs.len() == 2 && cs[0] == ']' && cs[1] == '}');
    assert(vstd::utf8::is_ascii_chars(cs));
    vstd::utf8::is_ascii_chars_encode_utf8(cs);
    assert(lit("]}")[0] == cs[0] as u8);
    assert(lit("]}")[1] == cs[1] as u8);
}

/// The whole input is the snapshot document for `id` and `items`, all
/// of whose records carry a representable signal strength.
pub open spec fn snapwit(bytes: Seq<u8>, id: Seq<char>, items: Seq<BleInfoView>) -> bool {
    &&& bytes == snapshot_tok(id, items)
    &&& forall|k: int|
        0 <= k < items.len() ==> crate::observation::rssi_in_range(#[trigger] items[k])
}

/// Unfolds the record list of a snapshot at record `m`.
proof fn lemma_recs_items_skip(items: Seq<BleInfoView>, m: int)
    requires
        0 <= m < items.len(),
    ensures
        m == items.len() - 1 ==> recs_items(items.skip(m)) == rec_tok(items[m]),
        m < items.len() - 1 ==> recs_items(items.skip(m)) == rec_tok(items[m]) + seq![0x2cu8]
            + recs_items(items.skip(m + 1)),
{
    let t = items.skip(m);
    assert(t.len() == items.len() - m);
    assert(t[0] == items[m]);
    if m == items.len() - 1 {
        assert(t.len() == 1);
    } else {
        assert(t.drop_first() =~= items.skip(m + 1));
    }
}

/// Unpacks a snapshot witness into its five components.
proof fn lemma_snapshot_witness(bytes: Seq<u8>, id: Seq<char>, items: Seq<BleInfoView>)
    requires
        snapwit(bytes, id, items),
    ensures
        ({
            let c1 = lit("{\"device_id\":").len() as int;
            let c2 = c1 + str_tok(encode_utf8(id)).len();
            let c3 = c2 + lit(",\"ble\":[").len();
            let c4 = c3 + recs_items(items).len();
            &&& bytes.subrange(0, c1) == lit("{\"device_id\":")
            &&& bytes.subrange(c1, c2) == str_tok(encode_utf8(id))
            &&& bytes.subrange(c2, c3) == lit(",\"ble\":[")
            &&& bytes.subrange(c3, c4) == recs_items(items)
            &&& bytes.subrange(c4, bytes.len() as int) == lit("]}")
            &&& c4 + 2 == bytes.len()
            &&& bytes[c4] == 0x5d
            &&& bytes[c4 + 1] == 0x7d
        }),
{
    let p1 = lit("{\"device_id\":");
    let p2 = str_tok(encode_utf8(id));
    let p3 = lit(",\"ble\":[");
    let p4 = recs_items(items);
    let p5 = lit("]}");
    lemma_close_lit();
    assert(snapshot_tok(id, items) == p1 + p2 + p3 + p4 + p5);
    assert(bytes.subrange(0, bytes.len() as int) =~= bytes);
    lemma_subrange_cat(bytes, 0, bytes.len() as int, p1 + p2 + p3 + p4, p5);
    let b4 = (p1 + p2 + p3 + p4).len() as int;
    lemma_subrange_cat(bytes, 0, b4, p1 + p2 + p3, p4);
    let b3 = (p1 + p2 + p3).len() as int;
    lemma_subrange_cat(bytes, 0, b3, p1 + p2, p3);
    let b2 = (p1 + p2).len() as int;
    lemma_subrange_cat(bytes, 0, b2, p1, p2);
    let c4 = b4;
    assert(bytes.subrange(c4, bytes.len() as int)[0] == bytes[c4]);
    assert(bytes.subrange(c4, bytes.len() as int)[1] == bytes[c4 + 1]);
}


/// The rest of the input from `i` is the record list for `items`,
/// closed by the final text of the document.
spec fn rswit(bytes: Seq<u8>, i: int, items: Seq<BleInfoView>) -> bool {
    &&& 0 <= i <= bytes.len()
    &&& bytes.subrange(i, bytes.len() as int) == recs_items(items) + lit("]}")
    &&& forall|k: int|
        0 <= k < items.len() ==> crate::observation::rssi_in_range(#[trigger] items[k])
}

/// A record token opens with a brace.
proof fn lemma_rec_first(o: BleInfoView)
    ensures
        rec_tok(o).len() >= 2,
        rec_tok(o)[0] == 0x7b,
{
    assert(rec_tok(o)[0] == (seq![0x7bu8] + fields_tok(o))[0]);
}

/// Unpacks a record-list witness into the list and the closing text.
proof fn lemma_rswit_parts(bytes: Seq<u8>, i: int, items: Seq<BleInfoView>)
    requires
        rswit(bytes, i, items),
    ensures
        i + recs_items(items).len() == bytes.len() - 2,
        bytes.subrange(i, bytes.len() - 2) == recs_items(items),
        bytes[bytes.len() - 2] == 0x5d,
        bytes[bytes.len() - 1] == 0x7d,
        items.len() > 0 ==> bytes[i] == 0x7b,
        items.len() == 0 ==> i == bytes.len() - 2,
{
    lemma_close_lit();
    lemma_subrange_cat(bytes, i, bytes.len() as int, recs_items(items), lit("]}"));
    let c = bytes.len() - 2;
    assert(bytes.subrange(c, bytes.len() as int)[0] == bytes[c]);
    assert(bytes.subrange(c, bytes.len() as int)[1] == bytes[c + 1]);
    if items.len() > 0 {
        lemma_recs_items_skip(items, 0);
        assert(items.skip(0) =~= items);
        lemma_rec_first(items[0]);
        if items.len() == 1 {
            assert(recs_items(items)[0] == rec_tok(items[0])[0]);
        } else {
            assert(recs_items(items)[0] == (rec_tok(items[0]) + seq![0x2cu8] + recs_items(
                items.skip(1),
            ))[0]);
            assert((rec_tok(items[0]) + seq![0x2cu8] + recs_items(items.skip(1)))[0] == rec_tok(
                items[0],
            )[0]);
        }
        assert(bytes.subrange(i, c)[0] == recs_items(items)[0]);
    }
}

/// One step through a record-list witness: the record for `items[m]`
/// stands at `pos`, followed by a comma or by the closing bracket.
proof fn lemma_recs_step(bytes: Seq<u8>, i: int, items: Seq<BleInfoView>, pos: int, m: int)
    requires
        rswit(bytes, i, items),
        0 <= m < items.len(),
        i <= pos <= bytes.len() - 2,
        bytes.subrange(pos, bytes.len() - 2) == recs_items(items.skip(m)),
    ensures
        rwit(bytes, pos, items[m], pos + rec_tok(items[m]).len()),
        m + 1 == items.len() ==> pos + rec_tok(items[m]).len() == bytes.len() - 2,
        m + 1 < items.len() ==> (bytes[pos + rec_tok(items[m]).len()] == 0x2c && pos + rec_tok(
            items[m],
        ).len() + 1 <= bytes.len() - 2 && bytes.subrange(
            pos + rec_tok(items[m]).len() + 1,
            bytes.len() - 2,
        ) == recs_items(items.skip(m + 1))),
{
    lemma_recs_items_skip(items, m);
    let rt = rec_tok(items[m]);
    if m == items.len() - 1 {
        assert(bytes.subrange(pos, bytes.len() - 2) == rt);
        assert(bytes.subrange(pos, pos + rt.len() as int) == rt);
    } else {
        assert(recs_items(items.skip(m)) =~= rt + (seq![0x2cu8] + recs_items(items.skip(m + 1))));
        lemma_subrange_cat(
            bytes,
            pos,
            bytes.len() - 2,
            rt,
            seq![0x2cu8] + recs_items(items.skip(m + 1)),
        );
        let q = pos + rt.len() as int;
        assert(bytes.subrange(q, bytes.len() - 2)[0] == 0x2c);
        lemma_subrange_cat(
            bytes,
            q,
            bytes.len() - 2,
            seq![0x2cu8],
            recs_items(items.skip(m + 1)),
        );
    }
}

/// Parses the record list that fills the rest of the input, up to and
/// including the closing text of the document.
#[verifier::rlimit(100)]
#[verifier::spinoff_prover]
fn parse_records(bytes: &[u8], i: usize) -> (r: Option<Vec<BleInfo>>)
    requires
        i <= bytes@.len(),
    ensures
        r matches Some(v) ==> bytes@.subrange(i as int, bytes@.len() as int) == recs_items(
            views_of(v@),
        ) + lit("]}"),
        forall|items: Seq<BleInfoView>|
            rswit(bytes@, i as int, items) ==> (r matches Some(v) && views_of(v@) == items),
{
    let n = bytes.len();
    if i < n && bytes[i] == 0x5d {
        match parse_lit(bytes, i, "]}") {
            Option::Some(j) => {
                if j != n {
                    proof {
                        assert forall|items: Seq<BleInfoView>|
                            !rswit(bytes@, i as int, items) by {
                            if rswit(bytes@, i as int, items) {
                                lemma_rswit_parts(bytes@, i as int, items);
                                assert(items.len() == 0);
                                lemma_close_lit();
                                assert(j == n);
                                assert(false);
                            }
                        }
                    }
                    return None;
                }
                let v: Vec<BleInfo> = Vec::new();
                proof {
                    lemma_close_lit();
                    assert(views_of(v@) =~= Seq::<BleInfoView>::empty());
                    assert(recs_items(views_of(v@)).len() == 0);
                    assert(bytes@.subrange(i as int, n as int) =~= recs_items(views_of(v@))
                        + lit("]}"));
                    assert forall|items: Seq<BleInfoView>|
                        rswit(bytes@, i as int, items) implies views_of(v@) == items by {
                        lemma_rswit_parts(bytes@, i as int, items);
                        if items.len() > 0 {
                            assert(bytes@[i as int] == 0x7b);
                            assert(false);
                        }
                        assert(views_of(v@) =~= items);
                    }
                }
                return Some(v);
            },
            Option::None => {
                proof {
                    assert forall|items: Seq<BleInfoView>| !rswit(bytes@, i as int, items) by {
                        if rswit(bytes@, i as int, items) {
                            lemma_rswit_parts(bytes@, i as int, items);
                            assert(items.len() == 0);
                            lemma_close_lit();
                            assert(bytes@.subrange(i as int, n as int) == lit("]}"));
                            assert(false);
                        }
                    }
                }
                return None;
            },
        }
    }
    proof {
        assert forall|items: Seq<BleInfoView>|
            rswit(bytes@, i as int, items) implies (items.len() > 0 && i as int <= n - 2
            && bytes@.subrange(i as int, n - 2) == recs_items(items.skip(0))) by {
            lemma_rswit_parts(bytes@, i as int, items);
            if items.len() == 0 {
                assert(bytes@[i as int] == 0x5d);
                assert(i < n);
                assert(false);
            }
            assert(items.skip(0) =~= items);
        }
    }
    let mut out: Vec<BleInfo> = Vec::new();
    let mut pos: usize = i;
    loop
        invariant
            n == bytes@.len(),
            i <= pos <= n,
            bytes@.subrange(i as int, pos as int) == (if out@.len() == 0 {
                Seq::<u8>::empty()
            } else {
                recs_items(views_of(out@)) + seq![0x2cu8]
            }),
            forall|items: Seq<BleInfoView>|
                rswit(bytes@, i as int, items) ==> (out@.len() < items.len() && views_of(out@)
                    == items.subrange(0, out@.len() as int) && pos as int <= n - 2
                    && bytes@.subrange(pos as int, n - 2) == recs_items(
                    items.skip(out@.len() as int),
                )),
        decreases n - pos,
    {
        let ghost m = out@.len() as int;
        proof {
            assert forall|items: Seq<BleInfoView>|
                rswit(bytes@, i as int, items) implies rwit(
                bytes@,
                pos as int,
                items[m],
                pos + rec_tok(items[m]).len(),
            ) by {
                lemma_recs_step(bytes@, i as int, items, pos as int, m);
            }
        }
        match parse_record(bytes, pos) {
            Option::Some(p) => {
                let (obs, j) = p;
                let ghost out0 = out@;
                out.push(obs);
                proof {
                    assert(views_of(out@) =~= views_of(out0).push(obs@));
                    crate::codec::lemma_recs_items_snoc(views_of(out0), obs@);
                    lemma_cat_subrange(bytes@, i as int, pos as int, j as int);
                    if out0.len() == 0 {
                        assert(bytes@.subrange(i as int, j as int) =~= rec_tok(obs@));
                        assert(bytes@.subrange(i as int, j as int) == recs_items(
                            views_of(out@),
                        ));
                    } else {
                        assert(bytes@.subrange(i as int, j as int) =~= recs_items(
                            views_of(out0),
                        ) + seq![0x2cu8] + rec_tok(obs@));
                        assert(bytes@.subrange(i as int, j as int) == recs_items(
                            views_of(out@),
                        ));
                    }
                }
                if j >= n {
                    proof {
                        assert forall|items: Seq<BleInfoView>|
                            !rswit(bytes@, i as int, items) by {
                            if rswit(bytes@, i as int, items) {
                                lemma_recs_step(bytes@, i as int, items, pos as int, m);
                                assert(obs@ == items[m] && j == pos + rec_tok(
                                    items[m],
                                ).len());
                                assert(j <= n - 2);
                                assert(false);
                            }
                        }
                    }
                    return None;
                }
                let d = bytes[j];
                if d == 0x5d {
                    match parse_lit(bytes, j, "]}") {
                        Option::Some(jj) => {
                            if jj != n {
                                proof {
                                    assert forall|items: Seq<BleInfoView>|
                                        !rswit(bytes@, i as int, items) by {
                                        if rswit(bytes@, i as int, items) {
                                            lemma_recs_step(
                                                bytes@,
                                                i as int,
                                                items,
                                                pos as int,
                                                m,
                                            );
                                            assert(obs@ == items[m] && j == pos + rec_tok(
                                                items[m],
                                            ).len());
                                            if m + 1 < items.len() {
                                                assert(bytes@[j as int] == 0x2c);
                                                assert(false);
                                            }
                                            assert(j == n - 2);
                                            lemma_close_lit();
                                            assert(jj == n);
                                            assert(false);
                                        }
                                    }
                                }
                                return None;
                            }
                            proof {
                                lemma_close_lit();
                                lemma_cat_subrange(bytes@, i as int, j as int, n as int);
                                assert(bytes@.subrange(i as int, n as int) == recs_items(
                                    views_of(out@),
                                ) + lit("]}"));
                                assert forall|items: Seq<BleInfoView>|
                                    rswit(bytes@, i as int, items) implies views_of(out@)
                                    == items by {
                                    lemma_recs_step(bytes@, i as int, items, pos as int, m);
                                    assert(obs@ == items[m] && j == pos + rec_tok(
                                        items[m],
                                    ).len());
                                    if m + 1 < items.len() {
                                        assert(bytes@[j as int] == 0x2c);
                                        assert(false);
                                    }
                                    assert(m + 1 == items.len());
                                    assert(views_of(out@) =~= items);
                                }
                            }
                            return Some(out);
                        },
                        Option::None => {
                            proof {
                                assert forall|items: Seq<BleInfoView>|
                                    !rswit(bytes@, i as int, items) by {
                                    if rswit(bytes@, i as int, items) {
                                        lemma_recs_step(bytes@, i as int, items, pos as int, m);
                                        lemma_rswit_parts(bytes@, i as int, items);
                                        assert(obs@ == items[m] && j == pos + rec_tok(
                                            items[m],
                                        ).len());
                                        if m + 1 < items.len() {
                                            assert(bytes@[j as int] == 0x2c);
                                            assert(false);
                                        }
                                        assert(j == n - 2);
                                        lemma_close_lit();
                                        assert(bytes@.subrange(j as int, n as int) =~= lit(
                                            "]}",
                                        ));
                                        assert(false);
                                    }
                                }
                            }
                            return None;
                        },
                    }
                } else if d == 0x2c {
                    proof {
                        assert(bytes@.subrange(j as int, j + 1) =~= seq![0x2cu8]);
                        lemma_cat_subrange(bytes@, i as int, j as int, j + 1);
                        assert(bytes@.subrange(i as int, j + 1) == recs_items(views_of(out@))
                            + seq![0x2cu8]);
                        assert forall|items: Seq<BleInfoView>|
                            rswit(bytes@, i as int, items) implies (out@.len() < items.len()
                            && views_of(out@) == items.subrange(0, out@.len() as int) && j + 1
                            <= n - 2 && bytes@.subrange(j + 1, n - 2) == recs_items(
                            items.skip(out@.len() as int),
                        )) by {
                            lemma_recs_step(bytes@, i as int, items, pos as int, m);
                            lemma_rswit_parts(bytes@, i as int, items);
                            assert(obs@ == items[m] && j == pos + rec_tok(items[m]).len());
                            if m + 1 == items.len() {
                                assert(j == n - 2);
                                assert(bytes@[j as int] == 0x5d);
                                assert(false);
                            }
                            assert(views_of(out@) =~= items.subrange(0, m + 1));
                        }
                    }
                    pos = j + 1;
                } else {
                    proof {
                        assert forall|items: Seq<BleInfoView>|
                            !rswit(bytes@, i as int, items) by {
                            if rswit(bytes@, i as int, items) {
                                lemma_recs_step(bytes@, i as int, items, pos as int, m);
                                lemma_rswit_parts(bytes@, i as int, items);
                                assert(obs@ == items[m] && j == pos + rec_tok(
                                    items[m],
                                ).len());
                                if m + 1 == items.len() {
                                    assert(j == n - 2);
                                    assert(bytes@[j as int] == 0x5d);
                                } else {
                                    assert(bytes@[j as int] == 0x2c);
                                }
                                assert(false);
                            }
                        }
                    }
                    return None;
                }
            },
            Option::None => {
                proof {
                    assert forall|items: Seq<BleInfoView>| !rswit(bytes@, i as int, items) by {
                        if rswit(bytes@, i as int, items) {
                            assert(rwit(
                                bytes@,
                                pos as int,
                                items[m],
                                pos + rec_tok(items[m]).len(),
                            ));
                            assert(false);
                        }
                    }
                }
                return None;
            },
        }
    }
}

/// Decodes a query-endpoint document.
///
/// `Some` exactly on the canonical wire shape: on success the input is
/// the snapshot document for the returned device identifier and
/// observations, and every snapshot document whose records carry a
/// representable signal strength decodes back to its identifier and
/// records — the round trip with the encoder is exact.
#[verifier::rlimit(100)]
#[verifier::spinoff_prover]
pub fn decode_snapshot(s: &str) -> (r: Option<(String, Vec<BleInfo>)>)
    ensures
        r matches Some(p) ==> encode_utf8(s@) == snapshot_tok(p.0@, views_of(p.1@)),
        forall|id: Seq<char>, items: Seq<BleInfoView>|
            snapwit(encode_utf8(s@), id, items) ==> (r matches Some(p) && p.0@ == id
                && views_of(p.1@) == items),
{
    let bytes = s.as_bytes();
    assert(bytes@ == encode_utf8(s@));
    let n = bytes.len();
    let q1 = match parse_lit(bytes, 0, "{\"device_id\":") {
        Option::Some(j) => j,
        Option::None => {
            proof {
                assert forall|id: Seq<char>, items: Seq<BleInfoView>|
                    !snapwit(bytes@, id, items) by {
                    if snapwit(bytes@, id, items) {
                        lemma_snapshot_witness(bytes@, id, items);
                        assert(false);
                    }
                }
            }
            return None;
        },
    };
    let (did, q2) = match parse_string(bytes, q1) {
        Option::Some(p) => p,
        Option::None => {
            proof {
                assert forall|id: Seq<char>, items: Seq<BleInfoView>|
                    !snapwit(bytes@, id, items) by {
                    if snapwit(bytes@, id, items) {
                        lemma_snapshot_witness(bytes@, id, items);
                        let c1 = lit("{\"device_id\":").len() as int;
                        let c2 = c1 + str_tok(encode_utf8(id)).len();
                        assert(swit(bytes@, c1, id, c2));
                        assert(false);
                    }
                }
            }
            return None;
        },
    };
    let q3 = match parse_lit(bytes, q2, ",\"ble\":[") {
        Option::Some(j) => j,
        Option::None => {
            proof {
                assert forall|id: Seq<char>, items: Seq<BleInfoView>|
                    !snapwit(bytes@, id, items) by {
                    if snapwit(bytes@, id, items) {
                        lemma_snapshot_witness(bytes@, id, items);
                        let c1 = lit("{\"device_id\":").len() as int;
                        let c2 = c1 + str_tok(encode_utf8(id)).len();
                        assert(swit(bytes@, c1, id, c2));
                        assert(q2 == c2);
                        assert(false);
                    }
                }
            }
            return None;
        },
    };
    let ghost did_v = did@;
    proof {
        assert forall|id: Seq<char>, items: Seq<BleInfoView>|
            snapwit(bytes@, id, items) implies (did_v == id && rswit(bytes@, q3 as int, items)) by {
            lemma_snapshot_witness(bytes@, id, items);
            let c1 = lit("{\"device_id\":").len() as int;
            let c2 = c1 + str_tok(encode_utf8(id)).len();
            let c3 = c2 + lit(",\"ble\":[").len();
            assert(swit(bytes@, c1, id, c2));
            assert(q2 == c2 && q3 == c3);
            lemma_cat_subrange(bytes@, c3, bytes@.len() - 2, bytes@.len() as int);
            assert(bytes@.subrange(q3 as int, bytes@.len() as int) == recs_items(items) + lit(
                "]}",
            ));
        }
    }
    match parse_records(bytes, q3) {
        Option::Some(v) => {
            proof {
                lemma_cat_subrange(bytes@, 0, q1 as int, q2 as int);
                lemma_cat_subrange(bytes@, 0, q2 as int, q3 as int);
                lemma_cat_subrange(bytes@, 0, q3 as int, n as int);
                assert(bytes@.subrange(0, n as int) =~= bytes@);
                assert(bytes@ == (lit("{\"device_id\":") + str_tok(encode_utf8(did_v)) + lit(
                    ",\"ble\":[",
                )) + (recs_items(views_of(v@)) + lit("]}")));
                assert(bytes@ =~= snapshot_tok(did_v, views_of(v@)));
            }
            Some((did, v))
        },
        Option::None => {
            proof {
                assert forall|id: Seq<char>, items: Seq<BleInfoView>|
                    !snapwit(bytes@, id, items) by {
                    if snapwit(bytes@, id, items) {
                        assert(rswit(bytes@, q3 as int, items));
                        assert(false);
                    }
                }
            }
            None
        },
    }
}

} // verus!
