//! LRC parsing: timed lyric lines and `[ti:]` / `[ar:]` metadata.
//!
//! Times are kept as whole milliseconds. A timestamp `[mm:ss.xx]` is read
//! as two decimal numerals (an optional sign, digits, an optional fraction,
//! an optional exponent), taken at their exact decimal value; fraction
//! digits past the third one do not change the value.

use vstd::prelude::*;
use crate::text::{chars_of, find_char, index_of, lemma_index_of_bounds, string_of_range, trim, trim_bounds};

verus! {

/// Whether `c` is an ASCII decimal digit.
pub open spec fn is_digit(c: char) -> bool {
    '0' <= c <= '9'
}

/// The value of the digit character `c`.
pub open spec fn digit_val(c: char) -> nat {
    (c as u32 - '0' as u32) as nat
}

/// Every character of `s` is a decimal digit.
pub open spec fn all_digits(s: Seq<char>) -> bool {
    forall|i: int| 0 <= i < s.len() ==> is_digit(#[trigger] s[i])
}

/// Every character of `s` is `'0'`.
pub open spec fn all_zeros(s: Seq<char>) -> bool {
    forall|i: int| 0 <= i < s.len() ==> #[trigger] s[i] == '0'
}

/// The value of a string of decimal digits.
pub open spec fn digits_value(s: Seq<char>) -> nat
    decreases s.len(),
{
    if s.len() == 0 {
        0
    } else {
        digits_value(s.drop_last()) * 10 + digit_val(s.last())
    }
}

/// The `i`-th fraction digit, or 0 past the end.
pub open spec fn frac_digit(f: Seq<char>, i: int) -> nat {
    if i < f.len() {
        digit_val(f[i])
    } else {
        0
    }
}

/// The first three fraction digits, in thousandths.
pub open spec fn frac_milli(f: Seq<char>) -> nat {
    frac_digit(f, 0) * 100 + frac_digit(f, 1) * 10 + frac_digit(f, 2)
}

/// `n` zero digits.
pub open spec fn zeros(n: nat) -> Seq<char> {
    Seq::new(n, |i: int| '0')
}

/// The integer digits of `0.d × 10^p`: the first `p` digits of `d`,
/// padded with zeros past its end.
pub open spec fn shift_int(d: Seq<char>, p: int) -> Seq<char> {
    if p <= 0 {
        Seq::empty()
    } else if p <= d.len() {
        d.take(p)
    } else {
        d + zeros((p - d.len()) as nat)
    }
}

/// The fraction digits of `0.d × 10^p`: the digits of `d` after the
/// first `p`, with `-p` zeros in front when `p` is negative.
pub open spec fn shift_frac(d: Seq<char>, p: int) -> Seq<char> {
    if p <= 0 {
        zeros((-p) as nat) + d
    } else if p <= d.len() {
        d.skip(p)
    } else {
        Seq::empty()
    }
}

/// Position of the exponent marker `e` or `E` (the length when none).
pub open spec fn exp_index(u: Seq<char>) -> int {
    let a = index_of(u, 'e');
    let b = index_of(u, 'E');
    if a <= b {
        a
    } else {
        b
    }
}

/// An exponent `[+-]? digits` with at least one digit, as an integer.
pub open spec fn exponent(x: Seq<char>) -> Option<int> {
    let signed = x.len() > 0 && (x[0] == '-' || x[0] == '+');
    let ds = if signed {
        x.drop_first()
    } else {
        x
    };
    if ds.len() > 0 && all_digits(ds) {
        Some(
            if x[0] == '-' {
                -(digits_value(ds) as int)
            } else {
                digits_value(ds) as int
            },
        )
    } else {
        None
    }
}

/// A decimal numeral `[+-]? digits ('.' digits)? ([eE] [+-]? digits)?`
/// with at least one mantissa digit (the forms `f64::from_str` reads as a
/// finite number): its sign, and its integer and fraction digits once the
/// exponent has moved the decimal point.
#[verifier::opaque]
pub open spec fn numeral(s: Seq<char>) -> Option<(bool, Seq<char>, Seq<char>)> {
    let signed = s.len() > 0 && (s[0] == '-' || s[0] == '+');
    let neg = s.len() > 0 && s[0] == '-';
    let u = if signed {
        s.drop_first()
    } else {
        s
    };
    let x = exp_index(u);
    let m = u.take(x);
    let e = if x < u.len() {
        exponent(u.skip(x + 1))
    } else {
        Some(0int)
    };
    let dot = index_of(m, '.');
    let ip = m.take(dot);
    let fp = if dot < m.len() {
        m.skip(dot + 1)
    } else {
        Seq::<char>::empty()
    };
    if all_digits(ip) && all_digits(fp) && ip.len() + fp.len() > 0 && e is Some {
        let p = ip.len() + e.unwrap();
        Some((neg, shift_int(ip + fp, p), shift_frac(ip + fp, p)))
    } else {
        None
    }
}

/// The numeral lies in `0..=bound` (a negative numeral only as zero).
pub open spec fn in_range(n: (bool, Seq<char>, Seq<char>), bound: nat) -> bool {
    if n.0 {
        digits_value(n.1) == 0 && all_zeros(n.2)
    } else {
        digits_value(n.1) < bound || (digits_value(n.1) == bound && all_zeros(n.2))
    }
}

/// The value of a non-negative numeral in thousandths.
pub open spec fn milli(n: (bool, Seq<char>, Seq<char>)) -> nat {
    if n.0 {
        0
    } else {
        digits_value(n.1) * 1000 + frac_milli(n.2)
    }
}

/// A tag body `mm:ss.xx` read as a time in milliseconds: minutes in
/// `0..=99`, seconds in `0..=60`, each side trimmed.
pub open spec fn timestamp(body: Seq<char>) -> Option<nat> {
    let k = index_of(body, ':');
    if k >= body.len() {
        None
    } else {
        match (numeral(trim(body.take(k))), numeral(trim(body.skip(k + 1)))) {
            (Some(m), Some(s)) => if in_range(m, 99) && in_range(s, 60) {
                Some(milli(m) * 60 + milli(s))
            } else {
                None
            },
            _ => None,
        }
    }
}

/// Inserting keeps every entry: one more occurrence of `x`.
proof fn lemma_insert_multiset(s: Seq<(nat, Seq<char>)>, x: (nat, Seq<char>))
    ensures
        insert_by_time(s, x).to_multiset() == s.to_multiset().insert(x),
    decreases s.len(),
{
    broadcast use vstd::seq_lib::group_to_multiset_ensures;

    if s.len() == 0 || s.last().0 <= x.0 {
    } else {
        lemma_insert_multiset(s.drop_last(), x);
        assert(s.drop_last().push(s.last()) =~= s);
        assert(s.to_multiset() =~= s.drop_last().to_multiset().insert(s.last()));
        assert(insert_by_time(s, x).to_multiset() =~= s.to_multiset().insert(x));
    }
}

/// Inserting into entries ordered by time keeps them ordered.
proof fn lemma_insert_sorted(s: Seq<(nat, Seq<char>)>, x: (nat, Seq<char>))
    requires
        sorted_by_time(s),
    ensures
        sorted_by_time(insert_by_time(s, x)),
    decreases s.len(),
{
    broadcast use vstd::seq_lib::group_to_multiset_ensures;

    if s.len() == 0 || s.last().0 <= x.0 {
        let r = s.push(x);
        assert forall|i: int, j: int| 0 <= i <= j < r.len() implies r[i].0 <= r[j].0 by {
            if j == r.len() - 1 && i < j {
                assert(r[i] == s[i]);
            }
        }
    } else {
        let t = s.drop_last();
        let l = s.last();
        assert(sorted_by_time(t));
        lemma_insert_sorted(t, x);
        lemma_insert_multiset(t, x);
        let u = insert_by_time(t, x);
        let r = u.push(l);
        assert forall|i: int, j: int| 0 <= i <= j < r.len() implies r[i].0 <= r[j].0 by {
            if j == r.len() - 1 && i < j {
                let e = u[i];
                assert(u.to_multiset().count(e) > 0);
                assert(t.to_multiset().insert(x).count(e) > 0);
                if e != x {
                    assert(t.to_multiset().count(e) > 0);
                    assert(t.contains(e));
                    let k = choose|k: int| 0 <= k < t.len() && t[k] == e;
                    assert(s[k] == e);
                }
            }
        }
    }
}

/// The stable sort orders entries by time and keeps exactly the same
/// entries.
pub proof fn lemma_sort_by_time(s: Seq<(nat, Seq<char>)>)
    ensures
        sorted_by_time(sort_by_time(s)),
        sort_by_time(s).to_multiset() == s.to_multiset(),
        sort_by_time(s).len() == s.len(),
    decreases s.len(),
{
    broadcast use vstd::seq_lib::group_to_multiset_ensures;

    if s.len() > 0 {
        lemma_sort_by_time(s.drop_last());
        lemma_insert_sorted(sort_by_time(s.drop_last()), s.last());
        lemma_insert_multiset(sort_by_time(s.drop_last()), s.last());
        assert(s.drop_last().push(s.last()) =~= s);
    }
    assert(sort_by_time(s).to_multiset().len() == sort_by_time(s).len());
    assert(s.to_multiset().len() == s.len());
}

/// A numeral as the parser keeps it: sign, integer value capped at
/// `NUM_CAP`, fraction in thousandths, and whether the fraction is zero.
struct Numeral {
    neg: bool,
    int_capped: u64,
    frac_milli: u64,
    frac_zero: bool,
}

/// Integer parts above this value are out of every range that is checked.
const NUM_CAP: u64 = 1000;

proof fn lemma_digits_value_push(s: Seq<char>, c: char)
    ensures
        digits_value(s.push(c)) == digits_value(s) * 10 + digit_val(c),
{
    assert(s.push(c).drop_last() =~= s);
}

/// Whether `v[lo..hi]` is all digits.
fn digits_only(v: &Vec<char>, lo: usize, hi: usize) -> (r: bool)
    requires
        lo <= hi <= v@.len(),
    ensures
        r == all_digits(v@.subrange(lo as int, hi as int)),
{
    let mut i = lo;
    while i < hi
        invariant
            lo <= i <= hi <= v@.len(),
            forall|j: int| lo <= j < i ==> is_digit(#[trigger] v@[j]),
        decreases hi - i,
    {
        if !('0' <= v[i] && v[i] <= '9') {
            assert(!is_digit(v@.subrange(lo as int, hi as int)[i - lo]));
            return false;
        }
        i = i + 1;
    }
    assert forall|j: int| 0 <= j < hi - lo implies is_digit(
        #[trigger] v@.subrange(lo as int, hi as int)[j],
    ) by {
        assert(v@.subrange(lo as int, hi as int)[j] == v@[lo + j]);
    }
    true
}

/// Whether `v[lo..hi]` is all `'0'`.
fn zeros_only(v: &Vec<char>, lo: usize, hi: usize) -> (r: bool)
    requires
        lo <= hi <= v@.len(),
    ensures
        r == all_zeros(v@.subrange(lo as int, hi as int)),
{
    let mut i = lo;
    while i < hi
        invariant
            lo <= i <= hi <= v@.len(),
            forall|j: int| lo <= j < i ==> #[trigger] v@[j] == '0',
        decreases hi - i,
    {
        if v[i] != '0' {
            assert(v@.subrange(lo as int, hi as int)[i - lo] != '0');
            return false;
        }
        i = i + 1;
    }
    assert forall|j: int| 0 <= j < hi - lo implies #[trigger] v@.subrange(
        lo as int,
        hi as int,
    )[j] == '0' by {
        assert(v@.subrange(lo as int, hi as int)[j] == v@[lo + j]);
    }
    true
}

/// `min(x, NUM_CAP)`.
spec fn capped(x: nat) -> nat {
    if x < NUM_CAP {
        x
    } else {
        NUM_CAP as nat
    }
}

/// `min(digits_value(v[lo..hi]), cap)`, for a run of digits.
fn capped_to(v: &Vec<char>, lo: usize, hi: usize, cap: u128) -> (r: u128)
    requires
        lo <= hi <= v@.len(),
        all_digits(v@.subrange(lo as int, hi as int)),
        cap < 0x1_0000_0000_0000_0000_0000_0000_0000,
    ensures
        r == if digits_value(v@.subrange(lo as int, hi as int)) < cap {
            digits_value(v@.subrange(lo as int, hi as int))
        } else {
            cap as nat
        },
{
    let mut i = lo;
    let mut acc: u128 = 0;
    while i < hi
        invariant
            lo <= i <= hi <= v@.len(),
            all_digits(v@.subrange(lo as int, hi as int)),
            cap < 0x1_0000_0000_0000_0000_0000_0000_0000,
            acc == if digits_value(v@.subrange(lo as int, i as int)) < cap {
                digits_value(v@.subrange(lo as int, i as int))
            } else {
                cap as nat
            },
        decreases hi - i,
    {
        let c = v[i];
        assert(is_digit(v@.subrange(lo as int, hi as int)[i - lo]));
        let d = (c as u32 - '0' as u32) as u128;
        proof {
            assert(v@.subrange(lo as int, i + 1) =~= v@.subrange(lo as int, i as int).push(c));
            lemma_digits_value_push(v@.subrange(lo as int, i as int), c);
        }
        if acc < cap {
            let n = acc * 10 + d;
            acc = if n < cap { n } else { cap };
        }
        i = i + 1;
    }
    acc
}

proof fn lemma_cap_zeros_step(d: Seq<char>, z: nat)
    ensures
        capped(digits_value(d + zeros(z + 1))) == if capped(digits_value(d + zeros(z))) * 10
            < NUM_CAP {
            capped(digits_value(d + zeros(z))) * 10
        } else {
            NUM_CAP as nat
        },
{
    assert(d + zeros(z + 1) =~= (d + zeros(z)).push('0'));
    lemma_digits_value_push(d + zeros(z), '0');
}

/// Past three padding zeros the capped value no longer changes.
proof fn lemma_cap_zeros_far(d: Seq<char>, z: nat)
    requires
        z >= 3,
    ensures
        capped(digits_value(d + zeros(z))) == capped(digits_value(d + zeros(3))),
    decreases z,
{
    lemma_cap_zeros_step(d, 0);
    lemma_cap_zeros_step(d, 1);
    lemma_cap_zeros_step(d, 2);
    if z > 3 {
        lemma_cap_zeros_far(d, (z - 1) as nat);
        lemma_cap_zeros_step(d, (z - 1) as nat);
    }
}

proof fn lemma_frac_digit_shift(d: Seq<char>, p: int, i: int)
    requires
        0 <= i,
    ensures
        frac_digit(shift_frac(d, p), i) == if 0 <= p + i < d.len() {
            digit_val(d[p + i])
        } else {
            0
        },
{
    let f = shift_frac(d, p);
    if p <= 0 && i < f.len() {
        if i < -p {
            assert(f[i] == '0');
        } else {
            assert(f[i] == d[p + i]);
        }
    }
}

proof fn lemma_frac_zero_shift(d: Seq<char>, p: int)
    ensures
        all_zeros(shift_frac(d, p)) == if p <= 0 {
            all_zeros(d)
        } else if p <= d.len() {
            all_zeros(d.skip(p))
        } else {
            true
        },
{
    if p <= 0 {
        let f = shift_frac(d, p);
        if all_zeros(d) {
            assert forall|i: int| 0 <= i < f.len() implies #[trigger] f[i] == '0' by {
                if i >= -p {
                    assert(f[i] == d[i + p]);
                }
            }
        }
        if all_zeros(f) {
            assert forall|i: int| 0 <= i < d.len() implies #[trigger] d[i] == '0' by {
                assert(f[i - p] == d[i]);
            }
        }
    }
}

/// Far enough out, moving the decimal point further changes nothing that
/// is read: the capped integer part, the thousandths, the zero fraction.
proof fn lemma_shift_far(d: Seq<char>, p1: int, p2: int)
    requires
        (p1 >= d.len() + 3 && p2 >= d.len() + 3) || (p1 <= -3 && p2 <= -3),
    ensures
        capped(digits_value(shift_int(d, p1))) == capped(digits_value(shift_int(d, p2))),
        frac_milli(shift_frac(d, p1)) == frac_milli(shift_frac(d, p2)),
        all_zeros(shift_frac(d, p1)) == all_zeros(shift_frac(d, p2)),
{
    lemma_frac_zero_shift(d, p1);
    lemma_frac_zero_shift(d, p2);
    if p1 >= d.len() + 3 {
        lemma_cap_zeros_far(d, (p1 - d.len()) as nat);
        lemma_cap_zeros_far(d, (p2 - d.len()) as nat);
    } else {
        lemma_frac_digit_shift(d, p1, 0);
        lemma_frac_digit_shift(d, p1, 1);
        lemma_frac_digit_shift(d, p1, 2);
        lemma_frac_digit_shift(d, p2, 0);
        lemma_frac_digit_shift(d, p2, 1);
        lemma_frac_digit_shift(d, p2, 2);
    }
}

/// The digit of `d` at `p + i` (0 outside `d`), `p = ±pmag`.
fn digit_at(d: &Vec<char>, pneg: bool, pmag: u128, i: u128) -> (r: u64)
    requires
        all_digits(d@),
        i < 3,
        pmag < 0x1_0000_0000_0000_0000_0000_0000_0000,
    ensures
        r == ({
            let p = if pneg { -(pmag as int) } else { pmag as int };
            if 0 <= p + i < d@.len() {
                digit_val(d@[p + i])
            } else {
                0
            }
        }),
        r < 10,
{
    let n = d.len() as u128;
    let q: u128 = if pneg {
        if pmag > i {
            return 0;
        }
        i - pmag
    } else {
        pmag + i
    };
    if q < n {
        assert(is_digit(d@[q as int]));
        (d[q as usize] as u32 - '0' as u32) as u64
    } else {
        0
    }
}

/// The parts of `0.d × 10^p` that are read, `p = ±pmag`: the capped
/// integer part, the thousandths, and whether the fraction is zero.
fn shifted_parts(d: &Vec<char>, pneg: bool, pmag: u128) -> (r: (u64, u64, bool))
    requires
        all_digits(d@),
        pmag < 0x1_0000_0000_0000_0000_0000_0000_0000,
    ensures
        ({
            let p = if pneg { -(pmag as int) } else { pmag as int };
            &&& r.0 == capped(digits_value(shift_int(d@, p)))
            &&& r.1 == frac_milli(shift_frac(d@, p))
            &&& r.2 == all_zeros(shift_frac(d@, p))
        }),
{
    let ghost p = if pneg { -(pmag as int) } else { pmag as int };
    let n = d.len();
    let int_part: u64 = if pneg || pmag == 0 {
        0
    } else if pmag <= n as u128 {
        assert(d@.subrange(0, pmag as int) =~= d@.take(pmag as int));
        capped_to(d, 0, pmag as usize, NUM_CAP as u128) as u64
    } else {
        let z = pmag - n as u128;
        assert(d@.subrange(0, n as int) =~= d@);
        assert(d@ + zeros(0) =~= d@);
        let mut acc = capped_to(d, 0, n, NUM_CAP as u128) as u64;
        let mut k: u128 = 0;
        while k < z && k < 3
            invariant
                k <= z,
                k <= 3,
                acc == capped(digits_value(d@ + zeros(k as nat))),
            decreases 3 - k,
        {
            proof {
                lemma_cap_zeros_step(d@, k as nat);
            }
            acc = if acc * 10 < NUM_CAP { acc * 10 } else { NUM_CAP };
            k = k + 1;
        }
        proof {
            if z > 3 {
                lemma_cap_zeros_far(d@, z as nat);
            }
        }
        acc
    };
    let f0 = digit_at(d, pneg, pmag, 0);
    let f1 = digit_at(d, pneg, pmag, 1);
    let f2 = digit_at(d, pneg, pmag, 2);
    proof {
        lemma_frac_digit_shift(d@, p, 0);
        lemma_frac_digit_shift(d@, p, 1);
        lemma_frac_digit_shift(d@, p, 2);
        lemma_frac_zero_shift(d@, p);
    }
    let zero = if pneg || pmag == 0 {
        assert(d@.subrange(0, n as int) =~= d@);
        zeros_only(d, 0, n)
    } else if pmag <= n as u128 {
        assert(d@.subrange(pmag as int, n as int) =~= d@.skip(pmag as int));
        zeros_only(d, pmag as usize, n)
    } else {
        true
    };
    (int_part, f0 * 100 + f1 * 10 + f2, zero)
}

/// Reads the exponent `v[lo..hi]`: whether it is negative, and its
/// magnitude capped at `cap`.
fn read_exponent(v: &Vec<char>, lo: usize, hi: usize, cap: u128) -> (r: Option<(bool, u128)>)
    requires
        lo <= hi <= v@.len(),
        cap < 0x1_0000_0000_0000_0000_0000_0000_0000,
    ensures
        r is Some == exponent(v@.subrange(lo as int, hi as int)) is Some,
        r matches Some((neg, m)) ==> {
            let x = v@.subrange(lo as int, hi as int);
            let e = exponent(x).unwrap();
            let mag: int = if e < 0 { -e } else { e };
            &&& (neg ==> e <= 0) && (!neg ==> e >= 0)
            &&& m == if mag < cap { mag } else { cap as int }
        },
{
    let ghost x = v@.subrange(lo as int, hi as int);
    let signed = lo < hi && (v[lo] == '-' || v[lo] == '+');
    let neg = lo < hi && v[lo] == '-';
    let dlo = if signed { lo + 1 } else { lo };
    assert(v@.subrange(dlo as int, hi as int) =~= if signed { x.drop_first() } else { x });
    if dlo == hi || !digits_only(v, dlo, hi) {
        return None;
    }
    let m = capped_to(v, dlo, hi, cap);
    Some((neg, m))
}

proof fn lemma_numeral_eq(
    s: Seq<char>,
    u: Seq<char>,
    m: Seq<char>,
    ip: Seq<char>,
    fp: Seq<char>,
    e: Option<int>,
)
    requires
        u == (if s.len() > 0 && (s[0] == '-' || s[0] == '+') {
            s.drop_first()
        } else {
            s
        }),
        m == u.take(exp_index(u)),
        e == (if exp_index(u) < u.len() {
            exponent(u.skip(exp_index(u) + 1))
        } else {
            Some(0int)
        }),
        ip == m.take(index_of(m, '.')),
        fp == (if index_of(m, '.') < m.len() {
            m.skip(index_of(m, '.') + 1)
        } else {
            Seq::<char>::empty()
        }),
    ensures
        numeral(s) == if all_digits(ip) && all_digits(fp) && ip.len() + fp.len() > 0 && e is Some {
            Some(
                (
                    s.len() > 0 && s[0] == '-',
                    shift_int(ip + fp, ip.len() + e.unwrap()),
                    shift_frac(ip + fp, ip.len() + e.unwrap()),
                ),
            )
        } else {
            None
        },
{
    reveal(numeral);
}

/// Moving the point by a capped exponent reads the same as by the exact
/// one, once the cap is past the digits.
proof fn lemma_capped_exponent(d: Seq<char>, ilen: int, eneg: bool, emag: int, e: int)
    requires
        0 <= ilen <= d.len(),
        eneg ==> e <= 0,
        !eneg ==> e >= 0,
        emag == if (if e < 0 { -e } else { e }) < d.len() + 8 {
            if e < 0 { -e } else { e }
        } else {
            d.len() + 8int
        },
    ensures
        ({
            let p = if eneg { ilen - emag } else { ilen + emag };
            let pt = ilen + e;
            &&& capped(digits_value(shift_int(d, p))) == capped(digits_value(shift_int(d, pt)))
            &&& frac_milli(shift_frac(d, p)) == frac_milli(shift_frac(d, pt))
            &&& all_zeros(shift_frac(d, p)) == all_zeros(shift_frac(d, pt))
        }),
{
    let p = if eneg { ilen - emag } else { ilen + emag };
    let pt = ilen + e;
    if p != pt {
        lemma_shift_far(d, p, pt);
    }
}

/// Every digit read off `0.d × 10^p` is a decimal digit.
proof fn lemma_shift_frac_digits(d: Seq<char>, p: int)
    requires
        all_digits(d),
    ensures
        all_digits(shift_frac(d, p)),
{
    let f = shift_frac(d, p);
    assert forall|i: int| 0 <= i < f.len() implies is_digit(#[trigger] f[i]) by {
        if p <= 0 {
            if i >= -p {
                assert(f[i] == d[i + p]);
            }
        } else {
            assert(f[i] == d[i + p]);
        }
    }
}

/// `v[a..b] + v[c..e]`.
fn concat_ranges(v: &Vec<char>, a: usize, b: usize, c: usize, e: usize) -> (d: Vec<char>)
    requires
        a <= b <= v@.len(),
        c <= e <= v@.len(),
    ensures
        d@ == v@.subrange(a as int, b as int) + v@.subrange(c as int, e as int),
{
    let mut d: Vec<char> = Vec::new();
    let mut i = a;
    while i < b
        invariant
            a <= i <= b <= v@.len(),
            d@ == v@.subrange(a as int, i as int),
        decreases b - i,
    {
        d.push(v[i]);
        assert(d@ =~= v@.subrange(a as int, i + 1));
        i = i + 1;
    }
    let ghost first = d@;
    let mut i = c;
    while i < e
        invariant
            c <= i <= e <= v@.len(),
            d@ == first + v@.subrange(c as int, i as int),
        decreases e - i,
    {
        d.push(v[i]);
        assert(d@ =~= first + v@.subrange(c as int, i + 1));
        i = i + 1;
    }
    d
}

/// The parts read off `0.d × 10^(ilen + e)`, given `e`'s sign and its
/// magnitude capped at `d.len() + 8`.
fn shifted_numeral(d: &Vec<char>, ilen: usize, eneg: bool, emag: u128, Ghost(e): Ghost<int>) -> (r: (
    u64,
    u64,
    bool,
))
    requires
        all_digits(d@),
        ilen <= d@.len(),
        eneg ==> e <= 0,
        !eneg ==> e >= 0,
        emag == if (if e < 0 { -e } else { e }) < d@.len() + 8 {
            if e < 0 { -e } else { e }
        } else {
            d@.len() + 8int
        },
    ensures
        r.0 == capped(digits_value(shift_int(d@, ilen + e))),
        r.1 == frac_milli(shift_frac(d@, ilen + e)),
        r.2 == all_zeros(shift_frac(d@, ilen + e)),
        all_digits(shift_frac(d@, ilen + e)),
{
    let il = ilen as u128;
    let n = d.len();
    assert(emag <= n as u128 + 8);
    let (pneg, pmag) = if !eneg {
        (false, il + emag)
    } else if emag >= il {
        (true, emag - il)
    } else {
        (false, il - emag)
    };
    let r = shifted_parts(d, pneg, pmag);
    proof {
        lemma_capped_exponent(d@, ilen as int, eneg, emag as int, e);
        lemma_shift_frac_digits(d@, ilen + e);
    }
    r
}

/// Where the parts of the numeral `v[lo..hi]` lie: its sign, the start
/// of its unsigned part, the exponent marker, the point, and the start of
/// the fraction digits.
fn numeral_layout(v: &Vec<char>, lo: usize, hi: usize) -> (r: (bool, usize, usize, usize, usize))
    requires
        lo <= hi <= v@.len(),
    ensures
        ({
            let (neg, ulo, mhi, dot, flo) = r;
            let s = v@.subrange(lo as int, hi as int);
            let u = v@.subrange(ulo as int, hi as int);
            let m = v@.subrange(ulo as int, mhi as int);
            &&& lo <= ulo <= dot <= mhi <= hi
            &&& neg == (s.len() > 0 && s[0] == '-')
            &&& u == (if s.len() > 0 && (s[0] == '-' || s[0] == '+') {
                s.drop_first()
            } else {
                s
            })
            &&& m == u.take(exp_index(u))
            &&& mhi - ulo == exp_index(u)
            &&& v@.subrange(ulo as int, dot as int) == m.take(index_of(m, '.'))
            &&& flo == if dot < mhi { dot + 1 } else { mhi as int }
            &&& v@.subrange(flo as int, mhi as int) == (if index_of(m, '.') < m.len() {
                m.skip(index_of(m, '.') + 1)
            } else {
                Seq::<char>::empty()
            })
            &&& mhi < hi ==> v@.subrange(mhi + 1, hi as int) == u.skip(exp_index(u) + 1)
        }),
{
    let ghost s = v@.subrange(lo as int, hi as int);
    let signed = lo < hi && (v[lo] == '-' || v[lo] == '+');
    let neg = lo < hi && v[lo] == '-';
    let ulo = if signed { lo + 1 } else { lo };
    let ghost u = v@.subrange(ulo as int, hi as int);
    assert(u =~= if signed { s.drop_first() } else { s });
    let ie = find_char(v, ulo, hi, 'e');
    let ib = find_char(v, ulo, hi, 'E');
    let mhi = if ie <= ib { ie } else { ib };
    let ghost m = v@.subrange(ulo as int, mhi as int);
    assert(m =~= u.take(exp_index(u)));
    let dot = find_char(v, ulo, mhi, '.');
    let flo = if dot < mhi { dot + 1 } else { mhi };
    assert(v@.subrange(ulo as int, dot as int) =~= m.take(dot - ulo));
    assert(v@.subrange(flo as int, mhi as int) =~= if dot < mhi {
        m.skip(dot - ulo + 1)
    } else {
        Seq::<char>::empty()
    });
    if mhi < hi {
        assert(v@.subrange(mhi + 1, hi as int) =~= u.skip(mhi - ulo + 1));
    }
    (neg, ulo, mhi, dot, flo)
}

/// Reads `v[lo..hi]` as a numeral.
fn read_numeral(v: &Vec<char>, lo: usize, hi: usize) -> (r: Option<Numeral>)
    requires
        lo <= hi <= v@.len(),
    ensures
        r.is_some() == numeral(v@.subrange(lo as int, hi as int)).is_some(),
        r matches Some(n) ==> {
            let m = numeral(v@.subrange(lo as int, hi as int)).unwrap();
            &&& n.neg == m.0
            &&& n.int_capped == if digits_value(m.1) < NUM_CAP {
                digits_value(m.1)
            } else {
                NUM_CAP as nat
            }
            &&& n.frac_milli == frac_milli(m.2)
            &&& n.frac_zero == all_zeros(m.2)
            &&& all_digits(m.2)
        },
{
    let (neg, ulo, mhi, dot, flo) = numeral_layout(v, lo, hi);
    let ghost s = v@.subrange(lo as int, hi as int);
    let ghost u = v@.subrange(ulo as int, hi as int);
    let ghost m = v@.subrange(ulo as int, mhi as int);
    let ghost ip = v@.subrange(ulo as int, dot as int);
    let ghost fp = v@.subrange(flo as int, mhi as int);
    let ghost e_opt: Option<int> = if exp_index(u) < u.len() {
        exponent(u.skip(exp_index(u) + 1))
    } else {
        Some(0int)
    };
    proof {
        lemma_numeral_eq(s, u, m, ip, fp, e_opt);
    }
    if !digits_only(v, ulo, dot) || !digits_only(v, flo, mhi) || (dot - ulo) + (mhi - flo) == 0 {
        return None;
    }
    let d = concat_ranges(v, ulo, dot, flo, mhi);
    assert(all_digits(d@)) by {
        assert forall|k: int| 0 <= k < d@.len() implies is_digit(#[trigger] d@[k]) by {
            if k < ip.len() {
                assert(d@[k] == ip[k]);
            } else {
                assert(d@[k] == fp[k - ip.len()]);
            }
        }
    }
    let cap = d.len() as u128 + 8;
    let (eneg, emag) = if mhi < hi {
        match read_exponent(v, mhi + 1, hi, cap) {
            Some(e) => e,
            None => return None,
        }
    } else {
        (false, 0)
    };
    let (ic, fm, fz) = shifted_numeral(&d, dot - ulo, eneg, emag, Ghost(e_opt.unwrap()));
    Some(Numeral { neg, int_capped: ic, frac_milli: fm, frac_zero: fz })
}

/// Whether the numeral lies in `0..=bound`, and its value in thousandths.
fn numeral_milli(n: &Numeral, bound: u64) -> (r: Option<u64>)
    requires
        bound < NUM_CAP,
        n.frac_milli < 1000,
    ensures
        r is Some == if n.neg {
            n.int_capped == 0 && n.frac_zero
        } else {
            n.int_capped < bound || (n.int_capped == bound && n.frac_zero)
        },
        r matches Some(x) ==> x == if n.neg {
            0
        } else {
            n.int_capped * 1000 + n.frac_milli
        },
{
    if n.neg {
        if n.int_capped == 0 && n.frac_zero {
            Some(0)
        } else {
            None
        }
    } else if n.int_capped < bound || (n.int_capped == bound && n.frac_zero) {
        Some(n.int_capped * 1000 + n.frac_milli)
    } else {
        None
    }
}

proof fn lemma_frac_milli_bound(f: Seq<char>)
    requires
        all_digits(f),
    ensures
        frac_milli(f) < 1000,
{
    if f.len() > 0 {
        assert(is_digit(f[0]));
    }
    if f.len() > 1 {
        assert(is_digit(f[1]));
    }
    if f.len() > 2 {
        assert(is_digit(f[2]));
    }
}

/// `timestamp(v[lo..hi])`: the tag body read as a time in milliseconds.
fn parse_timestamp(v: &Vec<char>, lo: usize, hi: usize) -> (r: Option<u64>)
    requires
        lo <= hi <= v@.len(),
    ensures
        r is Some == timestamp(v@.subrange(lo as int, hi as int)) is Some,
        r matches Some(t) ==> t == timestamp(v@.subrange(lo as int, hi as int)).unwrap(),
{
    let ghost body = v@.subrange(lo as int, hi as int);
    let k = find_char(v, lo, hi, ':');
    if k >= hi {
        return None;
    }
    assert(v@.subrange(lo as int, k as int) =~= body.take(k - lo));
    assert(v@.subrange(k + 1, hi as int) =~= body.skip(k - lo + 1));
    let (ma, mb) = trim_bounds(v, lo, k);
    let (sa, sb) = trim_bounds(v, k + 1, hi);
    let m = match read_numeral(v, ma, mb) {
        Some(m) => m,
        None => return None,
    };
    proof {
        lemma_frac_milli_bound(numeral(v@.subrange(ma as int, mb as int)).unwrap().2);
    }
    let mm = match numeral_milli(&m, 99) {
        Some(x) => x,
        None => return None,
    };
    let s = match read_numeral(v, sa, sb) {
        Some(s) => s,
        None => return None,
    };
    proof {
        lemma_frac_milli_bound(numeral(v@.subrange(sa as int, sb as int)).unwrap().2);
    }
    let sm = match numeral_milli(&s, 60) {
        Some(x) => x,
        None => return None,
    };
    Some(mm * 60 + sm)
}


/// The trimmed tag key is `ti` in any ASCII case (its ASCII lowercase is `ti`).
pub open spec fn is_title_key(k: Seq<char>) -> bool {
    k.len() == 2 && (k[0] == 't' || k[0] == 'T') && (k[1] == 'i' || k[1] == 'I')
}

/// The trimmed tag key is `ar` in any ASCII case (its ASCII lowercase is `ar`).
pub open spec fn is_artist_key(k: Seq<char>) -> bool {
    k.len() == 2 && (k[0] == 'a' || k[0] == 'A') && (k[1] == 'r' || k[1] == 'R')
}

/// What reading the tags of a line gathers: the line's timestamps, and
/// the document's title and artist so far.
pub type TagState = (Seq<nat>, Option<Seq<char>>, Option<Seq<char>>);

/// One `[...]` tag: a timestamp is collected; otherwise `key:value`
/// with key `ti` or `ar` sets the title or the artist.
pub open spec fn apply_tag(st: TagState, body: Seq<char>) -> TagState {
    match timestamp(body) {
        Some(t) => (st.0.push(t), st.1, st.2),
        None => {
            let k = index_of(body, ':');
            if k < body.len() {
                let key = trim(body.take(k));
                let val = trim(body.skip(k + 1));
                if is_title_key(key) {
                    (st.0, Some(val), st.2)
                } else if is_artist_key(key) {
                    (st.0, st.1, Some(val))
                } else {
                    st
                }
            } else {
                st
            }
        },
    }
}

/// Reads the leading tags of `rest`: each tag ends at the first `]`,
/// its body starts after the first character, and reading goes on while
/// the remainder starts with `[`. Returns the state and the trimmed text.
pub open spec fn scan(rest: Seq<char>, st: TagState) -> (TagState, Seq<char>)
    decreases rest.len(),
{
    let close = index_of(rest, ']');
    if close >= rest.len() {
        (st, trim(rest))
    } else {
        let st2 = apply_tag(st, rest.subrange(1, close));
        let rest2 = rest.skip(close + 1);
        if rest2.len() > 0 && rest2[0] == '[' {
            proof {
                lemma_index_of_bounds(rest, ']');
            }
            scan(rest2, st2)
        } else {
            (st2, trim(rest2))
        }
    }
}

/// A parsed document so far: entries `(time, text)` in document order,
/// title and artist.
pub type LrcDoc = (Seq<(nat, Seq<char>)>, Option<Seq<char>>, Option<Seq<char>>);

/// One line of the document: blank lines, `#` comments and junk lines
/// (see `line_ok`) are skipped; otherwise every timestamp of the line
/// gives an entry with the line's text.
pub open spec fn line_step(doc: LrcDoc, raw: Seq<char>) -> LrcDoc {
    let line = trim(raw);
    if line.len() == 0 || line[0] == '#' || !line_ok(raw) {
        doc
    } else {
        let (st, text) = scan(line, (Seq::<nat>::empty(), doc.1, doc.2));
        (doc.0 + st.0.map_values(|t: nat| (t, text)), st.1, st.2)
    }
}

/// A line is junk when its first tag has no body to read: it starts with
/// `]`, or with a non-ASCII character, and holds a `]`.
pub open spec fn line_ok(raw: Seq<char>) -> bool {
    let line = trim(raw);
    ||| line.len() == 0
    ||| line[0] == '#'
    ||| index_of(line, ']') >= line.len()
    ||| (line[0] != ']' && (line[0] as u32) < 0x80)
}

/// The document `s`, line by line (lines end at `\n`).
pub open spec fn parse_from(doc: LrcDoc, s: Seq<char>) -> LrcDoc
    decreases s.len(),
{
    let k = index_of(s, '\n');
    if k < s.len() {
        proof {
            lemma_index_of_bounds(s, '\n');
        }
        parse_from(line_step(doc, s.take(k)), s.skip(k + 1))
    } else {
        line_step(doc, s)
    }
}

/// Inserts `x` after every entry whose time is not later than its own.
pub open spec fn insert_by_time(s: Seq<(nat, Seq<char>)>, x: (nat, Seq<char>)) -> Seq<
    (nat, Seq<char>),
>
    decreases s.len(),
{
    if s.len() == 0 || s.last().0 <= x.0 {
        s.push(x)
    } else {
        insert_by_time(s.drop_last(), x).push(s.last())
    }
}

/// Stable sort by time: entries with equal times keep their order.
pub open spec fn sort_by_time(s: Seq<(nat, Seq<char>)>) -> Seq<(nat, Seq<char>)>
    decreases s.len(),
{
    if s.len() == 0 {
        s
    } else {
        insert_by_time(sort_by_time(s.drop_last()), s.last())
    }
}

/// Times never decrease along `s`.
pub open spec fn sorted_by_time(s: Seq<(nat, Seq<char>)>) -> bool {
    forall|i: int, j: int| 0 <= i <= j < s.len() ==> s[i].0 <= s[j].0
}

/// The parse of a whole document: its entries sorted by time, and its
/// last title and artist tags.
pub open spec fn lrc(s: Seq<char>) -> LrcDoc {
    let d = parse_from((Seq::empty(), None, None), s);
    (sort_by_time(d.0), d.1, d.2)
}


/// Current playback state as reported by the player.
#[derive(Debug, Clone, Copy, PartialEq, Eq, Structural)]
pub enum PlaybackStatus {
    Playing,
    Paused,
    Stopped,
}

impl PlaybackStatus {
    /// The state's name, as it is shown to the user.
    pub fn label(&self) -> (r: &'static str)
        ensures
            r@ == match *self {
                PlaybackStatus::Playing => "Playing"@,
                PlaybackStatus::Paused => "Paused"@,
                PlaybackStatus::Stopped => "Stopped"@,
            },
    {
        match self {
            PlaybackStatus::Playing => "Playing",
            PlaybackStatus::Paused => "Paused",
            PlaybackStatus::Stopped => "Stopped",
        }
    }
}

/// A single timed lyric line parsed from an LRC file.
#[derive(Debug, Clone)]
pub struct LyricLine {
    /// Start of the line, in milliseconds.
    pub time_ms: u64,
    pub text: String,
}

impl View for LyricLine {
    type V = (nat, Seq<char>);

    open spec fn view(&self) -> (nat, Seq<char>) {
        (self.time_ms as nat, self.text@)
    }
}

/// Full lyrics for a track: timed lines plus metadata.
#[derive(Debug, Clone, Default)]
pub struct Lyrics {
    /// Lines ordered by time.
    pub lines: Vec<LyricLine>,
    /// Track title from LRC `[ti:...]` metadata (informational).
    pub title: Option<String>,
    /// Artist from LRC `[ar:...]` metadata (informational).
    pub artist: Option<String>,
}

/// The lines as `(time, text)` pairs.
pub open spec fn lines_view(lines: Seq<LyricLine>) -> Seq<(nat, Seq<char>)> {
    lines.map_values(|l: LyricLine| l@)
}

/// The characters of an optional string.
pub open spec fn opt_view(o: Option<String>) -> Option<Seq<char>> {
    match o {
        Some(s) => Some(s@),
        None => None,
    }
}

/// The times as naturals.
pub open spec fn times_view(t: Seq<u64>) -> Seq<nat> {
    t.map_values(|x: u64| x as nat)
}

/// The binary search `line_at` runs over `lines[lo..hi]`: the end of the
/// lines at or before `t`, found by halving.
pub open spec fn search_end(lines: Seq<LyricLine>, t: u64, lo: int, hi: int) -> int
    decreases hi - lo,
{
    if lo >= hi {
        lo
    } else {
        let mid = lo + (hi - lo) / 2;
        if lines[mid].time_ms <= t {
            search_end(lines, t, mid + 1, hi)
        } else {
            search_end(lines, t, lo, mid)
        }
    }
}

/// The index `line_at` returns: one before the end the search finds, or
/// `None` when it ends at the start.
pub open spec fn line_index(lines: Seq<LyricLine>, t: u64) -> Option<int> {
    let e = search_end(lines, t, 0, lines.len() as int);
    if e == 0 {
        None
    } else {
        Some(e - 1)
    }
}

impl Lyrics {
    /// The lyrics as a parsed document: `(time, text)` lines, title, artist.
    pub open spec fn doc(&self) -> LrcDoc {
        (lines_view(self.lines@), opt_view(self.title), opt_view(self.artist))
    }

    /// Index of the line active at `t` milliseconds: the last line whose
    /// time is not later than `t`, or `None` before the first line.
    ///
    /// This is a binary search for the end of the lines at or before `t`
    /// (`line_index`); it is exact when those lines come first, as they do
    /// in lyrics that `parse_lrc` returns.
    pub fn line_at(&self, t: u64) -> (r: Option<usize>)
        ensures
            r matches Some(i) ==> i < self.lines@.len(),
            match r {
                None => line_index(self.lines@, t) is None,
                Some(i) => line_index(self.lines@, t) == Some(i as int),
            },
            (forall|i: int, j: int|
                0 <= i < j < self.lines@.len() && self.lines@[j].time_ms <= t
                    ==> self.lines@[i].time_ms <= t) ==> match r {
                None => self.lines@.len() == 0 || self.lines@[0].time_ms > t,
                Some(i) => self.lines@[i as int].time_ms <= t && (i + 1 == self.lines@.len()
                    || self.lines@[i + 1].time_ms > t),
            },
    {
        let ghost part = forall|i: int, j: int|
            0 <= i < j < self.lines@.len() && self.lines@[j].time_ms <= t
                ==> self.lines@[i].time_ms <= t;
        let mut lo: usize = 0;
        let mut hi: usize = self.lines.len();
        while lo < hi
            invariant
                lo <= hi <= self.lines@.len(),
                part == forall|i: int, j: int|
                    0 <= i < j < self.lines@.len() && self.lines@[j].time_ms <= t
                        ==> self.lines@[i].time_ms <= t,
                part ==> forall|i: int| 0 <= i < lo ==> self.lines@[i].time_ms <= t,
                part ==> forall|i: int| hi <= i < self.lines@.len() ==> self.lines@[i].time_ms > t,
                search_end(self.lines@, t, lo as int, hi as int) == search_end(
                    self.lines@,
                    t,
                    0,
                    self.lines@.len() as int,
                ),
            decreases hi - lo,
        {
            let mid = lo + (hi - lo) / 2;
            if self.lines[mid].time_ms <= t {
                lo = mid + 1;
            } else {
                hi = mid;
            }
        }
        if lo == 0 {
            None
        } else {
            Some(lo - 1)
        }
    }
}

/// `insert_by_time` places `x` at the first position after which every
/// entry is later than `x`.
proof fn lemma_insert_at(s: Seq<(nat, Seq<char>)>, x: (nat, Seq<char>), p: int)
    requires
        0 <= p <= s.len(),
        forall|i: int| p <= i < s.len() ==> #[trigger] s[i].0 > x.0,
        p == 0 || s[p - 1].0 <= x.0,
    ensures
        insert_by_time(s, x) == s.take(p).push(x) + s.skip(p),
    decreases s.len() - p,
{
    if p == s.len() {
        assert(s.take(p) =~= s);
        assert(s.take(p).push(x) + s.skip(p) =~= s.push(x));
    } else {
        let t = s.drop_last();
        assert(s.last().0 > x.0);
        assert forall|i: int| p <= i < t.len() implies #[trigger] t[i].0 > x.0 by {
            assert(t[i] == s[i]);
        }
        lemma_insert_at(t, x, p);
        assert(t.take(p).push(x) + t.skip(p) + seq![s.last()] =~= s.take(p).push(x) + s.skip(p));
    }
}

/// Inserts `line` into lines ordered by time, after the lines not later
/// than it.
fn insert_line(lines: &mut Vec<LyricLine>, line: LyricLine)
    ensures
        lines_view(final(lines)@) == insert_by_time(lines_view(old(lines)@), line@),
{
    let ghost s = lines_view(lines@);
    let mut p = lines.len();
    while p > 0 && lines[p - 1].time_ms > line.time_ms
        invariant
            p <= lines@.len(),
            s == lines_view(lines@),
            forall|i: int| p <= i < lines@.len() ==> #[trigger] lines@[i].time_ms > line.time_ms,
        decreases p,
    {
        p = p - 1;
    }
    proof {
        assert forall|i: int| p <= i < s.len() implies #[trigger] s[i].0 > line@.0 by {
            assert(s[i] == lines@[i]@);
        }
        if p > 0 {
            assert(s[p - 1] == lines@[p - 1]@);
        }
        lemma_insert_at(s, line@, p as int);
    }
    let ghost l = line@;
    lines.insert(p, line);
    assert(lines_view(lines@) =~= s.take(p as int).push(l) + s.skip(p as int));
}

/// Applies the tag with body `v[lo..hi]`.
fn apply_tag_exec(
    v: &Vec<char>,
    lo: usize,
    hi: usize,
    times: &mut Vec<u64>,
    title: &mut Option<String>,
    artist: &mut Option<String>,
)
    requires
        lo <= hi <= v@.len(),
    ensures
        (times_view(final(times)@), opt_view(*final(title)), opt_view(*final(artist))) == apply_tag(
            (times_view(old(times)@), opt_view(*old(title)), opt_view(*old(artist))),
            v@.subrange(lo as int, hi as int),
        ),
{
    let ghost body = v@.subrange(lo as int, hi as int);
    match parse_timestamp(v, lo, hi) {
        Some(t) => {
            times.push(t);
            assert(times_view(times@) =~= times_view(old(times)@).push(t as nat));
        },
        None => {
            let k = find_char(v, lo, hi, ':');
            if k < hi {
                assert(v@.subrange(lo as int, k as int) =~= body.take(k - lo));
                assert(v@.subrange(k + 1, hi as int) =~= body.skip(k - lo + 1));
                let (ka, kb) = trim_bounds(v, lo, k);
                let (va, vb) = trim_bounds(v, k + 1, hi);
                let ghost key = v@.subrange(ka as int, kb as int);
                if kb - ka == 2 && (v[ka] == 't' || v[ka] == 'T') && (v[ka + 1] == 'i' || v[ka
                    + 1] == 'I') {
                    assert(key[0] == v@[ka as int] && key[1] == v@[ka + 1]);
                    *title = Some(string_of_range(v, va, vb));
                } else if kb - ka == 2 && (v[ka] == 'a' || v[ka] == 'A') && (v[ka + 1] == 'r'
                    || v[ka + 1] == 'R') {
                    assert(key[0] == v@[ka as int] && key[1] == v@[ka + 1]);
                    assert(!is_title_key(key));
                    *artist = Some(string_of_range(v, va, vb));
                } else {
                    if kb - ka == 2 {
                        assert(key[0] == v@[ka as int] && key[1] == v@[ka + 1]);
                    }
                }
            }
        },
    }
}

/// Reads the tags and text of the trimmed, non-empty line `v[a..b]`.
fn scan_line(
    v: &Vec<char>,
    a: usize,
    b: usize,
    title: &mut Option<String>,
    artist: &mut Option<String>,
) -> (r: (Vec<u64>, String))
    requires
        a < b <= v@.len(),
        index_of(v@.subrange(a as int, b as int), ']') >= b - a || (v@[a as int] != ']'
            && (v@[a as int] as u32) < 0x80),
    ensures
        scan(
            v@.subrange(a as int, b as int),
            (Seq::<nat>::empty(), opt_view(*old(title)), opt_view(*old(artist))),
        ) == ((times_view(r.0@), opt_view(*final(title)), opt_view(*final(artist))), r.1@),
{
    let ghost goal = scan(
        v@.subrange(a as int, b as int),
        (Seq::<nat>::empty(), opt_view(*title), opt_view(*artist)),
    );
    let mut times: Vec<u64> = Vec::new();
    assert(times_view(times@) =~= Seq::<nat>::empty());
    let mut r = a;
    loop
        invariant_except_break
            a <= r < b <= v@.len(),
            r == a || v@[r as int] == '[',
            r == a ==> (index_of(v@.subrange(a as int, b as int), ']') >= b - a
                || v@[a as int] != ']'),
            scan(
                v@.subrange(r as int, b as int),
                (times_view(times@), opt_view(*title), opt_view(*artist)),
            ) == goal,
        ensures
            a <= r <= b <= v@.len(),
            ((times_view(times@), opt_view(*title), opt_view(*artist)), trim(
                v@.subrange(r as int, b as int),
            )) == goal,
        decreases b - r,
    {
        let ghost rest = v@.subrange(r as int, b as int);
        let close = find_char(v, r, b, ']');
        if close >= b {
            break;
        }
        proof {
            lemma_index_of_bounds(rest, ']');
        }
        assert(close > r);
        assert(rest.subrange(1, close - r) =~= v@.subrange(r + 1, close as int));
        assert(rest.skip(close - r + 1) =~= v@.subrange(close + 1, b as int));
        apply_tag_exec(v, r + 1, close, &mut times, title, artist);
        r = close + 1;
        if !(r < b && v[r] == '[') {
            break;
        }
    }
    let (ta, tb) = trim_bounds(v, r, b);
    (times, string_of_range(v, ta, tb))
}

/// Reads the line `v[lo..hi]` into the document.
fn read_line(
    v: &Vec<char>,
    lo: usize,
    hi: usize,
    lines: &mut Vec<LyricLine>,
    title: &mut Option<String>,
    artist: &mut Option<String>,
    Ghost(entries): Ghost<Seq<(nat, Seq<char>)>>,
) -> (new_entries: Ghost<Seq<(nat, Seq<char>)>>)
    requires
        lo <= hi <= v@.len(),
        lines_view(old(lines)@) == sort_by_time(entries),
    ensures
        (new_entries@, opt_view(*final(title)), opt_view(*final(artist))) == line_step(
            (entries, opt_view(*old(title)), opt_view(*old(artist))),
            v@.subrange(lo as int, hi as int),
        ),
        lines_view(final(lines)@) == sort_by_time(new_entries@),
{
    let (a, b) = trim_bounds(v, lo, hi);
    let ghost line = v@.subrange(a as int, b as int);
    if a == b || v[a] == '#' {
        return Ghost(entries);
    }
    assert(line[0] == v@[a as int]);
    let close = find_char(v, a, b, ']');
    if close < b && (v[a] == ']' || (v[a] as u32) >= 0x80) {
        return Ghost(entries);
    }
    let ghost t0 = opt_view(*title);
    let ghost a0 = opt_view(*artist);
    let (times, text) = scan_line(v, a, b, title, artist);
    let ghost tv = times_view(times@);
    let ghost added = tv.map_values(|t: nat| (t, text@));
    let ghost mut cur = entries;
    let mut j: usize = 0;
    while j < times.len()
        invariant
            j <= times@.len(),
            tv == times_view(times@),
            added == tv.map_values(|t: nat| (t, text@)),
            cur == entries + added.take(j as int),
            lines_view(lines@) == sort_by_time(cur),
        decreases times@.len() - j,
    {
        let ghost e = added[j as int];
        assert(e == (times@[j as int] as nat, text@));
        insert_line(lines, LyricLine { time_ms: times[j], text: text.clone() });
        proof {
            assert(cur.push(e).drop_last() =~= cur);
            cur = cur.push(e);
            assert(entries + added.take(j + 1) =~= cur);
        }
        j = j + 1;
    }
    assert(added.take(times@.len() as int) =~= added);
    Ghost(cur)
}

/// Parse one LRC document into timed lines.
///
/// Understands standard `[mm:ss.xx]` timestamps, skips metadata tags such
/// as `[ti:...]`, `[ar:...]`, `[offset:...]` and comments. Multiple
/// timestamps on one line (`[00:01.00][00:05.00]text`) get separate
/// entries. Junk lines whose first tag has no body are ignored. Lines
/// come out ordered by time; lines with equal times keep their document
/// order.
pub fn parse_lrc(input: &str) -> (res: Lyrics)
    ensures
        res.doc() == lrc(input@),
        sorted_by_time(res.doc().0),
{
    let v = chars_of(input);
    let n = v.len();
    let mut lines: Vec<LyricLine> = Vec::new();
    let mut title: Option<String> = None;
    let mut artist: Option<String> = None;
    let ghost mut entries: Seq<(nat, Seq<char>)> = Seq::empty();
    let ghost goal = parse_from((Seq::empty(), None, None), v@);
    assert(v@.skip(0) =~= v@);
    assert(lines_view(lines@) =~= Seq::<(nat, Seq<char>)>::empty());
    let mut i: usize = 0;
    loop
        invariant_except_break
            i <= n == v@.len(),
            parse_from((entries, opt_view(title), opt_view(artist)), v@.skip(i as int)) == goal,
            lines_view(lines@) == sort_by_time(entries),
        ensures
            (entries, opt_view(title), opt_view(artist)) == goal,
            lines_view(lines@) == sort_by_time(entries),
        decreases n - i,
    {
        let ghost s = v@.skip(i as int);
        let k = find_char(&v, i, n, '\n');
        assert(v@.subrange(i as int, n as int) =~= s);
        assert(v@.subrange(i as int, k as int) =~= s.take(k - i));
        let Ghost(e2) = read_line(&v, i, k, &mut lines, &mut title, &mut artist, Ghost(entries));
        proof {
            entries = e2;
        }
        if k >= n {
            assert(s.take(k - i) =~= s);
            break;
        }
        assert(s.skip(k - i + 1) =~= v@.skip(k + 1));
        i = k + 1;
    }
    proof {
        lemma_sort_by_time(entries);
    }
    Lyrics { lines, title, artist }
}

/// Lines ordered by time put the lines at or before any `t` first, so
/// `line_at` finds the last line at or before `t` on them.
pub proof fn lemma_sorted_lines_partitioned(lines: Seq<LyricLine>, t: u64)
    requires
        sorted_by_time(lines_view(lines)),
    ensures
        forall|i: int, j: int|
            0 <= i < j < lines.len() && lines[j].time_ms <= t ==> lines[i].time_ms <= t,
{
    assert forall|i: int, j: int|
        0 <= i < j < lines.len() && lines[j].time_ms <= t implies lines[i].time_ms <= t by {
        assert(lines_view(lines)[i].0 <= lines_view(lines)[j].0);
    }
}

} // verus!
