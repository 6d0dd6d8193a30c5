//! Object-store key encoding for WAL segments.
//!
//! A segment covering frames `[start, end)` is stored under a key made of the
//! complements `u64::MAX - start` and `u64::MAX - end`, each written in decimal
//! and zero-padded to exactly twenty digits, the width of `u64::MAX`. Every key
//! has the same length, and ascending key order is descending frame order,
//! which lets one forward listing find the latest segment at or below a frame
//! number.
use vstd::prelude::*;

use crate::error::DecodeError;
use vstd::string::StrSliceExecFns;
use vstd::string::StringExecFns;
use vstd::arithmetic::div_mod::lemma_mod_breakdown;
use vstd::arithmetic::div_mod::lemma_small_mod;

verus! {

pub open spec fn pow10(w: nat) -> nat
    decreases w,
{
    if w == 0 {
        1
    } else {
        10 * pow10((w - 1) as nat)
    }
}

pub open spec fn digit_char(d: nat) -> char {
    ((d % 10) + 48) as char
}

pub open spec fn char_value(c: char) -> int {
    c as int - 48
}

pub open spec fn is_digit(c: char) -> bool {
    '0' <= c && c <= '9'
}

pub open spec fn all_digits(s: Seq<char>) -> bool {
    forall|i: int| 0 <= i < s.len() ==> is_digit(#[trigger] s[i])
}

/// The `w` lowest decimal digits of `n`, most significant first.
pub open spec fn fixed_digits(n: nat, w: nat) -> Seq<char>
    decreases w,
{
    if w == 0 {
        Seq::empty()
    } else {
        fixed_digits(n / 10, (w - 1) as nat).push(digit_char(n % 10))
    }
}

/// Decimal form of `n` zero-padded to exactly twenty digits.
pub open spec fn key_field(n: nat) -> Seq<char> {
    fixed_digits(n, 20)
}

/// Numeric value of a run of decimal digits.
pub open spec fn digits_value(s: Seq<char>) -> nat
    decreases s.len(),
{
    if s.len() == 0 {
        0
    } else {
        digits_value(s.drop_last()) * 10 + (char_value(s.last()) as nat)
    }
}

pub open spec fn complement(x: u64) -> nat {
    (u64::MAX - x) as nat
}

/// `{u64::MAX - start:020}-{u64::MAX - end:020}`
pub open spec fn encode_key(start: u64, end: u64) -> Seq<char> {
    key_field(complement(start)) + seq!['-'] + key_field(complement(end))
}

/// One field of a key string: twenty digits whose value fits a `u64`.
pub open spec fn field_ok(f: Seq<char>) -> bool {
    &&& f.len() == 20
    &&& all_digits(f)
    &&& digits_value(f) <= u64::MAX
}


pub open spec fn first_field(s: Seq<char>) -> Seq<char> {
    s.subrange(0, 20)
}

pub open spec fn second_field(s: Seq<char>) -> Seq<char> {
    s.subrange(21, s.len() as int)
}

/// `s` is two fields of twenty digits joined by `-`.
pub open spec fn well_formed_key(s: Seq<char>) -> bool {
    &&& s.len() == 41
    &&& s[20] == '-'
    &&& field_ok(first_field(s))
    &&& field_ok(second_field(s))
}

/// The key that a well-formed string stands for.
pub open spec fn decoded_key(s: Seq<char>) -> SegmentKey {
    SegmentKey {
        start_frame_no: (u64::MAX - digits_value(first_field(s))) as u64,
        end_frame_no: (u64::MAX - digits_value(second_field(s))) as u64,
    }
}

/// `a` sorts strictly after `b` in lexicographic order.
pub open spec fn sorts_after(a: Seq<char>, b: Seq<char>) -> bool {
    ||| exists|i: int|
        0 <= i < a.len() && i < b.len() && a.subrange(0, i) == b.subrange(0, i) && #[trigger] a[i]
            > b[i]
    ||| (b.len() < a.len() && a.subrange(0, b.len() as int) == b)
}

/// Identifies the segment covering frames `[start_frame_no, end_frame_no)`.
#[derive(Debug, Clone, Copy, PartialEq, Eq, Structural)]
pub struct SegmentKey {
    pub start_frame_no: u64,
    pub end_frame_no: u64,
}

impl SegmentKey {
    pub open spec fn spec_includes(self, frame_no: u64) -> bool {
        self.start_frame_no <= frame_no && frame_no < self.end_frame_no
    }

    pub fn new(start_frame_no: u64, end_frame_no: u64) -> (r: SegmentKey)
        ensures
            r.start_frame_no == start_frame_no,
            r.end_frame_no == end_frame_no,
    {
        SegmentKey { start_frame_no, end_frame_no }
    }

    /// Whether `frame_no` lies in the half-open range of this segment.
    pub fn includes(&self, frame_no: u64) -> (r: bool)
        ensures
            r == self.spec_includes(frame_no),
    {
        self.start_frame_no <= frame_no && frame_no < self.end_frame_no
    }

    /// The key string of this segment.
    pub fn to_string(&self) -> (r: String)
        ensures
            r@ == encode_key(self.start_frame_no, self.end_frame_no),
    {
        let mut out = String::new();
        push_key_field(&mut out, u64::MAX - self.start_frame_no);
        push_char(&mut out, '-');
        push_key_field(&mut out, u64::MAX - self.end_frame_no);
        proof {
            assert(out@ =~= encode_key(self.start_frame_no, self.end_frame_no));
        }
        out
    }

    /// Reads a key string back; refuses anything that `to_string` does not
    /// write.
    pub fn from_str(s: &str) -> (r: Result<SegmentKey, DecodeError>)
        ensures
            match r {
                Ok(k) => well_formed_key(s@) && k == decoded_key(s@) && s@ == encode_key(
                    k.start_frame_no,
                    k.end_frame_no,
                ),
                Err(e) => !well_formed_key(s@) && e == DecodeError::InvalidKeyFormat,
            },
    {
        let n = s.unicode_len();
        if n != 41 || s.get_char(20) != '-' {
            return Err(DecodeError::InvalidKeyFormat);
        }
        let a = parse_field(s, 0, 20);
        let b = parse_field(s, 21, 41);
        assert(first_field(s@) == s@.subrange(0, 20));
        assert(second_field(s@) == s@.subrange(21, 41));
        match (a, b) {
            (Some(a), Some(b)) => {
                let k = SegmentKey { start_frame_no: u64::MAX - a, end_frame_no: u64::MAX - b };
                proof {
                    lemma_canonical_field(first_field(s@));
                    lemma_canonical_field(second_field(s@));
                    assert(s@ =~= first_field(s@) + seq!['-'] + second_field(s@));
                }
                Ok(k)
            },
            _ => Err(DecodeError::InvalidKeyFormat),
        }
    }
}

/// Relies on `String::push`: appends one character.
#[verifier::external_body]
pub(crate) fn push_char(out: &mut String, c: char)
    ensures
        final(out)@ == old(out)@.push(c),
{
    out.push(c)
}

fn push_fixed_digits(out: &mut String, n: u64, w: usize)
    ensures
        final(out)@ == old(out)@ + fixed_digits(n as nat, w as nat),
    decreases w,
{
    if w > 0 {
        push_fixed_digits(out, n / 10, w - 1);
        let b: u8 = ((n % 10) as u8) + 48u8;
        push_char(out, b as char);
        proof {
            assert(final(out)@ =~= old(out)@ + fixed_digits(n as nat, w as nat));
        }
    } else {
        proof {
            assert(final(out)@ =~= old(out)@ + fixed_digits(n as nat, w as nat));
        }
    }
}

pub(crate) fn push_key_field(out: &mut String, n: u64)
    ensures
        final(out)@ == old(out)@ + key_field(n as nat),
{
    push_fixed_digits(out, n, 20);
}

proof fn lemma_pow10_values()
    ensures
        pow10(19) == 10000000000000000000,
        pow10(20) == 100000000000000000000,
{
    reveal_with_fuel(pow10, 21);
}

proof fn lemma_pow10_mono(a: nat, b: nat)
    requires
        a <= b,
    ensures
        pow10(a) <= pow10(b),
        pow10(a) >= 1,
    decreases b,
{
    if a < b {
        lemma_pow10_mono(a, (b - 1) as nat);
    } else if a > 0 {
        lemma_pow10_mono((a - 1) as nat, (a - 1) as nat);
    }
}

proof fn lemma_digits_step(s: Seq<char>, i: int)
    requires
        0 <= i < s.len(),
    ensures
        digits_value(s.subrange(0, i + 1)) == digits_value(s.subrange(0, i)) * 10 + (char_value(
            s[i],
        ) as nat),
{
    assert(s.subrange(0, i + 1).drop_last() =~= s.subrange(0, i));
}

/// Parses the digits `s[from..to]`; `None` when one is not a digit or the value
/// does not fit a `u64`.
fn parse_field(s: &str, from: usize, to: usize) -> (r: Option<u64>)
    requires
        from <= to <= s@.len(),
        to - from <= 20,
    ensures
        r is Some <==> all_digits(s@.subrange(from as int, to as int)) && digits_value(
            s@.subrange(from as int, to as int),
        ) <= u64::MAX,
        r is Some ==> r->0 == digits_value(s@.subrange(from as int, to as int)),
{
    let ghost f = s@.subrange(from as int, to as int);
    let mut acc: u128 = 0;
    let mut i: usize = from;
    proof {
        lemma_pow10_values();
        assert(f.subrange(0, 0) =~= Seq::<char>::empty());
    }
    while i < to
        invariant
            from <= i <= to,
            to - from <= 20,
            to <= s@.len(),
            f == s@.subrange(from as int, to as int),
            pow10(20) == 100000000000000000000,
            all_digits(f.subrange(0, i - from)),
            acc == digits_value(f.subrange(0, i - from)),
            acc < pow10((i - from) as nat),
        decreases to - i,
    {
        let c = s.get_char(i);
        assert(f[i - from] == c);
        if !('0' <= c && c <= '9') {
            assert(!is_digit(f[i - from]));
            return None;
        }
        proof {
            lemma_digits_step(f, i - from);
            lemma_pow10_mono((i + 1 - from) as nat, 20);
            assert(pow10((i + 1 - from) as nat) == 10 * pow10((i - from) as nat));
            assert(f.subrange(0, i + 1 - from) =~= f.subrange(0, i - from).push(c));
        }
        let d: u128 = (c as u32 - 48) as u128;
        acc = acc * 10 + d;
        i = i + 1;
    }
    assert(f.subrange(0, to - from) =~= f);
    if acc > u64::MAX as u128 {
        None
    } else {
        Some(acc as u64)
    }
}

proof fn lemma_fixed_digits(n: nat, w: nat)
    ensures
        fixed_digits(n, w).len() == w,
        all_digits(fixed_digits(n, w)),
        digits_value(fixed_digits(n, w)) == n % pow10(w),
    decreases w,
{
    if w > 0 {
        let w1 = (w - 1) as nat;
        let f = fixed_digits(n, w);
        let g = fixed_digits(n / 10, w1);
        lemma_fixed_digits(n / 10, w1);
        assert(f.drop_last() =~= g);
        lemma_pow10_mono(w1, w1);
        lemma_mod_breakdown(n as int, 10, pow10(w1) as int);
        assert(char_value(digit_char(n % 10)) == n % 10);
        assert forall|i: int| 0 <= i < f.len() implies is_digit(#[trigger] f[i]) by {
            if i < w1 {
                assert(f[i] == g[i]);
            }
        }
    }
}

proof fn lemma_key_field(n: nat)
    requires
        n <= u64::MAX,
    ensures
        key_field(n).len() == 20,
        field_ok(key_field(n)),
        digits_value(key_field(n)) == n,
{
    lemma_pow10_values();
    lemma_fixed_digits(n, 20);
    lemma_small_mod(n, pow10(20));
}

/// Decoding the key string of any segment gives that segment back.
pub proof fn lemma_round_trip(start_frame_no: u64, end_frame_no: u64)
    ensures
        well_formed_key(encode_key(start_frame_no, end_frame_no)),
        decoded_key(encode_key(start_frame_no, end_frame_no)) == (SegmentKey {
            start_frame_no,
            end_frame_no,
        }),
{
    let a = key_field(complement(start_frame_no));
    let b = key_field(complement(end_frame_no));
    let s = encode_key(start_frame_no, end_frame_no);
    lemma_key_field(complement(start_frame_no));
    lemma_key_field(complement(end_frame_no));
    assert(first_field(s) =~= a);
    assert(second_field(s) =~= b);
}

proof fn lemma_fixed_order(n1: nat, n2: nat, w: nat) -> (i: int)
    requires
        n2 < n1 < pow10(w),
    ensures
        0 <= i < w,
        fixed_digits(n1, w).subrange(0, i) == fixed_digits(n2, w).subrange(0, i),
        fixed_digits(n1, w)[i] > fixed_digits(n2, w)[i],
    decreases w,
{
    let w1 = (w - 1) as nat;
    let q1 = n1 / 10;
    let q2 = n2 / 10;
    lemma_fixed_digits(n1 / 10, w1);
    lemma_fixed_digits(n2 / 10, w1);
    let f1 = fixed_digits(n1, w);
    let f2 = fixed_digits(n2, w);
    assert(q2 <= q1 && q1 < pow10(w1)) by (nonlinear_arith)
        requires
            n2 < n1 < 10 * pow10(w1),
            q1 == n1 / 10,
            q2 == n2 / 10,
    ;
    if q1 > q2 {
        let j = lemma_fixed_order(q1, q2, w1);
        assert(f1.subrange(0, j) =~= fixed_digits(q1, w1).subrange(0, j));
        assert(f2.subrange(0, j) =~= fixed_digits(q2, w1).subrange(0, j));
        assert(f1[j] == fixed_digits(q1, w1)[j]);
        assert(f2[j] == fixed_digits(q2, w1)[j]);
        j
    } else {
        assert(n1 % 10 > n2 % 10);
        assert(f1.subrange(0, w1 as int) =~= fixed_digits(q1, w1));
        assert(f2.subrange(0, w1 as int) =~= fixed_digits(q2, w1));
        w1 as int
    }
}

/// A larger start frame gives a key that sorts earlier, whatever the end
/// frames.
pub proof fn lemma_start_order_reversed(s1: u64, e1: u64, s2: u64, e2: u64)
    requires
        s1 < s2,
    ensures
        sorts_after(encode_key(s1, e1), encode_key(s2, e2)),
{
    lemma_pow10_values();
    let c1 = complement(s1);
    let c2 = complement(s2);
    let a1 = key_field(c1);
    let a2 = key_field(c2);
    let k1 = encode_key(s1, e1);
    let k2 = encode_key(s2, e2);
    let i = lemma_fixed_order(c1, c2, 20);
    lemma_fixed_digits(c1, 20);
    lemma_fixed_digits(c2, 20);
    assert(k1.subrange(0, i) =~= a1.subrange(0, i));
    assert(k2.subrange(0, i) =~= a2.subrange(0, i));
    assert(k1[i] == a1[i]);
    assert(k2[i] == a2[i]);
}

/// Lexicographic order is asymmetric.
pub proof fn lemma_sorts_after_asymmetric(a: Seq<char>, b: Seq<char>)
    ensures
        !(sorts_after(a, b) && sorts_after(b, a)),
{
    if sorts_after(a, b) && sorts_after(b, a) {
        if exists|i: int|
            0 <= i < a.len() && i < b.len() && a.subrange(0, i) == b.subrange(0, i) && #[trigger] a[i]
                > b[i] {
            let i = choose|i: int|
                0 <= i < a.len() && i < b.len() && a.subrange(0, i) == b.subrange(0, i) && #[trigger] a[i]
                    > b[i];
            if exists|j: int|
                0 <= j < b.len() && j < a.len() && b.subrange(0, j) == a.subrange(0, j) && #[trigger] b[j]
                    > a[j] {
                let j = choose|j: int|
                    0 <= j < b.len() && j < a.len() && b.subrange(0, j) == a.subrange(0, j)
                        && #[trigger] b[j] > a[j];
                if i < j {
                    assert(b.subrange(0, j)[i] == a.subrange(0, j)[i]);
                } else if j < i {
                    assert(b.subrange(0, i)[j] == a.subrange(0, i)[j]);
                }
            } else {
                assert(b.subrange(0, a.len() as int)[i] == a[i]);
            }
        } else {
            let j = choose|j: int|
                0 <= j < b.len() && j < a.len() && b.subrange(0, j) == a.subrange(0, j) && #[trigger] b[j]
                    > a[j];
            assert(a.subrange(0, b.len() as int)[j] == b[j]);
        }
    }
}

/// A key string sorts after the start field written for `frame_no` (the tail
/// of its lookup anchor) exactly when its start frame is at or below
/// `frame_no`; otherwise the anchor sorts after the key.
pub proof fn lemma_key_after_anchor(start: u64, end: u64, frame_no: u64)
    ensures
        sorts_after(encode_key(start, end), key_field(complement(frame_no))) <==> start <= frame_no,
        start > frame_no ==> sorts_after(key_field(complement(frame_no)), encode_key(start, end)),
{
    lemma_pow10_values();
    let cs = complement(start);
    let cf = complement(frame_no);
    let k = encode_key(start, end);
    let a = key_field(cf);
    let p = key_field(cs);
    lemma_fixed_digits(cs, 20);
    lemma_fixed_digits(cf, 20);
    if start == frame_no {
        assert(k.subrange(0, a.len() as int) =~= a);
    } else if start < frame_no {
        let i = lemma_fixed_order(cs, cf, 20);
        assert(k.subrange(0, i) =~= p.subrange(0, i));
        assert(k[i] == p[i]);
    } else {
        let i = lemma_fixed_order(cf, cs, 20);
        assert(k.subrange(0, i) =~= p.subrange(0, i));
        assert(k[i] == p[i]);
        assert(sorts_after(a, k));
        lemma_sorts_after_asymmetric(k, a);
    }
}

proof fn lemma_digits_canonical(f: Seq<char>)
    requires
        all_digits(f),
    ensures
        fixed_digits(digits_value(f), f.len()) == f,
        digits_value(f) < pow10(f.len()),
    decreases f.len(),
{
    if f.len() > 0 {
        let g = f.drop_last();
        let v = digits_value(g);
        let d = char_value(f.last()) as nat;
        assert(is_digit(f[f.len() - 1]));
        assert forall|i: int| 0 <= i < g.len() implies is_digit(#[trigger] g[i]) by {
            assert(g[i] == f[i]);
        }
        lemma_digits_canonical(g);
        assert((v * 10 + d) / 10 == v && (v * 10 + d) % 10 == d) by (nonlinear_arith)
            requires
                d < 10,
        ;
        assert(digit_char(d) == f.last());
        assert(f =~= g.push(f.last()));
        assert(v * 10 + d < 10 * pow10(g.len())) by (nonlinear_arith)
            requires
                v < pow10(g.len()),
                d < 10,
        ;
    } else {
        assert(f =~= Seq::<char>::empty());
    }
}

/// A well-formed field is exactly what `key_field` writes for its value.
proof fn lemma_canonical_field(f: Seq<char>)
    requires
        field_ok(f),
    ensures
        f == key_field(digits_value(f)),
{
    lemma_digits_canonical(f);
}

/// Putting one prefix before two strings keeps their order.
pub proof fn lemma_sorts_after_prefixed(d: Seq<char>, x: Seq<char>, y: Seq<char>)
    ensures
        sorts_after(x, y) <==> sorts_after(d + x, d + y),
{
    let a = d + x;
    let b = d + y;
    if sorts_after(x, y) {
        if exists|i: int|
            0 <= i < x.len() && i < y.len() && x.subrange(0, i) == y.subrange(0, i) && #[trigger] x[i]
                > y[i] {
            let i = choose|i: int|
                0 <= i < x.len() && i < y.len() && x.subrange(0, i) == y.subrange(0, i) && #[trigger] x[i]
                    > y[i];
            let j = d.len() + i;
            assert(a.subrange(0, j) =~= d + x.subrange(0, i));
            assert(b.subrange(0, j) =~= d + y.subrange(0, i));
            assert(a[j] == x[i] && b[j] == y[i]);
        } else {
            assert(a.subrange(0, b.len() as int) =~= d + x.subrange(0, y.len() as int));
        }
    }
    if sorts_after(a, b) {
        if exists|j: int|
            0 <= j < a.len() && j < b.len() && a.subrange(0, j) == b.subrange(0, j) && #[trigger] a[j]
                > b[j] {
            let j = choose|j: int|
                0 <= j < a.len() && j < b.len() && a.subrange(0, j) == b.subrange(0, j) && #[trigger] a[j]
                    > b[j];
            if j < d.len() {
                assert(a[j] == d[j] && b[j] == d[j]);
            } else {
                let i = j - d.len();
                assert(x.subrange(0, i) =~= a.subrange(0, j).subrange(d.len() as int, j));
                assert(y.subrange(0, i) =~= b.subrange(0, j).subrange(d.len() as int, j));
                assert(x.subrange(0, i) == y.subrange(0, i));
                assert(x[i] == a[j] && y[i] == b[j]);
                assert(0 <= i < x.len() && i < y.len() && x[i] > y[i]);
            }
        } else {
            assert(b.len() < a.len() && a.subrange(0, b.len() as int) == b);
            assert(x.subrange(0, y.len() as int) =~= a.subrange(0, b.len() as int).subrange(
                d.len() as int,
                b.len() as int,
            ));
            assert(b.subrange(d.len() as int, b.len() as int) =~= y);
            assert(x.subrange(0, y.len() as int) == y);
        }
    }
}

/// Of two keys with the same start frame, the one with the larger end frame
/// sorts first.
pub proof fn lemma_end_order_reversed(start: u64, e1: u64, e2: u64)
    requires
        e1 < e2,
    ensures
        sorts_after(encode_key(start, e1), encode_key(start, e2)),
{
    lemma_pow10_values();
    let c1 = complement(e1);
    let c2 = complement(e2);
    let a1 = key_field(c1);
    let a2 = key_field(c2);
    let i = lemma_fixed_order(c1, c2, 20);
    lemma_fixed_digits(c1, 20);
    lemma_fixed_digits(c2, 20);
    assert(a1.subrange(0, i) =~= a2.subrange(0, i));
    assert(sorts_after(a1, a2));
    let d = key_field(complement(start)) + seq!['-'];
    lemma_sorts_after_prefixed(d, a1, a2);
    assert(encode_key(start, e1) =~= d + a1);
    assert(encode_key(start, e2) =~= d + a2);
}

/// Every key string has forty-one characters.
pub proof fn lemma_key_length(start: u64, end: u64)
    ensures
        encode_key(start, end).len() == 41,
{
    lemma_fixed_digits(complement(start), 20);
    lemma_fixed_digits(complement(end), 20);
}


} // verus!
