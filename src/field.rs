//! Fixed-width, space-padded ASCII fields: trimming, padding, and the
//! decimal and octal digit strings that header fields hold.
use vstd::prelude::*;

verus! {

/// The byte that pads a field on the right.
pub const SPACE: u8 = 0x20;

/// Whether `b` is stripped by a trim: a space, and with `any_whitespace`
/// also an ASCII tab, line feed, vertical tab, form feed or carriage return.
pub open spec fn is_blank(b: u8, any_whitespace: bool) -> bool {
    b == 0x20 || (any_whitespace && 0x09 <= b <= 0x0D)
}

pub open spec fn strip_leading(s: Seq<u8>, any_whitespace: bool) -> Seq<u8>
    decreases s.len(),
{
    if s.len() > 0 && is_blank(s[0], any_whitespace) {
        strip_leading(s.drop_first(), any_whitespace)
    } else {
        s
    }
}

pub open spec fn strip_trailing(s: Seq<u8>, any_whitespace: bool) -> Seq<u8>
    decreases s.len(),
{
    if s.len() > 0 && is_blank(s.last(), any_whitespace) {
        strip_trailing(s.drop_last(), any_whitespace)
    } else {
        s
    }
}

/// `s` without its blank bytes at either end.
pub open spec fn trim(s: Seq<u8>, any_whitespace: bool) -> Seq<u8> {
    strip_trailing(strip_leading(s, any_whitespace), any_whitespace)
}

/// `s` left-justified in `width` bytes, padded with spaces.
pub open spec fn pad_field(s: Seq<u8>, width: nat) -> Seq<u8> {
    s + Seq::new((width - s.len()) as nat, |i: int| SPACE)
}

pub open spec fn is_digit(b: u8) -> bool {
    0x30 <= b <= 0x39
}

pub open spec fn all_digits(s: Seq<u8>) -> bool {
    forall|i: int| 0 <= i < s.len() ==> is_digit(#[trigger] s[i])
}

/// The number that the decimal digits `s` spell, most significant first.
pub open spec fn digits_value(s: Seq<u8>) -> nat
    decreases s.len(),
{
    if s.len() == 0 {
        0
    } else {
        digits_value(s.drop_last()) * 10 + (s.last() - 0x30) as nat
    }
}

/// The digits of `n` in `base` (at most ten), most significant first,
/// without leading zeros; zero is the single digit `0`.
pub open spec fn digits_of(n: nat, base: nat) -> Seq<u8>
    decreases n,
    via digits_of_decreases
{
    if base < 2 || n < base {
        seq![(0x30 + n) as u8]
    } else {
        digits_of(n / base, base) + seq![(0x30 + n % base) as u8]
    }
}

#[via_fn]
proof fn digits_of_decreases(n: nat, base: nat) {
    if !(base < 2 || n < base) {
        assert(n / base < n) by (nonlinear_arith)
            requires
                base >= 2,
                n >= base,
        ;
    }
}

/// `t` without one leading plus sign, where it has one.
pub open spec fn unsigned_part(t: Seq<u8>) -> Seq<u8> {
    if t.len() > 0 && t[0] == 0x2B {
        t.drop_first()
    } else {
        t
    }
}

/// The digits that a numeric field holds: the field trimmed of spaces,
/// without an optional leading `+`.
pub open spec fn field_digits(field: Seq<u8>) -> Seq<u8> {
    unsigned_part(trim(field, false))
}

/// What a numeric field holds: after trimming spaces and an optional `+`,
/// one or more decimal digits, read in base ten; anything else is no number.
pub open spec fn parse_decimal_spec(field: Seq<u8>) -> Option<nat> {
    let d = field_digits(field);
    if d.len() > 0 && all_digits(d) {
        Some(digits_value(d))
    } else {
        None
    }
}

pub open spec fn pow10(k: nat) -> nat
    decreases k,
{
    if k == 0 {
        1
    } else {
        10 * pow10((k - 1) as nat)
    }
}

/// The bytes `s[start..end]` as a new vector.
pub fn copy_range(s: &[u8], start: usize, end: usize) -> (r: Vec<u8>)
    requires
        start <= end <= s@.len(),
    ensures
        r@ == s@.subrange(start as int, end as int),
{
    let mut r: Vec<u8> = Vec::new();
    let mut i: usize = start;
    while i < end
        invariant
            start <= i <= end <= s@.len(),
            r@ == s@.subrange(start as int, i as int),
        decreases end - i,
    {
        r.push(s[i]);
        i = i + 1;
        assert(r@ =~= s@.subrange(start as int, i as int));
    }
    r
}

fn blank(b: u8, any_whitespace: bool) -> (r: bool)
    ensures
        r == is_blank(b, any_whitespace),
{
    b == SPACE || (any_whitespace && 0x09 <= b && b <= 0x0D)
}

/// Appends the bytes of `s`.
pub fn append_bytes(out: &mut Vec<u8>, s: &[u8])
    ensures
        final(out)@ == old(out)@ + s@,
{
    let mut i: usize = 0;
    while i < s.len()
        invariant
            i <= s@.len(),
            out@ == old(out)@ + s@.subrange(0, i as int),
        decreases s@.len() - i,
    {
        out.push(s[i]);
        i = i + 1;
        assert(out@ =~= old(out)@ + s@.subrange(0, i as int));
    }
    assert(s@.subrange(0, s@.len() as int) =~= s@);
}

/// `s` without blanks at either end: spaces only, or with `any_whitespace`
/// all ASCII whitespace.
pub fn trim_bytes(s: &[u8], any_whitespace: bool) -> (r: Vec<u8>)
    ensures
        r@ == trim(s@, any_whitespace),
{
    let len = s.len();
    let mut i: usize = 0;
    assert(s@.subrange(0, len as int) =~= s@);
    while i < len && blank(s[i], any_whitespace)
        invariant
            i <= len == s@.len(),
            strip_leading(s@, any_whitespace) == strip_leading(
                s@.subrange(i as int, len as int),
                any_whitespace,
            ),
        decreases len - i,
    {
        assert(s@.subrange(i as int, len as int).drop_first() =~= s@.subrange(
            i + 1,
            len as int,
        ));
        i = i + 1;
    }
    let mut j: usize = len;
    while j > i && blank(s[j - 1], any_whitespace)
        invariant
            i <= j <= len == s@.len(),
            strip_leading(s@, any_whitespace) == s@.subrange(i as int, len as int),
            trim(s@, any_whitespace) == strip_trailing(
                s@.subrange(i as int, j as int),
                any_whitespace,
            ),
        decreases j,
    {
        assert(s@.subrange(i as int, j as int).drop_last() =~= s@.subrange(
            i as int,
            j - 1,
        ));
        j = j - 1;
    }
    copy_range(s, i, j)
}

/// Appends `s` left-justified in `width` bytes, padded with spaces.
pub fn push_padded(out: &mut Vec<u8>, s: &[u8], width: usize)
    requires
        s@.len() <= width,
    ensures
        final(out)@ == old(out)@ + pad_field(s@, width as nat),
{
    let mut i: usize = 0;
    while i < s.len()
        invariant
            i <= s@.len() <= width,
            out@ == old(out)@ + s@.subrange(0, i as int),
        decreases s@.len() - i,
    {
        out.push(s[i]);
        i = i + 1;
        assert(out@ =~= old(out)@ + s@.subrange(0, i as int));
    }
    while i < width
        invariant
            s@.len() <= i <= width,
            out@ == old(out)@ + s@ + Seq::new((i - s@.len()) as nat, |k: int| SPACE),
        decreases width - i,
    {
        out.push(SPACE);
        i = i + 1;
        assert(out@ =~= old(out)@ + s@ + Seq::new((i - s@.len()) as nat, |k: int| SPACE));
    }
    assert(out@ =~= old(out)@ + pad_field(s@, width as nat));
}

/// Appends the digits of `n` in `base`, most significant first.
pub fn push_digits(out: &mut Vec<u8>, n: u64, base: u64)
    requires
        2 <= base <= 10,
    ensures
        final(out)@ == old(out)@ + digits_of(n as nat, base as nat),
    decreases n,
{
    if n >= base {
        assert(n / base < n) by (nonlinear_arith)
            requires
                base >= 2,
                n >= base,
        ;
        push_digits(out, n / base, base);
    } else {
        assert(n % base == n) by (nonlinear_arith)
            requires
                n < base,
        ;
    }
    let d: u8 = (n % base) as u8;
    out.push(0x30 + d);
    assert(out@ =~= old(out)@ + digits_of(n as nat, base as nat));
}

/// The number in a numeric field of at most nineteen bytes, or `None` where
/// the field holds no number.
pub fn parse_decimal(field: &[u8]) -> (r: Option<u64>)
    requires
        field@.len() <= 19,
    ensures
        r.is_some() == parse_decimal_spec(field@).is_some(),
        r.is_some() ==> r.unwrap() as nat == parse_decimal_spec(field@).unwrap(),
{
    let trimmed = trim_bytes(field, false);
    proof {
        lemma_trim_len(field@, false);
    }
    let t = if trimmed.len() > 0 && trimmed[0] == 0x2B {
        copy_range(trimmed.as_slice(), 1, trimmed.len())
    } else {
        trimmed
    };
    assert(t@ =~= field_digits(field@));
    if t.len() == 0 {
        return None;
    }
    let mut v: u64 = 0;
    let mut k: usize = 0;
    while k < t.len()
        invariant
            k <= t@.len() <= 19,
            t@ == field_digits(field@),
            all_digits(t@.subrange(0, k as int)),
            v as nat == digits_value(t@.subrange(0, k as int)),
            v < pow10(k as nat),
        decreases t@.len() - k,
    {
        let b = t[k];
        if b < 0x30 || b > 0x39 {
            assert(!all_digits(t@));
            return None;
        }
        proof {
            lemma_pow10_le(k as nat, 18);
            reveal_with_fuel(pow10, 19);
            assert(pow10(18) == 1000000000000000000nat);
            assert(t@.subrange(0, k + 1).drop_last() =~= t@.subrange(0, k as int));
        }
        v = v * 10 + (b - 0x30) as u64;
        k = k + 1;
    }
    assert(t@.subrange(0, k as int) =~= t@);
    Some(v)
}

pub proof fn lemma_pow10_le(a: nat, b: nat)
    requires
        a <= b,
    ensures
        1 <= pow10(a) <= pow10(b),
    decreases b,
{
    if b > 0 {
        if a < b {
            lemma_pow10_le(a, (b - 1) as nat);
        } else {
            lemma_pow10_le((a - 1) as nat, (b - 1) as nat);
        }
    }
}

pub proof fn lemma_strip_len(s: Seq<u8>, any_whitespace: bool)
    ensures
        strip_leading(s, any_whitespace).len() <= s.len(),
        strip_trailing(s, any_whitespace).len() <= s.len(),
    decreases s.len(),
{
    if s.len() > 0 {
        lemma_strip_len(s.drop_first(), any_whitespace);
        lemma_strip_len(s.drop_last(), any_whitespace);
    }
}

pub proof fn lemma_trim_len(s: Seq<u8>, any_whitespace: bool)
    ensures
        trim(s, any_whitespace).len() <= s.len(),
        field_digits(s).len() <= s.len(),
{
    lemma_strip_len(s, any_whitespace);
    lemma_strip_len(strip_leading(s, any_whitespace), any_whitespace);
    lemma_strip_len(s, false);
    lemma_strip_len(strip_leading(s, false), false);
}

/// The digits of a number are one or more digit bytes; in base ten they
/// spell the number back.
pub proof fn lemma_digits_of(n: nat, base: nat)
    requires
        2 <= base <= 10,
    ensures
        digits_of(n, base).len() >= 1,
        all_digits(digits_of(n, base)),
        base == 10 ==> digits_value(digits_of(n, base)) == n,
    decreases n,
{
    if n >= base {
        assert(n / base < n) by (nonlinear_arith)
            requires
                base >= 2,
                n >= base,
        ;
        lemma_digits_of(n / base, base);
        let d = digits_of(n, base);
        assert(d.drop_last() =~= digits_of(n / base, base));
        assert(all_digits(d));
        if base == 10 {
            assert(d.last() == (0x30 + n % 10) as u8);
            assert(digits_value(d) == digits_value(d.drop_last()) * 10 + (d.last() - 0x30) as nat);
            assert(n == (n / 10) * 10 + n % 10);
        }
    } else {
        assert(n % base == n) by (nonlinear_arith)
            requires
                n < base,
        ;
        let d = digits_of(n, base);
        assert(d.drop_last() =~= Seq::<u8>::empty());
        assert(d.last() == (0x30 + n) as u8);
        assert(digits_value(d) == digits_value(d.drop_last()) * 10 + (d.last() - 0x30) as nat);
    }
}

/// A non-empty value with no blank at either end comes back whole from
/// trimming its padded field.
pub proof fn lemma_trim_padded(d: Seq<u8>, width: nat, any_whitespace: bool)
    requires
        0 < d.len() <= width,
        !is_blank(d[0], true),
        !is_blank(d.last(), true),
    ensures
        trim(pad_field(d, width), any_whitespace) == d,
{
    let p = pad_field(d, width);
    assert(p[0] == d[0]);
    assert(strip_leading(p, any_whitespace) == p);
    lemma_strip_trailing_blanks(d, (width - d.len()) as nat, any_whitespace);
}

proof fn lemma_strip_trailing_blanks(d: Seq<u8>, k: nat, any_whitespace: bool)
    requires
        d.len() > 0,
        !is_blank(d.last(), true),
    ensures
        strip_trailing(d + Seq::new(k, |i: int| SPACE), any_whitespace) == d,
    decreases k,
{
    let p = d + Seq::new(k, |i: int| SPACE);
    if k > 0 {
        assert(p.drop_last() =~= d + Seq::new((k - 1) as nat, |i: int| SPACE));
        lemma_strip_trailing_blanks(d, (k - 1) as nat, any_whitespace);
    } else {
        assert(p =~= d);
    }
}

/// A number written in a decimal field that holds it is read back as itself.
pub proof fn lemma_decimal_round_trip(n: nat, width: nat)
    requires
        digits_of(n, 10).len() <= width,
    ensures
        parse_decimal_spec(pad_field(digits_of(n, 10), width)) == Some(n),
{
    let d = digits_of(n, 10);
    lemma_digits_of(n, 10);
    assert(is_digit(d[0]) && is_digit(d.last()));
    lemma_trim_padded(d, width, false);
    assert(field_digits(pad_field(d, width)) == d);
}

/// A number that some `k` decimal digits spell has at most `k` digits.
pub proof fn lemma_digits_value_fits(t: Seq<u8>)
    requires
        t.len() > 0,
        all_digits(t),
    ensures
        digits_value(t) < pow10(t.len()),
        digits_of(digits_value(t), 10).len() <= t.len(),
{
    lemma_digits_value_bound(t);
    lemma_digits_of_len(digits_value(t), t.len());
}

proof fn lemma_digits_value_bound(t: Seq<u8>)
    requires
        all_digits(t),
    ensures
        digits_value(t) < pow10(t.len()),
    decreases t.len(),
{
    if t.len() > 0 {
        let u = t.drop_last();
        assert(all_digits(u)) by {
            assert forall|i: int| 0 <= i < u.len() implies is_digit(#[trigger] u[i]) by {
                assert(u[i] == t[i]);
            }
        }
        assert(is_digit(t[t.len() - 1]));
        lemma_digits_value_bound(u);
    }
}

proof fn lemma_digits_of_len(n: nat, k: nat)
    requires
        k >= 1,
        n < pow10(k),
    ensures
        digits_of(n, 10).len() <= k,
    decreases n,
{
    if n >= 10 {
        let k1 = (k - 1) as nat;
        if k1 == 0 {
            reveal_with_fuel(pow10, 2);
        }
        assert(n / 10 < pow10(k1));
        lemma_digits_of_len(n / 10, k1);
    }
}

} // verus!
