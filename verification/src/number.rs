use vstd::prelude::*;

verus! {

/// The decimal digits of `n` as ASCII bytes, most significant first.
pub open spec fn decimal(n: nat) -> Seq<u8>
    decreases n,
{
    if n < 10 {
        seq![(48 + n) as u8]
    } else {
        decimal(n / 10).push((48 + n % 10) as u8)
    }
}

/// The absolute value of `v`.
pub open spec fn abs_of(v: int) -> nat {
    if v < 0 {
        (-v) as nat
    } else {
        v as nat
    }
}

/// How `v` is displayed: a `-` before the digits when it is negative.
pub open spec fn signed_text(v: int) -> Seq<u8> {
    if v < 0 {
        seq![45u8] + decimal(abs_of(v))
    } else {
        decimal(abs_of(v))
    }
}

/// `s` with `0` characters added in front until it is `width` bytes long.
pub open spec fn zero_pad_left(s: Seq<u8>, width: int) -> Seq<u8> {
    if s.len() >= width {
        s
    } else {
        Seq::new((width - s.len()) as nat, |_i: int| 48u8) + s
    }
}

/// `v` written in decimal and right-aligned in `width` bytes, filled with `0`.
pub open spec fn padded_text(v: int, width: int) -> Seq<u8> {
    zero_pad_left(signed_text(v), width)
}

/// A `+` or `-` sign followed by the digits of `|v|`, right-aligned in
/// `width - 1` bytes filled with `0`.
pub open spec fn signed_padded_text(v: int, width: int) -> Seq<u8> {
    seq![if v < 0 { 45u8 } else { 43u8 }] + zero_pad_left(decimal(abs_of(v)), width - 1)
}

/// The decimal digits are never empty.
pub proof fn lemma_decimal_len(n: nat)
    ensures
        1 <= decimal(n).len(),
    decreases n,
{
    if n >= 10 {
        lemma_decimal_len(n / 10);
    }
}

/// The decimal digits of `n`.
pub fn decimal_digits(n: u64) -> (r: Vec<u8>)
    ensures
        r@ == decimal(n as nat),
    decreases n,
{
    if n < 10 {
        let d = n as u8;
        let mut r = Vec::new();
        r.push(48 + d);
        proof {
            assert(r@ =~= decimal(n as nat));
        }
        r
    } else {
        let mut r = decimal_digits(n / 10);
        let d = (n % 10) as u8;
        r.push(48 + d);
        r
    }
}

/// `s` with `0` bytes added in front until it is `width` bytes long.
pub fn zero_pad(s: &Vec<u8>, width: usize) -> (r: Vec<u8>)
    ensures
        r@ == zero_pad_left(s@, width as int),
{
    let mut r: Vec<u8> = Vec::new();
    if s.len() < width {
        let fill = width - s.len();
        let mut i: usize = 0;
        while i < fill
            invariant
                0 <= i <= fill,
                r@ =~= Seq::new(i as nat, |_k: int| 48u8),
            decreases fill - i,
        {
            r.push(48);
            i = i + 1;
        }
    }
    let mut j: usize = 0;
    let base = r.len();
    while j < s.len()
        invariant
            0 <= j <= s@.len(),
            r@.len() == base + j,
            r@.subrange(0, base as int) =~= if s@.len() < width {
                Seq::new((width - s@.len()) as nat, |_k: int| 48u8)
            } else {
                Seq::<u8>::empty()
            },
            forall|k: int| 0 <= k < j ==> r@[base + k] == s@[k],
        decreases s@.len() - j,
    {
        r.push(s[j]);
        j = j + 1;
    }
    assert(r@ =~= zero_pad_left(s@, width as int));
    r
}

/// The absolute value of `v`, which always fits in a `u64`.
pub fn unsigned_abs(v: i64) -> (r: u64)
    ensures
        r == abs_of(v as int),
{
    if v >= 0 {
        v as u64
    } else if v == i64::MIN {
        9223372036854775808u64
    } else {
        (-v) as u64
    }
}

/// `v` in decimal, right-aligned in `width` bytes and filled with `0`.
pub fn padded_int(v: i64, width: usize) -> (r: Vec<u8>)
    ensures
        r@ == padded_text(v as int, width as int),
{
    let digits = decimal_digits(unsigned_abs(v));
    let mut text: Vec<u8> = Vec::new();
    if v < 0 {
        text.push(45);
    }
    let mut k: usize = 0;
    while k < digits.len()
        invariant
            0 <= k <= digits@.len(),
            text@ =~= (if v < 0 { seq![45u8] } else { Seq::<u8>::empty() }) + digits@.subrange(0, k as int),
        decreases digits@.len() - k,
    {
        text.push(digits[k]);
        k = k + 1;
    }
    assert(digits@.subrange(0, digits@.len() as int) =~= digits@);
    zero_pad(&text, width)
}

/// A sign followed by `|v|` in decimal, right-aligned in `width - 1` bytes.
pub fn signed_padded_int(v: i64, width: usize) -> (r: Vec<u8>)
    ensures
        r@ == signed_padded_text(v as int, width as int),
{
    let digits = decimal_digits(unsigned_abs(v));
    let rest = if width > 0 { width - 1 } else { 0 };
    let body = zero_pad(&digits, rest);
    let mut r: Vec<u8> = Vec::new();
    r.push(if v < 0 { 45 } else { 43 });
    let mut k: usize = 0;
    while k < body.len()
        invariant
            0 <= k <= body@.len(),
            r@ =~= seq![if v < 0 { 45u8 } else { 43u8 }] + body@.subrange(0, k as int),
        decreases body@.len() - k,
    {
        r.push(body[k]);
        k = k + 1;
    }
    assert(body@.subrange(0, body@.len() as int) =~= body@);
    proof {
        lemma_decimal_len(abs_of(v as int));
        if width == 0 {
            assert(zero_pad_left(decimal(abs_of(v as int)), -1) == zero_pad_left(decimal(abs_of(v as int)), 0));
        }
    }
    r
}

} // verus!
