//! Decimal and binary rendering of unsigned integers into strings.

use vstd::prelude::*;
use vstd::string::StringExecFns;

verus! {

/// The ASCII character of a decimal digit.
pub open spec fn digit_char(d: nat) -> char {
    if d == 0 { '0' }
    else if d == 1 { '1' }
    else if d == 2 { '2' }
    else if d == 3 { '3' }
    else if d == 4 { '4' }
    else if d == 5 { '5' }
    else if d == 6 { '6' }
    else if d == 7 { '7' }
    else if d == 8 { '8' }
    else { '9' }
}

/// Base-10 rendering of `n` without leading zeros (`"0"` for zero).
pub open spec fn decimal(n: nat) -> Seq<char>
    decreases n,
{
    if n < 10 {
        seq![digit_char(n)]
    } else {
        decimal(n / 10).push(digit_char(n % 10))
    }
}

/// Base-2 rendering of `n` without leading zeros (`"0"` for zero).
pub open spec fn binary(n: nat) -> Seq<char>
    decreases n,
{
    if n < 2 {
        seq![digit_char(n)]
    } else {
        binary(n / 2).push(digit_char(n % 2))
    }
}

/// `s` left-padded with `'0'` to at least `width` characters.
pub open spec fn zero_padded(s: Seq<char>, width: nat) -> Seq<char> {
    if s.len() >= width {
        s
    } else {
        Seq::new((width - s.len()) as nat, |i: int| '0') + s
    }
}

fn append_digit(s: &mut String, d: usize)
    requires
        d < 10,
    ensures
        final(s)@ == old(s)@.push(digit_char(d as nat)),
{
    proof {
        reveal_strlit("0");
        reveal_strlit("1");
        reveal_strlit("2");
        reveal_strlit("3");
        reveal_strlit("4");
        reveal_strlit("5");
        reveal_strlit("6");
        reveal_strlit("7");
        reveal_strlit("8");
        reveal_strlit("9");
    }
    let lit = if d == 0 { "0" }
        else if d == 1 { "1" }
        else if d == 2 { "2" }
        else if d == 3 { "3" }
        else if d == 4 { "4" }
        else if d == 5 { "5" }
        else if d == 6 { "6" }
        else if d == 7 { "7" }
        else if d == 8 { "8" }
        else { "9" };
    s.append(lit);
    assert(final(s)@ =~= old(s)@.push(digit_char(d as nat)));
}

/// Appends the decimal rendering of `n` to `s`.
pub fn append_decimal(s: &mut String, n: usize)
    ensures
        final(s)@ == old(s)@ + decimal(n as nat),
    decreases n,
{
    if n >= 10 {
        append_decimal(s, n / 10);
    }
    append_digit(s, n % 10);
    assert(final(s)@ =~= old(s)@ + decimal(n as nat));
}

/// Number of binary digits of `n` (1 for zero).
pub open spec fn bit_length(n: nat) -> nat
    decreases n,
{
    if n < 2 {
        1
    } else {
        1 + bit_length(n / 2)
    }
}

proof fn lemma_binary_len(n: nat)
    ensures
        binary(n).len() == bit_length(n),
    decreases n,
{
    if n >= 2 {
        lemma_binary_len(n / 2);
    }
}

/// Appends the binary rendering of `n` to `s`.
pub fn append_binary(s: &mut String, n: usize)
    ensures
        final(s)@ == old(s)@ + binary(n as nat),
    decreases n,
{
    if n >= 2 {
        append_binary(s, n / 2);
    }
    append_digit(s, n % 2);
    assert(final(s)@ =~= old(s)@ + binary(n as nat));
}

/// The binary rendering of `n`, left-padded with zeros to at least `width`
/// characters.
pub fn binary_padded(n: usize, width: usize) -> (r: String)
    ensures
        r@ == zero_padded(binary(n as nat), width as nat),
{
    let mut bits: usize = 1;
    let mut m = n;
    proof {
        lemma_bit_length_bound(n as nat);
    }
    while m >= 2
        invariant
            bits + bit_length(m as nat) == 1 + bit_length(n as nat),
            bits <= 64,
            bit_length(m as nat) >= 1,
            bits + bit_length(m as nat) <= 65,
        decreases m,
    {
        m = m / 2;
        bits += 1;
    }
    proof {
        lemma_binary_len(n as nat);
    }
    let mut r = String::new();
    if bits < width {
        let mut k: usize = 0;
        while k < width - bits
            invariant
                bits < width,
                k <= width - bits,
                r@ == Seq::new(k as nat, |i: int| '0'),
            decreases width - bits - k,
        {
            append_digit(&mut r, 0);
            assert(r@ =~= Seq::new((k + 1) as nat, |i: int| '0'));
            k += 1;
        }
    }
    append_binary(&mut r, n);
    assert(r@ =~= zero_padded(binary(n as nat), width as nat));
    r
}

proof fn lemma_bit_length_bound(n: nat)
    requires
        n <= usize::MAX,
    ensures
        bit_length(n) <= 64,
{
    lemma_bit_length_mono(n, 0xffff_ffff_ffff_ffffnat);
    lemma_bit_length_max();
}

proof fn lemma_bit_length_mono(a: nat, b: nat)
    requires
        a <= b,
    ensures
        bit_length(a) <= bit_length(b),
    decreases b,
{
    if a >= 2 {
        lemma_bit_length_mono(a / 2, b / 2);
    }
}

proof fn lemma_bit_length_max()
    ensures
        bit_length(0xffff_ffff_ffff_ffffnat) == 64,
{
    reveal_with_fuel(bit_length, 65);
}

} // verus!
