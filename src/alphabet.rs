//! The 62-symbol alphabet `0-9A-Za-z` and base-62 rendering over it.
use vstd::arithmetic::div_mod::{
    lemma_div_denominator, lemma_fundamental_div_mod, lemma_multiply_divide_lt,
};
use vstd::prelude::*;

verus! {

/// Number of symbols in the alphabet.
pub const BASE: usize = 62;

/// The symbol for digit value `i` (`0 <= i < 62`), in the order `0-9A-Z a-z`.
pub open spec fn digit_spec(i: int) -> u8 {
    if i < 10 {
        (48 + i) as u8
    } else if i < 36 {
        (55 + i) as u8
    } else {
        (61 + i) as u8
    }
}

/// The alphabet as a sequence of bytes, in digit order.
pub open spec fn alphabet_seq() -> Seq<u8> {
    Seq::new(62, |i: int| digit_spec(i))
}

/// `b` is one of the 62 symbols: an ASCII digit or letter.
pub open spec fn is_symbol(b: u8) -> bool {
    (48 <= b && b <= 57) || (65 <= b && b <= 90) || (97 <= b && b <= 122)
}

/// Every byte of `s` is a symbol of the alphabet.
pub open spec fn all_symbols(s: Seq<u8>) -> bool {
    forall|j: int| 0 <= j < s.len() ==> is_symbol(#[trigger] s[j])
}

/// The symbol of digit value `i` lies in the alphabet, between `'0'` and `'z'`.
pub proof fn lemma_digit_is_symbol(i: int)
    requires
        0 <= i < 62,
    ensures
        is_symbol(digit_spec(i)),
        48 <= digit_spec(i) <= 122,
{
}

/// The alphabet holds exactly 62 symbols, no two alike, and every one of
/// them, and nothing else, is a symbol.
pub proof fn lemma_alphabet_size()
    ensures
        alphabet_seq().len() == 62,
        alphabet_seq().no_duplicates(),
        alphabet_seq().to_set().len() == 62,
        forall|b: u8| is_symbol(b) <==> alphabet_seq().contains(b),
{
    let a = alphabet_seq();
    assert forall|i: int, j: int| 0 <= i < a.len() && 0 <= j < a.len() && i != j implies a[i]
        != a[j] by {
        lemma_digit_is_symbol(i);
        lemma_digit_is_symbol(j);
    }
    a.unique_seq_to_set();
    assert forall|b: u8| is_symbol(b) <==> a.contains(b) by {
        if is_symbol(b) {
            let i: int = if b <= 57 {
                b - 48
            } else if b <= 90 {
                b - 55
            } else {
                b - 61
            };
            assert(a[i] == b);
        }
        if a.contains(b) {
            let i = choose|i: int| 0 <= i < a.len() && a[i] == b;
            lemma_digit_is_symbol(i);
        }
    }
}


/// `62` to the power `n`.
pub open spec fn pow62(n: nat) -> nat
    decreases n,
{
    if n == 0 {
        1
    } else {
        62 * pow62((n - 1) as nat)
    }
}

/// The `n` lowest base-62 digits of `v`, most significant first.
pub open spec fn base62_digits(v: nat, n: nat) -> Seq<u8> {
    Seq::new(n, |j: int| digit_spec(((v / pow62((n - 1 - j) as nat)) % 62) as int))
}

/// Powers of 62 are positive and grow by a factor of 62 at each step.
pub proof fn lemma_pow62_step(n: nat)
    ensures
        pow62(n) > 0,
        pow62(n + 1) == 62 * pow62(n),
    decreases n,
{
    if n > 0 {
        lemma_pow62_step((n - 1) as nat);
    }
}

/// The sequence field can count up to `62^10`, which is the rollover bound.
pub proof fn lemma_pow62_ten()
    ensures
        pow62(10) == 839299365868340224,
{
    reveal_with_fuel(pow62, 11);
}

/// Distinct digit values have distinct symbols.
pub proof fn lemma_digit_injective(i: int, j: int)
    requires
        0 <= i < 62,
        0 <= j < 62,
        digit_spec(i) == digit_spec(j),
    ensures
        i == j,
{
}

/// Two values below `62^n` whose `n` lowest base-62 digits agree are equal:
/// rendering a value below `62^n` in `n` digits loses nothing.
pub proof fn lemma_base62_digits_injective(v1: nat, v2: nat, n: nat)
    requires
        v1 < pow62(n),
        v2 < pow62(n),
        base62_digits(v1, n) == base62_digits(v2, n),
    ensures
        v1 == v2,
    decreases n,
{
    if n > 0 {
        let m = (n - 1) as nat;
        lemma_pow62_step(m);
        let d1 = base62_digits(v1, n);
        let d2 = base62_digits(v2, n);
        assert(pow62(0) == 1);
        assert(v1 / 1 == v1 && v2 / 1 == v2);
        assert((n - 1 - m) as nat == 0);
        assert(d1[m as int] == digit_spec((v1 % 62) as int));
        assert(d2[m as int] == digit_spec((v2 % 62) as int));
        lemma_digit_injective((v1 % 62) as int, (v2 % 62) as int);
        let h1 = v1 / 62;
        let h2 = v2 / 62;
        lemma_multiply_divide_lt(v1 as int, 62, pow62(m) as int);
        lemma_multiply_divide_lt(v2 as int, 62, pow62(m) as int);
        assert forall|j: int| 0 <= j < m implies #[trigger] base62_digits(h1, m)[j]
            == base62_digits(h2, m)[j] by {
            let e = (m - 1 - j) as nat;
            lemma_pow62_step(e);
            lemma_div_denominator(v1 as int, 62, pow62(e) as int);
            lemma_div_denominator(v2 as int, 62, pow62(e) as int);
            assert((n - 1 - j) as nat == e + 1);
            assert(d1[j] == d2[j]);
        }
        assert(base62_digits(h1, m) =~= base62_digits(h2, m));
        lemma_base62_digits_injective(h1, h2, m);
        lemma_fundamental_div_mod(v1 as int, 62);
        lemma_fundamental_div_mod(v2 as int, 62);
    }
}

/// The symbol for digit value `i`.
pub fn digit(i: usize) -> (r: u8)
    requires
        i < BASE,
    ensures
        r == digit_spec(i as int),
        is_symbol(r),
{
    if i < 10 {
        48 + i as u8
    } else if i < 36 {
        55 + i as u8
    } else {
        61 + i as u8
    }
}

/// The alphabet's symbols in digit order.
pub fn alphabet() -> (r: Vec<u8>)
    ensures
        r@ == alphabet_seq(),
{
    let mut r: Vec<u8> = Vec::new();
    let mut i: usize = 0;
    while i < BASE
        invariant
            i <= BASE,
            r@ == alphabet_seq().subrange(0, i as int),
        decreases BASE - i,
    {
        r.push(digit(i));
        i += 1;
    }
    assert(r@ =~= alphabet_seq());
    r
}

/// The symbol that a random byte `b` selects: its value modulo 62.
pub fn symbol_for_byte(b: u8) -> (r: u8)
    ensures
        r == digit_spec((b % 62) as int),
        is_symbol(r),
{
    digit((b as usize) % BASE)
}

} // verus!
