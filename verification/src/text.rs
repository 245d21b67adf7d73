//! Formatting numbers as text.

use vstd::prelude::*;

verus! {

/// Appends `c` to `s` (`String::push`).
#[verifier::external_body]
pub(crate) fn push_char(s: &mut String, c: char)
    ensures
        final(s)@ == old(s)@.push(c),
{
    s.push(c)
}

/// The digit for `d` in base 16, upper case (base 10 digits are the same).
pub open spec fn digit_char(d: nat) -> char {
    if d < 10 {
        ((d + 48) as u32) as char
    } else {
        ((d + 55) as u32) as char
    }
}

/// `n` written in base `base`, most significant digit first, no leading zeros.
pub open spec fn digits(n: nat, base: nat) -> Seq<char>
    recommends
        2 <= base <= 16,
    decreases n,
{
    if n < base || base < 2 {
        seq![digit_char(n)]
    } else {
        proof {
            assert(n / base < n) by (nonlinear_arith)
                requires
                    n >= base,
                    base >= 2,
            ;
        }
        digits(n / base, base).push(digit_char(n % base))
    }
}

fn digit(d: u64) -> (c: char)
    requires
        d < 16,
    ensures
        c == digit_char(d as nat),
{
    let c: char = match d {
        0 => '0',
        1 => '1',
        2 => '2',
        3 => '3',
        4 => '4',
        5 => '5',
        6 => '6',
        7 => '7',
        8 => '8',
        9 => '9',
        10 => 'A',
        11 => 'B',
        12 => 'C',
        13 => 'D',
        14 => 'E',
        _ => 'F',
    };
    c
}

/// Writes `n` in base `base` (2 to 16), upper case digits.
pub fn format_number(n: u64, base: u64) -> (r: String)
    requires
        2 <= base <= 16,
    ensures
        r@ == digits(n as nat, base as nat),
{
    // Collect digits least significant first.
    let mut rev: Vec<char> = Vec::new();
    let mut m = n;
    let ghost mut done: Seq<char> = Seq::empty();
    while m >= base
        invariant
            2 <= base <= 16,
            digits(n as nat, base as nat) == digits(m as nat, base as nat) + done,
            rev@ == done.reverse(),
        decreases m,
    {
        let d = m % base;
        proof {
            assert(digits(m as nat, base as nat) == digits((m / base) as nat, base as nat).push(
                digit_char((m % base) as nat),
            ));
        }
        let c = digit(d);
        rev.push(c);
        proof {
            assert(digits((m / base) as nat, base as nat).push(c) + done =~= digits(
                (m / base) as nat,
                base as nat,
            ) + seq![c].add(done));
            assert(rev@ =~= seq![c].add(done).reverse());
            done = seq![c].add(done);
        }
        m = m / base;
    }
    let c = digit(m);
    rev.push(c);
    proof {
        assert(rev@ =~= (seq![c] + done).reverse());
        done = seq![c] + done;
    }
    let mut r = String::new();
    let mut i = rev.len();
    while i > 0
        invariant
            i <= rev@.len(),
            rev@ == done.reverse(),
            r@ == done.subrange(0, (done.len() - i) as int),
            done.len() == rev@.len(),
        decreases i,
    {
        i = i - 1;
        push_char(&mut r, rev[i]);
        assert(r@ =~= done.subrange(0, (done.len() - i) as int));
    }
    assert(done =~= digits(n as nat, base as nat));
    r
}

proof fn lemma_digit_char_injective(a: nat, b: nat)
    requires
        a < 16,
        b < 16,
        digit_char(a) == digit_char(b),
    ensures
        a == b,
{
    assert((digit_char(a) as u32) == (if a < 10 { a + 48 } else { a + 55 }));
    assert((digit_char(b) as u32) == (if b < 10 { b + 48 } else { b + 55 }));
}

proof fn lemma_digits_len(n: nat, base: nat)
    requires
        2 <= base <= 16,
    ensures
        digits(n, base).len() >= 1,
        n < base <==> digits(n, base).len() == 1,
    decreases n,
{
    if n >= base {
        assert(n / base < n) by (nonlinear_arith)
            requires
                n >= base,
                base >= 2,
        ;
        lemma_digits_len(n / base, base);
    }
}

/// Different numbers are written differently: `digits` is one to one.
pub proof fn law_digits_injective(n: nat, m: nat, base: nat)
    requires
        2 <= base <= 16,
        digits(n, base) == digits(m, base),
    ensures
        n == m,
    decreases n,
{
    lemma_digits_len(n, base);
    lemma_digits_len(m, base);
    if n < base {
        assert(digits(n, base)[0] == digit_char(n));
        assert(digits(m, base)[0] == digit_char(m));
        lemma_digit_char_injective(n, m);
    } else {
        let dn = digits(n, base);
        let dm = digits(m, base);
        assert(n / base < n) by (nonlinear_arith)
            requires
                n >= base,
                base >= 2,
        ;
        assert(n % base < base) by (nonlinear_arith)
            requires
                base >= 2,
        ;
        assert(m % base < base) by (nonlinear_arith)
            requires
                base >= 2,
        ;
        assert(dn.last() == digit_char(n % base));
        assert(dm.last() == digit_char(m % base));
        lemma_digit_char_injective(n % base, m % base);
        assert(dn.drop_last() =~= digits(n / base, base));
        assert(dm.drop_last() =~= digits(m / base, base));
        law_digits_injective(n / base, m / base, base);
        assert(n == base * (n / base) + n % base) by (nonlinear_arith)
            requires
                base >= 2,
        ;
        assert(m == base * (m / base) + m % base) by (nonlinear_arith)
            requires
                base >= 2,
        ;
    }
}

} // verus!
