//! Fresh element identities: each identity minted is the 32 lower-case
//! hexadecimal digits of a counter, so no two minted by one source agree.

use vstd::prelude::*;

use crate::text::string_from_chars;

verus! {

/// The lower-case hexadecimal digit of `v` (below sixteen).
pub open spec fn hex_digit(v: u8) -> char {
    if v < 10 {
        ((48 + v) as u8) as char
    } else {
        ((87 + v) as u8) as char
    }
}

/// The last `k` hexadecimal digits of `n`, most significant first.
pub open spec fn hex_tail(n: nat, k: nat) -> Seq<char>
    decreases k,
{
    if k == 0 {
        seq![]
    } else {
        hex_tail(n / 16, (k - 1) as nat).push(hex_digit((n % 16) as u8))
    }
}

/// The identity minted `n`-th: 32 hexadecimal digits.
pub open spec fn unid_text(n: nat) -> Seq<char> {
    hex_tail(n, 32)
}

/// Sixteen to the power `k`.
pub open spec fn pow16(k: nat) -> nat
    decreases k,
{
    if k == 0 {
        1
    } else {
        16 * pow16((k - 1) as nat)
    }
}

fn hex_char(v: u8) -> (r: char)
    requires
        v < 16,
    ensures
        r == hex_digit(v),
{
    if v < 10 {
        (48 + v) as char
    } else {
        (87 + v) as char
    }
}

fn hex_digits(n: u64, k: usize) -> (r: Vec<char>)
    ensures
        r@ == hex_tail(n as nat, k as nat),
    decreases k,
{
    if k == 0 {
        Vec::new()
    } else {
        let mut v = hex_digits(n / 16, k - 1);
        v.push(hex_char((n % 16) as u8));
        v
    }
}

/// A source of fresh identities.
pub struct UnidSource {
    next: u64,
}

impl UnidSource {
    /// How many identities the source has minted.
    pub closed spec fn issued(&self) -> nat {
        self.next as nat
    }

    /// A source that has minted nothing.
    pub fn new() -> (r: Self)
        ensures
            r.issued() == 0,
    {
        UnidSource { next: 0 }
    }

    /// A fresh identity: the next one of the source.
    pub fn generate_unid(&mut self) -> (r: String)
        requires
            old(self).issued() < u64::MAX,
        ensures
            r@ == unid_text(old(self).issued()),
            final(self).issued() == old(self).issued() + 1,
    {
        let v = hex_digits(self.next, 32);
        self.next = self.next + 1;
        string_from_chars(&v, 0, v.len())
    }
}

proof fn lemma_hex_digit_injective(x: u8, y: u8)
    requires
        x < 16,
        y < 16,
        hex_digit(x) == hex_digit(y),
    ensures
        x == y,
{
}

proof fn lemma_hex_tail_injective(a: nat, b: nat, k: nat)
    requires
        a < pow16(k),
        b < pow16(k),
        hex_tail(a, k) == hex_tail(b, k),
    ensures
        a == b,
    decreases k,
{
    if k > 0 {
        let ta = hex_tail(a, k);
        let tb = hex_tail(b, k);
        assert(ta.last() == tb.last());
        lemma_hex_digit_injective((a % 16) as u8, (b % 16) as u8);
        assert(ta.drop_last() =~= hex_tail(a / 16, (k - 1) as nat));
        assert(tb.drop_last() =~= hex_tail(b / 16, (k - 1) as nat));
        let p = pow16((k - 1) as nat);
        assert(a / 16 < p && b / 16 < p) by (nonlinear_arith)
            requires
                a < 16 * p,
                b < 16 * p,
        ;
        lemma_hex_tail_injective(a / 16, b / 16, (k - 1) as nat);
        assert(a == 16 * (a / 16) + a % 16) by (nonlinear_arith);
        assert(b == 16 * (b / 16) + b % 16) by (nonlinear_arith);
    }
}

proof fn lemma_pow16_grows(j: nat, k: nat)
    requires
        j <= k,
    ensures
        pow16(j) <= pow16(k),
    decreases k,
{
    if j < k {
        lemma_pow16_grows(j, (k - 1) as nat);
    }
}

/// No two identities minted by one source agree: the identities minted at
/// two different counts differ.
pub proof fn lemma_unids_distinct(a: u64, b: u64)
    requires
        a != b,
    ensures
        unid_text(a as nat) != unid_text(b as nat),
{
    assert(pow16(16) == 0x1_0000_0000_0000_0000) by {
        reveal_with_fuel(pow16, 17);
    }
    lemma_pow16_grows(16, 32);
    if unid_text(a as nat) == unid_text(b as nat) {
        lemma_hex_tail_injective(a as nat, b as nat, 32);
    }
}

} // verus!
