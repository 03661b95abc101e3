use num_bigint::BigUint;
use vstd::arithmetic::power::{lemma_pow1, lemma_pow_mod_noop, lemma_pow_multiplies, pow};
use vstd::arithmetic::div_mod::{lemma_fundamental_div_mod_converse, lemma_small_mod};
use vstd::prelude::*;

verus! {

/// The value of base-2^32 digits, least significant first.
pub open spec fn digits_value(s: Seq<u32>) -> nat
    decreases s.len(),
{
    if s.len() == 0 {
        0
    } else {
        s[0] as nat + 0x1_0000_0000 * digits_value(s.drop_first())
    }
}

/// A natural number of any size, as base-2^32 digits, least significant first.
#[derive(Clone, Debug)]
pub struct Nat {
    pub digits: Vec<u32>,
}

impl Nat {
    /// The number the digits spell.
    pub open spec fn value(&self) -> nat {
        digits_value(self.digits@)
    }

    /// The digits carry no trailing zero.
    pub open spec fn wf(&self) -> bool {
        normalized(self.digits@)
    }

    /// The number with the given digits, least significant first, without
    /// their trailing zeros.
    pub fn new(digits: Vec<u32>) -> (r: Nat)
        ensures
            r.wf(),
            r.value() == digits_value(digits@),
    {
        let ghost start = digits@;
        let mut digits = digits;
        while digits.len() > 0 && digits[digits.len() - 1] == 0
            invariant
                digits_value(digits@) == digits_value(start),
            decreases digits@.len(),
        {
            let ghost before = digits@;
            digits.pop();
            proof {
                lemma_drop_trailing_zero(before);
            }
        }
        Nat { digits }
    }

    /// The number `v`.
    pub fn from_u32(v: u32) -> (r: Nat)
        ensures
            r.wf(),
            r.value() == v as nat,
    {
        let d: Vec<u32> = vec![v];
        proof {
            assert(d@.drop_first().len() == 0);
            assert(digits_value(d@.drop_first()) == 0);
        }
        Nat::new(d)
    }

    /// A copy of this number.
    pub fn copy(&self) -> (r: Nat)
        ensures
            r.digits@ == self.digits@,
            r.value() == self.value(),
    {
        let mut digits: Vec<u32> = Vec::new();
        let mut i: usize = 0;
        while i < self.digits.len()
            invariant
                i <= self.digits@.len(),
                digits@ == self.digits@.subrange(0, i as int),
            decreases self.digits@.len() - i,
        {
            digits.push(self.digits[i]);
            i += 1;
            proof {
                assert(digits@ =~= self.digits@.subrange(0, i as int));
            }
        }
        proof {
            assert(digits@ =~= self.digits@);
        }
        Nat { digits }
    }

    /// The two numbers have the same value.
    pub fn same_value(&self, other: &Nat) -> (r: bool)
        requires
            self.wf(),
            other.wf(),
        ensures
            r <==> self.value() == other.value(),
    {
        proof {
            if self.value() == other.value() {
                lemma_digits_unique(self.digits@, other.digits@);
            }
        }
        self.same(other)
    }

    /// The two numbers have the same digits.
    pub fn same(&self, other: &Nat) -> (r: bool)
        ensures
            r <==> self.digits@ == other.digits@,
    {
        if self.digits.len() != other.digits.len() {
            return false;
        }
        let mut i: usize = 0;
        while i < self.digits.len()
            invariant
                i <= self.digits@.len(),
                self.digits@.len() == other.digits@.len(),
                forall|j: int| 0 <= j < i ==> self.digits@[j] == other.digits@[j],
            decreases self.digits@.len() - i,
        {
            if self.digits[i] != other.digits[i] {
                return false;
            }
            i += 1;
        }
        proof {
            assert(self.digits@ =~= other.digits@);
        }
        true
    }
}

/// The digits carry no trailing zero.
pub open spec fn normalized(s: Seq<u32>) -> bool {
    s.len() > 0 ==> s.last() != 0
}

proof fn lemma_value_pos(s: Seq<u32>)
    requires
        normalized(s),
        s.len() > 0,
    ensures
        digits_value(s) > 0,
    decreases s.len(),
{
    if s.len() > 1 {
        assert(s.drop_first().last() == s.last());
        lemma_value_pos(s.drop_first());
    } else {
        assert(s.drop_first().len() == 0);
        assert(digits_value(s.drop_first()) == 0);
    }
}

/// Normalized digits are determined by their value.
pub proof fn lemma_digits_unique(a: Seq<u32>, b: Seq<u32>)
    requires
        normalized(a),
        normalized(b),
        digits_value(a) == digits_value(b),
    ensures
        a == b,
    decreases a.len(),
{
    if a.len() == 0 {
        if b.len() > 0 {
            lemma_value_pos(b);
        }
        assert(a =~= b);
    } else if b.len() == 0 {
        lemma_value_pos(a);
    } else {
        let v = digits_value(a) as int;
        lemma_fundamental_div_mod_converse(v, 0x1_0000_0000, digits_value(a.drop_first()) as int, a[0] as int);
        lemma_fundamental_div_mod_converse(v, 0x1_0000_0000, digits_value(b.drop_first()) as int, b[0] as int);
        if a.len() > 1 {
            assert(a.drop_first().last() == a.last());
        }
        if b.len() > 1 {
            assert(b.drop_first().last() == b.last());
        }
        lemma_digits_unique(a.drop_first(), b.drop_first());
        assert(a =~= seq![a[0]] + a.drop_first());
        assert(b =~= seq![b[0]] + b.drop_first());
    }
}

proof fn lemma_drop_trailing_zero(s: Seq<u32>)
    requires
        s.len() > 0,
        s.last() == 0,
    ensures
        digits_value(s.drop_last()) == digits_value(s),
    decreases s.len(),
{
    if s.len() > 1 {
        assert(s.drop_first().last() == 0);
        lemma_drop_trailing_zero(s.drop_first());
        assert(s.drop_first().drop_last() =~= s.drop_last().drop_first());
        assert(s.drop_last()[0] == s[0]);
    } else {
        assert(s.drop_first().len() == 0);
        assert(s.drop_last().len() == 0);
        assert(digits_value(s.drop_first()) == 0);
    }
}

/// Relies on `num_bigint::BigUint::modpow`: `base^exponent mod modulus`. It
/// panics on a zero modulus, which `requires` leaves out. `BigUint::from_slice`
/// reads base-2^32 digits, least significant first; `to_u32_digits` hands back
/// the normalized digits, with no trailing zero.
#[verifier::external_body]
pub(crate) fn modpow(base: &Nat, exponent: &Nat, modulus: &Nat) -> (r: Nat)
    requires
        modulus.value() > 0,
    ensures
        r.value() as int == pow(base.value() as int, exponent.value()) % (modulus.value() as int),
        r.wf(),
{
    let b = BigUint::from_slice(&base.digits);
    let e = BigUint::from_slice(&exponent.digits);
    let m = BigUint::from_slice(&modulus.digits);
    Nat { digits: b.modpow(&e, &m).to_u32_digits() }
}

/// Raising `g^a mod m` to `b` modulo `m` gives `g^(a*b) mod m`.
pub proof fn lemma_pow_pow_mod(g: int, a: nat, b: nat, m: int)
    requires
        m > 0,
    ensures
        pow(pow(g, a) % m, b) % m == pow(g, a * b) % m,
{
    lemma_pow_mod_noop(pow(g, a), b, m);
    lemma_pow_multiplies(g, a, b);
}

/// A number below the modulus is its own first power modulo it.
pub proof fn lemma_pow_one_mod(g: int, m: int)
    requires
        0 <= g < m,
    ensures
        pow(g, 1) % m == g,
{
    lemma_pow1(g);
    lemma_small_mod(g as nat, m as nat);
}

} // verus!
