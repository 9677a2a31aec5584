//! Generalised base exponential representation (GBER).
//!
//! Every non-negative integer `N` has exactly one representation
//! `N = c1*b^p1 + c2*b^p2 + ... + ck*b^pk + r` with `0 < ci < b`,
//! `p1 > p2 > ... > pk >= 1` and `0 <= r < b`. The coefficients are the
//! base-`b` digits of `N` above the units digit, and `r` is the units digit.
use vstd::prelude::*;
use vstd::arithmetic::div_mod::{lemma_fundamental_div_mod, lemma_mod_breakdown, lemma_mod_mod, lemma_small_mod};
use vstd::arithmetic::mul::lemma_mul_is_commutative;
use vstd::arithmetic::power::{lemma_pow1, lemma_pow_adds};
use vstd::arithmetic::logarithm::{lemma_log0, lemma_log_s};
use crate::common_types::{BaseInt, InputInt};
use crate::common_utilities::{
    base_power, floor_log, integer_log, lemma_floor_log_bounds, lemma_pow_step, lemma_power_monotone,
    lemma_power_nonneg, lemma_small_exponent, power,
};

verus! {

/// The digit of `n` at position `p` in base `b`.
pub open spec fn digit(n: int, b: int, p: int) -> int {
    (n / power(b, p)) % b
}

/// `count` copies of the exponent `p`.
pub open spec fn repeated(p: u8, count: nat) -> Seq<u8> {
    Seq::new(count, |_i: int| p)
}

/// The component exponents of `n` at positions `k` down to `1`, each repeated
/// as many times as the digit of `n` at that position.
pub open spec fn powers_up_to(n: int, b: int, k: int) -> Seq<u8>
    decreases k,
{
    if k < 1 {
        seq![]
    } else {
        repeated(k as u8, digit(n, b, k) as nat) + powers_up_to(n, b, k - 1)
    }
}

/// The flattened component exponents of the GBER of `n` in base `b`, largest first.
pub open spec fn gber_powers(n: int, b: int) -> Seq<u8> {
    powers_up_to(n, b, floor_log(n, b))
}

/// The sum of `b^p` over the exponents `p` of `powers`.
pub open spec fn components_total(powers: Seq<u8>, b: int) -> int
    decreases powers.len(),
{
    if powers.len() == 0 {
        0
    } else {
        components_total(powers.drop_last(), b) + power(b, powers.last() as int)
    }
}

/// Sequence of exponents that never increases.
pub open spec fn non_increasing(s: Seq<u8>) -> bool {
    forall|i: int, j: int| 0 <= i <= j < s.len() ==> s[i] >= s[j]
}

/// Building block of GBER: `coefficient * base^exponent`.
///
/// Example in base 3: `18 = 2 * 3^2`.
#[derive(Clone, Copy, Debug, PartialEq, Eq)]
pub struct Term {
    /// Number of components; smaller than the base in a canonical term.
    pub coefficient: BaseInt,
    /// The power of the base.
    pub exponent: u8,
}

impl Term {
    /// The integer value `coefficient * base^exponent` of the term.
    pub fn calculate_value(&self, base: BaseInt) -> (r: InputInt)
        requires
            base >= 2,
            self.coefficient * power(base as int, self.exponent as int) <= u32::MAX,
        ensures
            r == self.coefficient * power(base as int, self.exponent as int),
    {
        if self.coefficient == 0 {
            return 0;
        }
        proof {
            lemma_power_nonneg(base as int, self.exponent as int);
            lemma_component_fits(self.coefficient as int, power(base as int, self.exponent as int));
        }
        let component = base_power(base, self.exponent);
        self.coefficient as InputInt * component
    }

    /// The term's components: `coefficient` copies of `base^exponent`.
    pub fn calculate_components(&self, base: BaseInt) -> (r: Vec<InputInt>)
        requires
            base >= 2,
            power(base as int, self.exponent as int) <= u32::MAX,
        ensures
            r@ == Seq::new(
                self.coefficient as nat,
                |_i: int| power(base as int, self.exponent as int) as InputInt,
            ),
    {
        let component_value = base_power(base, self.exponent);
        let mut components: Vec<InputInt> = Vec::new();
        let mut i: BaseInt = 0;
        while i < self.coefficient
            invariant
                i <= self.coefficient,
                component_value == power(base as int, self.exponent as int),
                components@ == Seq::new(i as nat, |_i: int| component_value),
            decreases self.coefficient - i,
        {
            components.push(component_value);
            i = i + 1;
            assert(components@ =~= Seq::new(i as nat, |_i: int| component_value));
        }
        assert(components@ =~= Seq::new(
            self.coefficient as nat,
            |_i: int| power(base as int, self.exponent as int) as InputInt,
        ));
        components
    }
}

/// GBER of a number: its components as flattened base exponents, and the
/// units digit as the remainder.
#[derive(Clone, Debug, PartialEq, Eq)]
pub struct Decomposition {
    /// The base against which the number is decomposed.
    pub base: BaseInt,
    /// Flattened term components as base exponents, largest first.
    pub component_powers: Vec<u8>,
    /// The last 0-power term as a remainder.
    pub remainder: BaseInt,
}

impl Decomposition {
    /// The number that the decomposition stands for.
    pub open spec fn value(&self) -> int {
        components_total(self.component_powers@, self.base as int) + self.remainder
    }

    /// The integer values of the components, in the order of their exponents.
    pub open spec fn component_sizes(&self) -> Seq<InputInt> {
        self.component_powers@.map_values(|p: u8| power(self.base as int, p as int) as InputInt)
    }

    /// The decomposition is the canonical GBER of a number of the input range.
    pub open spec fn wf(&self) -> bool {
        &&& self.base >= 2
        &&& self.value() <= u32::MAX
        &&& self.component_powers@ == gber_powers(self.value(), self.base as int)
        &&& self.remainder as int == self.value() % self.base as int
    }

    /// What a well-formed decomposition gives its users: exponents of at
    /// least one, largest first, components that fit in `InputInt`, and a
    /// remainder below the base.
    pub proof fn lemma_wf_facts(&self)
        requires
            self.wf(),
        ensures
            forall|k: int|
                0 <= k < self.component_powers@.len() ==> 1 <= #[trigger] self.component_powers@[k],
            forall|k: int|
                0 <= k < self.component_powers@.len() ==> #[trigger] self.component_sizes()[k]
                    == power(self.base as int, self.component_powers@[k] as int),
            forall|k: int|
                0 <= k < self.component_powers@.len() ==> self.base <= #[trigger] self.component_sizes()[k],
            non_increasing(self.component_powers@),
            components_total(self.component_powers@, self.base as int) + self.remainder == self.value(),
            self.value() <= u32::MAX,
            self.remainder < self.base,
    {
        let b = self.base as int;
        let n = self.value() as InputInt;
        lemma_gber_shape(n, self.base);
        lemma_total_nonneg(self.component_powers@, b);
        assert forall|k: int| 0 <= k < self.component_powers@.len() implies #[trigger] self.component_sizes()[k]
            == power(b, self.component_powers@[k] as int) && self.base <= self.component_sizes()[k] by {
            lemma_total_bounds_each(self.component_powers@, b, k);
            vstd::arithmetic::power::lemma_pow1(b);
            lemma_power_monotone(b, 1, self.component_powers@[k] as int);
        }
    }

    /// Decompose `decimal_number` in `base`; the base must be at least two.
    pub fn new(decimal_number: InputInt, base: BaseInt) -> (r: Result<Self, &'static str>)
        ensures
            r is Err <==> base < 2,
            r matches Ok(d) ==> {
                &&& d.wf()
                &&& d.base == base
                &&& d.value() == decimal_number
                &&& d.component_powers@ == gber_powers(decimal_number as int, base as int)
                &&& d.remainder == decimal_number % base as InputInt
                &&& d.remainder < base
                &&& non_increasing(d.component_powers@)
                &&& forall|q: u8| #[trigger] d.component_powers@.to_multiset().count(q) < base
            },
    {
        if base < 2 {
            return Err("The base must be greater than 1.");
        }
        let ghost b = base as int;
        let ghost n = decimal_number as int;
        let ghost mut k: int = floor_log(n, b);
        proof {
            if n == 0 {
                lemma_log0(b, 0);
                lemma_pow1(b);
            } else {
                lemma_floor_log_bounds(n, b);
                lemma_small_exponent(b, k);
            }
        }
        let mut remainder: InputInt = decimal_number;
        let mut component_powers: Vec<u8> = Vec::new();
        assert(component_powers@ + powers_up_to(remainder as int, b, k) =~= gber_powers(n, b));
        loop
            invariant
                b == base as int >= 2,
                n == decimal_number as int,
                0 <= k < 32,
                remainder < power(b, k + 1),
                remainder <= n,
                remainder as int % b == n % b,
                component_powers@ + powers_up_to(remainder as int, b, k) == gber_powers(n, b),
            ensures
                remainder < base,
            decreases remainder,
        {
            match get_max_components_from(remainder, base) {
                None => break,
                Some((rest, term)) => {
                    let ghost before = component_powers@;
                    let mut i: BaseInt = 0;
                    while i < term.coefficient
                        invariant
                            i <= term.coefficient,
                            component_powers@ == before + repeated(term.exponent, i as nat),
                        decreases term.coefficient - i,
                    {
                        component_powers.push(term.exponent);
                        i = i + 1;
                        assert(component_powers@ =~= before + repeated(term.exponent, i as nat));
                    }
                    proof {
                        let p = term.exponent as int;
                        let x = remainder as int;
                        let c = term.coefficient as int;
                        lemma_floor_log_bounds(x, b);
                        if p > k {
                            lemma_power_monotone(b, k + 1, p);
                        }
                        lemma_powers_stable(x, b, p, k);
                        lemma_small_mod(c as nat, b as nat);
                        lemma_powers_of_mod(x, b, p, p - 1);
                        lemma_mod_power_mod(x, b, 1, p);
                        lemma_pow1(b);
                        lemma_power_monotone(b, 0, p);
                        assert(powers_up_to(x, b, p) == repeated(term.exponent, c as nat)
                            + powers_up_to(x, b, p - 1));
                        assert(component_powers@ + powers_up_to(rest as int, b, p - 1) =~= before
                            + powers_up_to(x, b, k));
                        k = p - 1;
                    }
                    remainder = rest;
                },
            }
        }
        proof {
            lemma_pow1(b);
            lemma_powers_stable(remainder as int, b, 0, k);
            assert(component_powers@ =~= gber_powers(n, b));
            lemma_small_mod(remainder as nat, b as nat);
            lemma_gber_round_trip(decimal_number, base);
            lemma_gber_shape(decimal_number, base);
        }
        Ok(Self { base, remainder: remainder as BaseInt, component_powers })
    }

    /// The integer values of all components, in the order of their exponents.
    pub fn stream_all_components(&self) -> (r: Vec<InputInt>)
        requires
            self.wf(),
        ensures
            r@ == self.component_sizes(),
    {
        let mut components: Vec<InputInt> = Vec::new();
        let mut i: usize = 0;
        while i < self.component_powers.len()
            invariant
                self.wf(),
                i <= self.component_powers.len(),
                components@ == self.component_sizes().take(i as int),
            decreases self.component_powers.len() - i,
        {
            proof {
                lemma_total_bounds_each(self.component_powers@, self.base as int, i as int);
                lemma_total_nonneg(self.component_powers@, self.base as int);
            }
            let component = self.calculate_single_component(self.component_powers[i]);
            components.push(component);
            i = i + 1;
            assert(components@ =~= self.component_sizes().take(i as int));
        }
        assert(components@ =~= self.component_sizes());
        components
    }

    /// Present the component of exponent `component_power` as its integer value.
    pub fn calculate_single_component(&self, component_power: u8) -> (r: InputInt)
        requires
            self.base >= 2,
            power(self.base as int, component_power as int) <= u32::MAX,
        ensures
            r == power(self.base as int, component_power as int),
    {
        base_power(self.base, component_power)
    }

    /// Chain the components of all terms; the remainder is not included.
    pub fn calculate_components(&self) -> (r: Vec<InputInt>)
        requires
            self.wf(),
        ensures
            r@ == self.component_sizes(),
    {
        self.stream_all_components()
    }

    /// Return the original integer value of the GBER.
    pub fn to_decimal(&self) -> (r: InputInt)
        requires
            self.wf(),
        ensures
            r == self.value(),
    {
        let ghost s = self.component_powers@;
        let ghost b = self.base as int;
        let mut decimal: InputInt = 0;
        let mut i: usize = 0;
        while i < self.component_powers.len()
            invariant
                self.wf(),
                s == self.component_powers@,
                b == self.base as int,
                i <= s.len(),
                decimal == components_total(s.take(i as int), b),
            decreases s.len() - i,
        {
            proof {
                lemma_total_bounds_each(s, b, i as int);
                lemma_total_prefix(s, b, i + 1);
                assert(s.take(i + 1).drop_last() =~= s.take(i as int));
                lemma_total_nonneg(s, b);
            }
            decimal = decimal + self.calculate_single_component(self.component_powers[i]);
            i = i + 1;
        }
        proof {
            assert(s.take(s.len() as int) =~= s);
        }
        decimal + self.remainder as InputInt
    }
}

/// Split the leading term off `number`: the largest power of the base that
/// fits, taken as often as it fits. `None` when `number` is below the base.
fn get_max_components_from(number: InputInt, base: BaseInt) -> (r: Option<(InputInt, Term)>)
    requires
        base >= 2,
    ensures
        number < base ==> r is None,
        number >= base ==> (r matches Some((rest, term)) && {
            &&& term.exponent == floor_log(number as int, base as int)
            &&& 1 <= term.exponent
            &&& term.coefficient == number as int / power(base as int, term.exponent as int)
            &&& 1 <= term.coefficient < base
            &&& rest == number as int % power(base as int, term.exponent as int)
        }),
{
    if number < base as InputInt {
        return None;
    }
    let exponent = integer_log(number, base);
    proof {
        lemma_log_s(base as int, number as int);
        vstd::arithmetic::logarithm::lemma_log_nonnegative(base as int, number as int / base as int);
        lemma_pow_step(base as int, exponent as int);
        lemma_power_monotone(base as int, 0, exponent as int);
    }
    let component = base_power(base, exponent);
    let ghost d = component as int;
    let ghost x = number as int;
    assert(1 <= x / d < base) by (nonlinear_arith)
        requires
            d > 0,
            d <= x,
            x < d * base,
    ;
    let coefficient: BaseInt = (number / component) as BaseInt;
    proof {
        lemma_fundamental_div_mod(x, d);
        assert(0 <= x % d) by {
            vstd::arithmetic::div_mod::lemma_mod_pos_bound(x, d);
        }
    }
    let full_term: InputInt = component * coefficient as InputInt;
    let temporary_remainder: InputInt = number - full_term;
    Some((temporary_remainder, Term { coefficient, exponent }))
}

/// The total of two joined exponent sequences is the sum of their totals.
pub proof fn lemma_total_add(a: Seq<u8>, c: Seq<u8>, b: int)
    ensures
        components_total(a + c, b) == components_total(a, b) + components_total(c, b),
    decreases c.len(),
{
    if c.len() == 0 {
        assert(a + c =~= a);
    } else {
        lemma_total_add(a, c.drop_last(), b);
        assert((a + c).drop_last() =~= a + c.drop_last());
    }
}

/// The total of `count` equal exponents.
pub proof fn lemma_total_repeated(p: u8, count: nat, b: int)
    ensures
        components_total(repeated(p, count), b) == count * power(b, p as int),
    decreases count,
{
    if count > 0 {
        lemma_total_repeated(p, (count - 1) as nat, b);
        assert(repeated(p, count).drop_last() =~= repeated(p, (count - 1) as nat));
        assert(repeated(p, count).last() == p);
        let x = power(b, p as int);
        assert((count - 1) * x + x == count * x) by (nonlinear_arith);
    } else {
        let x = power(b, p as int);
        assert(count * x == 0) by (nonlinear_arith)
            requires
                count == 0,
        ;
    }
}

/// Every exponent of a sequence contributes at most the whole total.
pub proof fn lemma_total_bounds_each(s: Seq<u8>, b: int, i: int)
    requires
        b >= 1,
        0 <= i < s.len(),
    ensures
        0 < power(b, s[i] as int) <= components_total(s, b),
    decreases s.len(),
{
    lemma_total_nonneg(s.drop_last(), b);
    lemma_power_monotone(b, 0, s.last() as int);
    lemma_power_monotone(b, 0, s[i] as int);
    if i < s.len() - 1 {
        lemma_total_bounds_each(s.drop_last(), b, i);
    }
}

/// A total of powers of a positive base is non-negative.
pub proof fn lemma_total_nonneg(s: Seq<u8>, b: int)
    requires
        b >= 1,
    ensures
        components_total(s, b) >= 0,
    decreases s.len(),
{
    if s.len() > 0 {
        lemma_total_nonneg(s.drop_last(), b);
        lemma_power_monotone(b, 0, s.last() as int);
    }
}

/// The total of a prefix is at most the total of the whole sequence.
pub proof fn lemma_total_prefix(s: Seq<u8>, b: int, i: int)
    requires
        b >= 1,
        0 <= i <= s.len(),
    ensures
        0 <= components_total(s.take(i), b) <= components_total(s, b),
{
    assert(s =~= s.take(i) + s.skip(i));
    lemma_total_add(s.take(i), s.skip(i), b);
    lemma_total_nonneg(s.take(i), b);
    lemma_total_nonneg(s.skip(i), b);
}

/// The remainder modulo `b^(j+1)` splits into the digit at `j` and the
/// remainder modulo `b^j`.
pub proof fn lemma_digit_breakdown(x: int, b: int, j: int)
    requires
        x >= 0,
        b >= 2,
        j >= 0,
    ensures
        x % power(b, j + 1) == power(b, j) * digit(x, b, j) + x % power(b, j),
{
    lemma_power_monotone(b, 0, j);
    lemma_pow_step(b, j);
    lemma_mod_breakdown(x, power(b, j), b);
}

/// Reducing modulo a higher power keeps the remainder modulo a lower one.
pub proof fn lemma_mod_power_mod(x: int, b: int, m: int, q: int)
    requires
        b >= 2,
        0 <= m <= q,
    ensures
        (x % power(b, q)) % power(b, m) == x % power(b, m),
{
    lemma_pow_adds(b, m as nat, (q - m) as nat);
    lemma_power_monotone(b, 0, m);
    lemma_power_monotone(b, 0, q - m);
    lemma_mod_mod(x, power(b, m), power(b, q - m));
}

/// Reducing modulo `b^q` keeps the digits below position `q`.
pub proof fn lemma_digit_of_mod(x: int, b: int, q: int, j: int)
    requires
        x >= 0,
        b >= 2,
        0 <= j < q,
    ensures
        digit(x % power(b, q), b, j) == digit(x, b, j),
{
    let y = x % power(b, q);
    lemma_power_monotone(b, 0, q);
    lemma_power_monotone(b, 0, j);
    lemma_digit_breakdown(x, b, j);
    lemma_digit_breakdown(y, b, j);
    lemma_mod_power_mod(x, b, j + 1, q);
    lemma_mod_power_mod(x, b, j, q);
    let pj = power(b, j);
    let dx = digit(x, b, j);
    let dy = digit(y, b, j);
    assert(dx == dy) by (nonlinear_arith)
        requires
            pj > 0,
            pj * dy == pj * dx,
    ;
}

/// Reducing modulo `b^q` keeps the exponents below `q`.
pub proof fn lemma_powers_of_mod(x: int, b: int, q: int, j: int)
    requires
        x >= 0,
        b >= 2,
        0 <= j < q,
    ensures
        powers_up_to(x % power(b, q), b, j) == powers_up_to(x, b, j),
    decreases j,
{
    if j >= 1 {
        lemma_digit_of_mod(x, b, q, j);
        lemma_powers_of_mod(x, b, q, j - 1);
    }
}

/// A number below `b^(p+1)` has no digits above position `p`.
pub proof fn lemma_powers_stable(x: int, b: int, p: int, k: int)
    requires
        0 <= x < power(b, p + 1),
        b >= 2,
        0 <= p <= k,
    ensures
        powers_up_to(x, b, k) == powers_up_to(x, b, p),
    decreases k,
{
    if k > p {
        lemma_powers_stable(x, b, p, k - 1);
        lemma_power_monotone(b, p + 1, k);
        let bk = power(b, k);
        assert(x / bk == 0) by (nonlinear_arith)
            requires
                0 <= x < bk,
        ;
        assert(powers_up_to(x, b, k) =~= powers_up_to(x, b, k - 1));
    }
}

/// The exponents up to position `k` add up to the digits there.
pub proof fn lemma_round_trip_up_to(n: int, b: int, k: int)
    requires
        n >= 0,
        b >= 2,
        0 <= k < 256,
    ensures
        components_total(powers_up_to(n, b, k), b) + n % b == n % power(b, k + 1),
    decreases k,
{
    if k == 0 {
        lemma_pow1(b);
    } else {
        lemma_round_trip_up_to(n, b, k - 1);
        let d = digit(n, b, k);
        lemma_power_monotone(b, 0, k);
        assert(d >= 0) by {
            vstd::arithmetic::div_mod::lemma_mod_pos_bound(n / power(b, k), b);
        }
        lemma_total_add(repeated(k as u8, d as nat), powers_up_to(n, b, k - 1), b);
        lemma_total_repeated(k as u8, d as nat, b);
        lemma_digit_breakdown(n, b, k);
        lemma_mul_is_commutative(d, power(b, k));
    }
}

/// Round trip of the GBER: its components and its remainder add up to the
/// number it was taken of.
pub proof fn lemma_gber_round_trip(n: InputInt, base: BaseInt)
    requires
        base >= 2,
    ensures
        components_total(gber_powers(n as int, base as int), base as int) + n as int % base as int == n,
{
    let b = base as int;
    if n == 0 {
        lemma_log0(b, 0);
        lemma_round_trip_up_to(0, b, 0);
        lemma_pow1(b);
    } else {
        lemma_floor_log_bounds(n as int, b);
        lemma_small_exponent(b, floor_log(n as int, b));
        lemma_round_trip_up_to(n as int, b, floor_log(n as int, b));
        lemma_small_mod(n as nat, power(b, floor_log(n as int, b) + 1) as nat);
    }
}

/// How often each exponent occurs in `count` copies of `p`.
pub proof fn lemma_repeated_count(p: u8, count: nat, q: u8)
    ensures
        repeated(p, count).to_multiset().count(q) == if q == p {
            count
        } else {
            0
        },
    decreases count,
{
    broadcast use vstd::seq_lib::group_to_multiset_ensures;

    if count == 0 {
        assert(repeated(p, count) =~= Seq::<u8>::empty());
    } else {
        lemma_repeated_count(p, (count - 1) as nat, q);
        assert(repeated(p, count) =~= repeated(p, (count - 1) as nat).push(p));
    }
}

/// The exponents up to position `k` lie in `1..=k`, never increase, and each
/// exponent occurs as often as the digit at its position.
pub proof fn lemma_powers_shape(n: int, b: int, k: int)
    requires
        n >= 0,
        b >= 2,
        0 <= k < 256,
    ensures
        forall|i: int|
            0 <= i < powers_up_to(n, b, k).len() ==> 1 <= #[trigger] powers_up_to(n, b, k)[i] <= k,
        non_increasing(powers_up_to(n, b, k)),
        forall|q: u8|
            #[trigger] powers_up_to(n, b, k).to_multiset().count(q) == if 1 <= q <= k {
                digit(n, b, q as int)
            } else {
                0
            },
    decreases k,
{
    broadcast use vstd::seq_lib::group_to_multiset_ensures;

    let s = powers_up_to(n, b, k);
    if k < 1 {
        assert forall|q: u8| #[trigger] s.to_multiset().count(q) == 0 by {
            assert(!s.contains(q));
        }
    } else {
        lemma_powers_shape(n, b, k - 1);
        let d = digit(n, b, k);
        lemma_power_monotone(b, 0, k);
        assert(d >= 0) by {
            vstd::arithmetic::div_mod::lemma_mod_pos_bound(n / power(b, k), b);
        }
        let r = repeated(k as u8, d as nat);
        let t = powers_up_to(n, b, k - 1);
        assert(s == r + t);
        assert forall|i: int| 0 <= i < s.len() implies 1 <= #[trigger] s[i] <= k by {
            if i >= r.len() {
                assert(s[i] == t[i - r.len()]);
            }
        }
        assert forall|i: int, j: int| 0 <= i <= j < s.len() implies s[i] >= s[j] by {
            if j >= r.len() {
                assert(s[j] == t[j - r.len()]);
                if i >= r.len() {
                    assert(s[i] == t[i - r.len()]);
                }
            }
        }
        assert forall|q: u8| #[trigger] s.to_multiset().count(q) == if 1 <= q <= k {
            digit(n, b, q as int)
        } else {
            0
        } by {
            vstd::seq_lib::lemma_multiset_commutative(r, t);
            lemma_repeated_count(k as u8, d as nat, q);
        }
    }
}

/// The shape of a GBER: exponents of at least one, largest first, each
/// occurring fewer times than the base.
pub proof fn lemma_gber_shape(n: InputInt, base: BaseInt)
    requires
        base >= 2,
    ensures
        forall|i: int|
            0 <= i < gber_powers(n as int, base as int).len() ==> 1 <= #[trigger] gber_powers(
                n as int,
                base as int,
            )[i],
        non_increasing(gber_powers(n as int, base as int)),
        forall|q: u8| #[trigger]
            gber_powers(n as int, base as int).to_multiset().count(q) < base,
{
    let b = base as int;
    let k = floor_log(n as int, b);
    if n == 0 {
        lemma_log0(b, 0);
    } else {
        lemma_floor_log_bounds(n as int, b);
        lemma_small_exponent(b, k);
    }
    lemma_powers_shape(n as int, b, k);
    assert forall|q: u8| #[trigger]
        gber_powers(n as int, base as int).to_multiset().count(q) < base by {
        lemma_power_monotone(b, 0, q as int);
        vstd::arithmetic::div_mod::lemma_mod_pos_bound(n as int / power(b, q as int), b);
    }
}

/// A component count times a positive component bounds the component.
proof fn lemma_component_fits(c: int, x: int)
    requires
        c >= 1,
        x >= 0,
    ensures
        x <= c * x,
{
    assert(x <= c * x) by (nonlinear_arith)
        requires
            c >= 1,
            x >= 0,
    ;
}

} // verus!
