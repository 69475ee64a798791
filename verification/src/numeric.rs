use std::ops::{Add, Mul, Sub};
use vstd::prelude::*;
use vstd::std_specs::convert::FromSpec;
use vstd::std_specs::ops::{AddSpec, MulSpec, SubSpec};

verus! {

/// `b` to the power `e`.
pub open spec fn power_spec(b: nat, e: nat) -> nat
    decreases e,
{
    if e == 0 {
        1
    } else {
        b * power_spec(b, (e - 1) as nat)
    }
}

/// `b^(e1 + e2) = b^e1 * b^e2`.
pub proof fn lemma_power_adds(b: nat, e1: nat, e2: nat)
    ensures
        power_spec(b, e1 + e2) == power_spec(b, e1) * power_spec(b, e2),
    decreases e1,
{
    if e1 == 0 {
        assert(power_spec(b, e1) == 1);
        assert(e1 + e2 == e2);
    } else {
        let d = (e1 - 1) as nat;
        lemma_power_adds(b, d, e2);
        assert(d + e2 == (e1 + e2 - 1) as nat);
        assert(power_spec(b, e1 + e2) == b * power_spec(b, d + e2));
        assert(power_spec(b, e1) == b * power_spec(b, d));
        assert(b * (power_spec(b, d) * power_spec(b, e2)) == (b * power_spec(b, d)) * power_spec(
            b,
            e2,
        )) by (nonlinear_arith);
    }
}

/// A power of a positive base is positive and grows with the exponent.
pub proof fn lemma_power_grows(b: nat, e1: nat, e2: nat)
    requires
        b >= 1,
        e1 <= e2,
    ensures
        1 <= power_spec(b, e1) <= power_spec(b, e2),
    decreases e2,
{
    if e2 == 0 {
    } else if e1 == e2 {
        lemma_power_grows(b, (e1 - 1) as nat, (e2 - 1) as nat);
        assert(b * power_spec(b, (e1 - 1) as nat) >= 1) by (nonlinear_arith)
            requires
                b >= 1,
                power_spec(b, (e1 - 1) as nat) >= 1,
        ;
    } else {
        lemma_power_grows(b, e1, (e2 - 1) as nat);
        assert(b * power_spec(b, (e2 - 1) as nat) >= power_spec(b, (e2 - 1) as nat))
            by (nonlinear_arith)
            requires
                b >= 1,
        ;
    }
}

/// A number type in which assignments are counted. Each value stands for a
/// natural number; `fits` says which numbers the type can hold, so that a
/// machine word and an unbounded integer are both at home here.
pub trait CountValue: Sized {
    /// The natural number that a value stands for.
    spec fn value(&self) -> nat;

    /// Whether the type can hold `n`.
    spec fn fits(n: nat) -> bool;

    /// A type that holds a number holds every smaller one.
    proof fn lemma_fits_below(n: nat, m: nat)
        requires
            Self::fits(n),
            m <= n,
        ensures
            Self::fits(m),
    ;

    fn from_u32(x: u32) -> (r: Self)
        requires
            Self::fits(x as nat),
        ensures
            r.value() == x as nat,
    ;

    fn plus(&self, rhs: &Self) -> (r: Self)
        requires
            Self::fits(self.value() + rhs.value()),
        ensures
            r.value() == self.value() + rhs.value(),
    ;

    fn times(&self, rhs: &Self) -> (r: Self)
        requires
            Self::fits(self.value() * rhs.value()),
        ensures
            r.value() == self.value() * rhs.value(),
    ;

    fn duplicate(&self) -> (r: Self)
        ensures
            r.value() == self.value(),
    ;
}

impl CountValue for u64 {
    open spec fn value(&self) -> nat {
        *self as nat
    }

    open spec fn fits(n: nat) -> bool {
        n <= u64::MAX
    }

    proof fn lemma_fits_below(n: nat, m: nat) {
    }

    fn from_u32(x: u32) -> (r: Self) {
        x as u64
    }

    fn plus(&self, rhs: &Self) -> (r: Self) {
        *self + *rhs
    }

    fn times(&self, rhs: &Self) -> (r: Self) {
        *self * *rhs
    }

    fn duplicate(&self) -> (r: Self) {
        *self
    }
}

impl CountValue for u128 {
    open spec fn value(&self) -> nat {
        *self as nat
    }

    open spec fn fits(n: nat) -> bool {
        n <= u128::MAX
    }

    proof fn lemma_fits_below(n: nat, m: nat) {
    }

    fn from_u32(x: u32) -> (r: Self) {
        x as u128
    }

    fn plus(&self, rhs: &Self) -> (r: Self) {
        *self + *rhs
    }

    fn times(&self, rhs: &Self) -> (r: Self) {
        *self * *rhs
    }

    fn duplicate(&self) -> (r: Self) {
        *self
    }
}

/// A type that holds a power of a positive number holds the lower powers
/// of it.
pub proof fn lemma_power_fits<T: CountValue>(b: nat, n: nat)
    requires
        b >= 1,
        T::fits(power_spec(b, n)),
    ensures
        forall|i: nat| i <= n ==> T::fits(#[trigger] power_spec(b, i)),
{
    assert forall|i: nat| i <= n implies T::fits(#[trigger] power_spec(b, i)) by {
        lemma_power_grows(b, i, n);
        T::lemma_fits_below(power_spec(b, n), power_spec(b, i));
    }
}

/// `x` to the power `n`, by repeated multiplication. The type has to
/// hold each power of `x` up to the `n`-th.
pub fn power<T: CountValue>(x: T, n: usize) -> (r: T)
    requires
        forall|i: nat| i <= n ==> T::fits(#[trigger] power_spec(x.value(), i)),
    ensures
        r.value() == power_spec(x.value(), n as nat),
{
    assert(T::fits(power_spec(x.value(), 0)));
    let mut result = T::from_u32(1);
    let mut i: usize = 0;
    while i < n
        invariant
            i <= n,
            forall|j: nat| j <= n ==> T::fits(#[trigger] power_spec(x.value(), j)),
            result.value() == power_spec(x.value(), i as nat),
        decreases n - i,
    {
        proof {
            assert(T::fits(power_spec(x.value(), (i + 1) as nat)));
            assert(power_spec(x.value(), (i + 1) as nat) == x.value() * power_spec(
                x.value(),
                i as nat,
            ));
            assert(result.value() * x.value() == x.value() * result.value()) by (nonlinear_arith);
        }
        result = result.times(&x);
        i = i + 1;
    }
    result
}

/// A number type in which probabilities are computed: it has addition,
/// subtraction and multiplication, and takes the constants 0 and 1.
pub trait ProbValue: Add<Output = Self> + Sub<Output = Self> + Mul<Output = Self> + Copy + From<
    i8,
> {
}

impl<T> ProbValue for T where
    T: Add<Output = T> + Sub<Output = T> + Mul<Output = T> + Copy + From<i8>,
 {
}

/// Each operation of `T` returns what its model in the logic gives.
pub open spec fn obeys_arith<T: ProbValue>() -> bool {
    &&& T::obeys_add_spec()
    &&& T::obeys_sub_spec()
    &&& T::obeys_mul_spec()
    &&& <T as FromSpec<i8>>::obeys_from_spec()
}

/// The arithmetic of `T` is defined on all values, and each operation
/// returns what its model in the logic gives.
pub open spec fn total_arith<T: ProbValue>() -> bool {
    &&& obeys_arith::<T>()
    &&& forall|a: T, b: T| #[trigger] a.add_req(b)
    &&& forall|a: T, b: T| #[trigger] a.sub_req(b)
    &&& forall|a: T, b: T| #[trigger] a.mul_req(b)
}

/// The constant 0 of `T`.
pub open spec fn zero_spec<T: ProbValue>() -> T {
    <T as FromSpec<i8>>::from_spec(0i8)
}

/// The constant 1 of `T`.
pub open spec fn one_spec<T: ProbValue>() -> T {
    <T as FromSpec<i8>>::from_spec(1i8)
}

/// What stands under `key` in a list of pairs: the value of the first
/// pair with that key.
pub open spec fn assoc_get<T>(pv: Seq<(Seq<char>, T)>, key: Seq<char>) -> Option<T>
    decreases pv.len(),
{
    if pv.len() == 0 {
        None
    } else if pv[0].0 == key {
        Some(pv[0].1)
    } else {
        assoc_get(pv.drop_first(), key)
    }
}

/// The place of the first pair with `key` in a list of pairs, and the
/// length of the list where no pair has it.
pub open spec fn assoc_index<T>(pv: Seq<(Seq<char>, T)>, key: Seq<char>) -> int
    decreases pv.len(),
{
    if pv.len() == 0 {
        0
    } else if pv[0].0 == key {
        0
    } else {
        1 + assoc_index(pv.drop_first(), key)
    }
}

/// Adding `delta` to what stands under `key` in `g` is defined: there is
/// nothing under `key`, or the sum can be taken.
pub open spec fn assoc_add_defined<T: ProbValue>(
    g: Seq<(Seq<char>, T)>,
    key: Seq<char>,
    delta: T,
) -> bool {
    let i = assoc_index(g, key);
    0 <= i < g.len() ==> g[i].1.add_req(delta)
}

/// The list `g` with `delta` added to what stands under `key`; where
/// nothing stands there, the pair of `key` and `delta` comes at the end.
pub open spec fn assoc_add<T: ProbValue>(
    g: Seq<(Seq<char>, T)>,
    key: Seq<char>,
    delta: T,
) -> Seq<(Seq<char>, T)> {
    let i = assoc_index(g, key);
    if 0 <= i < g.len() {
        g.update(i, (key, g[i].1.add_spec(delta)))
    } else {
        g.push((key, delta))
    }
}

proof fn lemma_assoc_index<T>(pv: Seq<(Seq<char>, T)>, key: Seq<char>, i: int)
    requires
        0 <= i <= pv.len(),
        forall|j: int| 0 <= j < i ==> (#[trigger] pv[j]).0 != key,
        i < pv.len() ==> pv[i].0 == key,
    ensures
        assoc_index(pv, key) == i,
    decreases i,
{
    if i == 0 {
    } else {
        assert(pv[0].0 != key);
        let rest = pv.drop_first();
        assert forall|j: int| 0 <= j < i - 1 implies (#[trigger] rest[j]).0 != key by {
            assert(rest[j] == pv[j + 1]);
        }
        if i < pv.len() {
            assert(rest[i - 1] == pv[i]);
        }
        lemma_assoc_index(rest, key, i - 1);
    }
}

/// Adds `delta` to what `g` holds under `key`, or enters it there.
pub fn accumulate<T: ProbValue>(g: &mut Vec<(String, T)>, key: &String, delta: T)
    requires
        obeys_arith::<T>(),
        assoc_add_defined(pairs_view(old(g)@), key@, delta),
    ensures
        pairs_view(final(g)@) == assoc_add(pairs_view(old(g)@), key@, delta),
{
    let ghost view = pairs_view(g@);
    let mut i: usize = 0;
    while i < g.len()
        invariant
            i <= g.len(),
            g@ == old(g)@,
            obeys_arith::<T>(),
            assoc_add_defined(view, key@, delta),
            view == pairs_view(g@),
            forall|j: int| 0 <= j < i ==> (#[trigger] view[j]).0 != key@,
        decreases g.len() - i,
    {
        if g[i].0 == *key {
            proof {
                lemma_assoc_index(view, key@, i as int);
            }
            let sum = g[i].1 + delta;
            g.set(i, (key.clone(), sum));
            assert(pairs_view(g@) =~= assoc_add(view, key@, delta));
            return ;
        }
        i = i + 1;
    }
    proof {
        lemma_assoc_index(view, key@, g.len() as int);
    }
    g.push((key.clone(), delta));
    assert(pairs_view(g@) =~= assoc_add(view, key@, delta));
}

/// A list of labelled values as a mathematical value.
pub open spec fn pairs_view<T>(pv: Seq<(String, T)>) -> Seq<(Seq<char>, T)> {
    pv.map_values(|p: (String, T)| (p.0@, p.1))
}

proof fn lemma_assoc_get_skip<T>(pv: Seq<(Seq<char>, T)>, key: Seq<char>, i: int)
    requires
        0 <= i <= pv.len(),
        forall|j: int| 0 <= j < i ==> (#[trigger] pv[j]).0 != key,
    ensures
        assoc_get(pv, key) == assoc_get(pv.subrange(i, pv.len() as int), key),
    decreases i,
{
    if i == 0 {
        assert(pv.subrange(0, pv.len() as int) =~= pv);
    } else {
        assert(pv[0].0 != key);
        let rest = pv.drop_first();
        assert forall|j: int| 0 <= j < i - 1 implies (#[trigger] rest[j]).0 != key by {
            assert(rest[j] == pv[j + 1]);
        }
        lemma_assoc_get_skip(rest, key, i - 1);
        assert(rest.subrange(i - 1, rest.len() as int) =~= pv.subrange(i, pv.len() as int));
    }
}

/// The value that `pv` holds for `key`: that of the first pair with this
/// label, none where no pair has it.
pub fn lookup<T: Copy>(pv: &[(String, T)], key: &String) -> (r: Option<T>)
    ensures
        r == assoc_get(pairs_view(pv@), key@),
{
    let ghost view = pairs_view(pv@);
    let mut i: usize = 0;
    while i < pv.len()
        invariant
            i <= pv.len(),
            view == pairs_view(pv@),
            forall|j: int| 0 <= j < i ==> (#[trigger] view[j]).0 != key@,
        decreases pv.len() - i,
    {
        if pv[i].0 == *key {
            proof {
                lemma_assoc_get_skip(view, key@, i as int);
                let rest = view.subrange(i as int, view.len() as int);
                assert(rest[0] == view[i as int]);
            }
            return Some(pv[i].1);
        }
        i = i + 1;
    }
    proof {
        lemma_assoc_get_skip(view, key@, pv.len() as int);
    }
    None
}

} // verus!
