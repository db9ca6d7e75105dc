//! Elements of the extension fields of the fields of two and of three elements,
//! and the enumeration of the points of the projective plane over such a field.
use vstd::prelude::*;
use vstd::arithmetic::power::pow;
use vstd::arithmetic::div_mod::lemma_fundamental_div_mod_converse;
use crate::gf2;
use crate::gf3;
use crate::text::{decimal, digit_char, digit_str, push_decimal};

verus! {

/// The mathematical description of a finite field whose elements are packed
/// into machine words and enumerated in a fixed order.
pub trait FieldSpec: Sized + Copy {
    /// The number of elements of the prime field.
    spec fn characteristic() -> nat;

    /// The degree of the field over its prime field.
    spec fn extension_degree() -> nat;

    /// Whether a reduction polynomial is tabulated for the extension degree.
    spec fn supported() -> bool;

    /// Whether the word represents an element: the degree is supported, no bit
    /// above the coefficients is set and every coefficient is reduced.
    spec fn wf(self) -> bool;

    /// The number of elements of the field.
    spec fn cardinality() -> nat;

    /// The place of the element in the enumeration of the field, from zero.
    spec fn index(self) -> nat;

    spec fn spec_zero() -> Self;

    spec fn spec_one() -> Self;

    /// The last element of the enumeration.
    spec fn spec_max() -> Self;

    spec fn spec_add(self, rhs: Self) -> Self;

    spec fn spec_mul(self, rhs: Self) -> Self;

    /// The successor in the enumeration; meaningful for every element but the last.
    spec fn spec_next(self) -> Self;
}

/// The element reached from `acc` by adding `a` to it `k` times.
pub open spec fn add_times<T: FieldSpec>(acc: T, a: T, k: nat) -> T
    decreases k,
{
    if k == 0 {
        acc
    } else {
        add_times(acc, a, (k - 1) as nat).spec_add(a)
    }
}

/// The sum of `k` copies of `a`.
pub open spec fn scalar_multiple<T: FieldSpec>(a: T, k: nat) -> T {
    add_times(T::spec_zero(), a, k)
}

/// The product of `k` copies of `a`.
pub open spec fn power<T: FieldSpec>(a: T, k: nat) -> T
    decreases k,
{
    if k == 0 {
        T::spec_one()
    } else {
        power(a, (k - 1) as nat).spec_mul(a)
    }
}

/// A finite field with its arithmetic, the laws that the arithmetic obeys and
/// the walk through its elements.
pub trait FieldTraits: FieldSpec {
    /// The enumeration starts at zero and ends at `spec_max`, and the field has
    /// `characteristic` to the power `extension_degree` elements.
    proof fn lemma_enumeration()
        requires
            Self::supported(),
        ensures
            Self::spec_zero().wf(),
            Self::spec_zero().index() == 0,
            Self::spec_one().wf(),
            Self::spec_max().wf(),
            Self::spec_max().index() + 1 == Self::cardinality(),
            Self::cardinality() == pow(
                Self::characteristic() as int,
                Self::extension_degree(),
            ),
    ;

    /// Elements are told apart by their place in the enumeration.
    proof fn lemma_index(a: Self, b: Self)
        requires
            a.wf(),
            b.wf(),
        ensures
            Self::supported(),
            a.index() < Self::cardinality(),
            a.index() == b.index() ==> a == b,
    ;

    /// The successor of an element other than the last is an element, one place on.
    proof fn lemma_successor(a: Self)
        requires
            a.wf(),
            a != Self::spec_max(),
        ensures
            a.spec_next().wf(),
            a.spec_next().index() == a.index() + 1,
    ;

    /// Sums and products of elements are elements.
    proof fn lemma_closed(a: Self, b: Self)
        requires
            a.wf(),
            b.wf(),
        ensures
            a.spec_add(b).wf(),
            a.spec_mul(b).wf(),
    ;

    /// Zero is neutral for the sum.
    proof fn lemma_add_zero(a: Self)
        requires
            a.wf(),
        ensures
            Self::spec_zero().spec_add(a) == a,
            a.spec_add(Self::spec_zero()) == a,
    ;

    /// The sum does not depend on the order or the grouping.
    proof fn lemma_add_laws(a: Self, b: Self, c: Self)
        requires
            a.wf(),
            b.wf(),
            c.wf(),
        ensures
            a.spec_add(b) == b.spec_add(a),
            a.spec_add(b).spec_add(c) == a.spec_add(b.spec_add(c)),
    ;

    /// An element added to itself as many times as the prime field has elements
    /// gives zero.
    proof fn lemma_additive_order(a: Self)
        requires
            a.wf(),
        ensures
            scalar_multiple(a, Self::characteristic()) == Self::spec_zero(),
    ;

    /// One is neutral for the product and zero absorbs.
    proof fn lemma_mul_units(a: Self)
        requires
            a.wf(),
        ensures
            a.spec_mul(Self::spec_one()) == a,
            a.spec_mul(Self::spec_zero()) == Self::spec_zero(),
    ;

    fn zero() -> (r: Self)
        ensures
            r == Self::spec_zero(),
    ;

    fn one() -> (r: Self)
        ensures
            r == Self::spec_one(),
    ;

    fn max() -> (r: Self)
        requires
            Self::supported(),
        ensures
            r == Self::spec_max(),
    ;

    fn field_order() -> (q: u8)
        ensures
            q == Self::characteristic(),
    ;

    fn is_zero(&self) -> (r: bool)
        ensures
            r == (*self == Self::spec_zero()),
    ;

    fn add(self, rhs: Self) -> (r: Self)
        requires
            self.wf(),
            rhs.wf(),
        ensures
            r == self.spec_add(rhs),
            r.wf(),
    ;

    fn mul(self, rhs: Self) -> (r: Self)
        requires
            self.wf(),
            rhs.wf(),
        ensures
            r == self.spec_mul(rhs),
            r.wf(),
    ;

    /// The power of the element with exponent `n`; the power with exponent
    /// zero is one, also of zero.
    fn mul_ntimes(self, n: u8) -> (r: Self)
        requires
            self.wf(),
        ensures
            r == power(self, n as nat),
            r.wf(),
    {
        proof {
            Self::lemma_index(self, self);
            Self::lemma_enumeration();
        }
        let mut res = Self::one();
        let mut i: u8 = 0;
        while i < n
            invariant
                self.wf(),
                res.wf(),
                i <= n,
                res == power(self, i as nat),
            decreases n - i,
        {
            res = res.mul(self);
            i += 1;
        }
        res
    }

    /// The successor in the enumeration, or `None` for the last element.
    fn next(self) -> (r: Option<Self>)
        requires
            self.wf(),
        ensures
            r == if self == Self::spec_max() {
                None
            } else {
                Some(self.spec_next())
            },
    ;
}

/// Every power of one is one.
pub proof fn lemma_power_of_one<T: FieldTraits>(k: nat)
    requires
        T::supported(),
    ensures
        power(T::spec_one(), k) == T::spec_one(),
    decreases k,
{
    T::lemma_enumeration();
    if k > 0 {
        lemma_power_of_one::<T>((k - 1) as nat);
        T::lemma_mul_units(T::spec_one());
    }
}

/// One times its power with the exponent one less than the number of elements
/// of the field is one.
pub proof fn lemma_one_times_its_power<T: FieldTraits>()
    requires
        T::supported(),
    ensures
        T::spec_one().spec_mul(power(T::spec_one(), (T::cardinality() - 1) as nat))
            == T::spec_one(),
{
    T::lemma_enumeration();
    lemma_power_of_one::<T>((T::cardinality() - 1) as nat);
    T::lemma_mul_units(T::spec_one());
}

/// The element at place `i` of the enumeration of the field: zero, followed
/// by the successors.
pub open spec fn element_at<T: FieldSpec>(i: nat) -> T
    decreases i,
{
    if i == 0 {
        T::spec_zero()
    } else {
        element_at::<T>((i - 1) as nat).spec_next()
    }
}

/// The number of points of the projective plane over the field.
pub open spec fn point_count<T: FieldSpec>() -> nat {
    1 + T::cardinality() + T::cardinality() * T::cardinality()
}

/// The point at place `p` of the enumeration of the projective plane:
/// `(1, 0, 0)`, then the points `(a, 1, 0)`, then the points `(a, b, 1)`, where
/// `a` runs through the field before `b` moves on.
pub open spec fn projective_point<T: FieldSpec>(p: nat) -> (T, T, T) {
    let c = T::cardinality();
    if p == 0 {
        (T::spec_one(), T::spec_zero(), T::spec_zero())
    } else if p <= c {
        (element_at::<T>((p - 1) as nat), T::spec_one(), T::spec_zero())
    } else {
        let k = (p - 1 - c) as nat;
        (element_at::<T>(k % c), element_at::<T>(k / c), T::spec_one())
    }
}

/// The element at a place below the number of elements is an element of the
/// field, and it stands at that place.
pub proof fn lemma_element_at<T: FieldTraits>(i: nat)
    requires
        T::supported(),
        i < T::cardinality(),
    ensures
        element_at::<T>(i).wf(),
        element_at::<T>(i).index() == i,
    decreases i,
{
    T::lemma_enumeration();
    if i > 0 {
        let prev = element_at::<T>((i - 1) as nat);
        lemma_element_at::<T>((i - 1) as nat);
        T::lemma_index(prev, T::spec_max());
        T::lemma_successor(prev);
    }
}

/// Every element of the field stands at its own place of the enumeration.
pub proof fn lemma_element_at_index<T: FieldTraits>(x: T)
    requires
        x.wf(),
    ensures
        element_at::<T>(x.index()) == x,
{
    T::lemma_index(x, x);
    lemma_element_at::<T>(x.index());
    T::lemma_index(element_at::<T>(x.index()), x);
}

/// The coordinates of every point of the enumeration are elements of the field.
pub proof fn lemma_projective_point_wf<T: FieldTraits>(p: nat)
    requires
        T::supported(),
        p < point_count::<T>(),
    ensures
        projective_point::<T>(p).0.wf(),
        projective_point::<T>(p).1.wf(),
        projective_point::<T>(p).2.wf(),
{
    let c = T::cardinality();
    T::lemma_enumeration();
    if p == 0 {
    } else if p <= c {
        lemma_element_at::<T>((p - 1) as nat);
    } else {
        let k = (p - 1 - c) as nat;
        assert(0 < c && k < c * c);
        assert(k % c < c && k / c < c) by (nonlinear_arith)
            requires
                0 < c,
                k < c * c,
        ;
        lemma_element_at::<T>(k % c);
        lemma_element_at::<T>(k / c);
    }
}

#[derive(Debug, Copy, Clone, PartialEq, Eq, Structural)]
enum ProjectivePointPhase {
    Start,
    ZNull,
    ZOne,
    Finished,
}

/// A walk through the points of the projective plane over a field, in the
/// order of `projective_point`.
pub struct ProjectivePointIterator<T: FieldSpec> {
    phase: ProjectivePointPhase,
    x: T,
    y: T,
}

impl<T: FieldSpec> ProjectivePointIterator<T> {
    /// The state is one that the walk reaches.
    pub closed spec fn wf(&self) -> bool {
        &&& T::supported()
        &&& self.x.wf()
        &&& self.y.wf()
        &&& match self.phase {
            ProjectivePointPhase::Start => self.x == T::spec_zero() && self.y == T::spec_zero(),
            ProjectivePointPhase::ZNull => self.y == T::spec_zero(),
            ProjectivePointPhase::ZOne => true,
            ProjectivePointPhase::Finished => true,
        }
    }

    /// The number of points that the walk has handed out.
    pub closed spec fn position(&self) -> nat {
        let c = T::cardinality();
        match self.phase {
            ProjectivePointPhase::Start => 0,
            ProjectivePointPhase::ZNull => 1 + self.x.index(),
            ProjectivePointPhase::ZOne => 1 + c + self.y.index() * c + self.x.index(),
            ProjectivePointPhase::Finished => 1 + c + c * c,
        }
    }
}

impl<T: FieldTraits> ProjectivePointIterator<T> {
    /// A walk that has handed out no point yet.
    pub fn new() -> (it: ProjectivePointIterator<T>)
        requires
            T::supported(),
        ensures
            it.wf(),
            it.position() == 0,
    {
        proof {
            T::lemma_enumeration();
        }
        ProjectivePointIterator { phase: ProjectivePointPhase::Start, x: T::zero(), y: T::zero() }
    }

    /// The walk never runs past the number of points of the plane.
    pub proof fn lemma_position_bound(&self)
        requires
            self.wf(),
        ensures
            self.position() <= point_count::<T>(),
    {
        let c = T::cardinality();
        T::lemma_index(self.x, self.y);
        T::lemma_index(self.y, self.x);
        let ix = self.x.index();
        let iy = self.y.index();
        assert(iy * c + ix < c * c) by (nonlinear_arith)
            requires
                ix < c,
                iy < c,
        ;
    }

    /// Hands out the next point of the plane, or `None` once all points have
    /// been handed out.
    pub fn next(&mut self) -> (r: Option<(T, T, T)>)
        requires
            old(self).wf(),
        ensures
            final(self).wf(),
            old(self).position() < point_count::<T>() ==> r == Some(
                projective_point::<T>(old(self).position()),
            ) && final(self).position() == old(self).position() + 1,
            old(self).position() >= point_count::<T>() ==> r.is_none() && final(self).position()
                == old(self).position(),
    {
        let ghost c = T::cardinality();
        let ghost ix = self.x.index();
        let ghost iy = self.y.index();
        proof {
            T::lemma_enumeration();
            T::lemma_index(self.x, T::spec_max());
            T::lemma_index(self.y, T::spec_max());
            lemma_element_at_index(self.x);
            lemma_element_at_index(self.y);
            assert(iy * c + ix < c * c && (iy + 1) * c == iy * c + c) by (nonlinear_arith)
                requires
                    ix < c,
                    iy < c,
            ;
            lemma_fundamental_div_mod_converse((iy * c + ix) as int, c as int, iy as int, ix as int);
        }
        match self.phase {
            ProjectivePointPhase::Start => {
                self.phase = ProjectivePointPhase::ZNull;
                Some((T::one(), T::zero(), T::zero()))
            },
            ProjectivePointPhase::ZNull => {
                let number = (self.x, T::one(), T::zero());
                let result = self.x.next();
                if let Some(res) = result {
                    proof {
                        T::lemma_successor(self.x);
                    }
                    self.x = res;
                } else {
                    self.phase = ProjectivePointPhase::ZOne;
                    self.x = T::zero();
                }
                Some(number)
            },
            ProjectivePointPhase::ZOne => {
                let number = (self.x, self.y, T::one());
                let x = self.x.next();
                if let Some(x_res) = x {
                    proof {
                        T::lemma_successor(self.x);
                    }
                    self.x = x_res;
                } else {
                    self.x = T::zero();
                    let y = self.y.next();
                    if let Some(y_res) = y {
                        proof {
                            T::lemma_successor(self.y);
                        }
                        self.y = y_res;
                    } else {
                        self.phase = ProjectivePointPhase::Finished;
                    }
                }
                Some(number)
            },
            ProjectivePointPhase::Finished => None,
        }
    }
}

/// The polynomial with the `n` lowest coefficients of `e` over the field of
/// two elements as text: every power of `x` that occurs, the highest first,
/// each followed by a plus sign, and then the constant term as 1 or 0.
pub open spec fn binary_text(e: u16, n: nat) -> Seq<char>
    decreases n,
{
    if n <= 1 {
        if e & 1 == 1 {
            seq!['1']
        } else {
            seq!['0']
        }
    } else {
        (if (e >> ((n - 1) as u16)) & 1 == 1 {
            seq!['x', '^'] + decimal((n - 1) as nat) + seq![' ', '+', ' ']
        } else {
            Seq::empty()
        }) + binary_text(e, (n - 1) as nat)
    }
}

/// The `n` lowest coefficients of `e` over the field of three elements as
/// digits, the highest first.
pub open spec fn ternary_text(e: u16, n: nat) -> Seq<char>
    decreases n,
{
    if n == 0 {
        Seq::empty()
    } else {
        seq![digit_char(((e >> ((2 * (n - 1)) as u16)) & 3) as nat)] + ternary_text(
            e,
            (n - 1) as nat,
        )
    }
}

/// An element of the field of `2^N` elements: a polynomial of degree below `N`
/// over the field of two elements, bit `i` holding the coefficient of `x^i`.
#[allow(non_camel_case_types)]
#[derive(Debug, Copy, Clone)]
pub struct F2_i<const N: u8> {
    pub element: u16,
}

impl<const N: u8> PartialEq for F2_i<N> {
    fn eq(&self, other: &Self) -> (r: bool) {
        self.element == other.element
    }
}

impl<const N: u8> vstd::std_specs::cmp::PartialEqSpecImpl for F2_i<N> {
    open spec fn obeys_eq_spec() -> bool {
        true
    }

    open spec fn eq_spec(&self, other: &Self) -> bool {
        self.element == other.element
    }
}

impl<const N: u8> F2_i<N> {
    /// The element with the given word; it is an element of the field where
    /// `wf` holds of it.
    pub fn new(element: u16) -> (r: F2_i<N>)
        ensures
            r.element == element,
    {
        F2_i { element }
    }

    /// The low part of the reduction polynomial of degree `N`.
    fn reduction_tail() -> (t: u64)
        ensures
            t == gf2::reduction_tail(N as u64),
    {
        match N {
            1 => 0b1,
            5 => 0b101,
            8 => 0b11011,
            10 => 0b1001,
            _ => 0b11,
        }
    }

    /// The product in the field of two elements of the words `lhs` and `rhs`,
    /// reduced to a field element.
    fn internal_mul(lhs: u64, rhs: u64) -> (r: u16)
        requires
            1 <= N <= 10,
            lhs >> (N as u64) == 0,
            rhs >> (N as u64) == 0,
        ensures
            r == gf2::product(lhs, rhs, N as u64),
            (r as u64) >> (N as u64) == 0,
    {
        let n: u64 = N as u64;
        let bitmask: u64 = !((!0u64) << n);
        let value = Self::reduction_tail();
        let mut res = Self::clmul(lhs, rhs);
        while (res >> n) > 0
            invariant
                n == N,
                1 <= n <= 10,
                bitmask == gf2::low_mask(n),
                value == gf2::reduction_tail(n),
                gf2::reduce(res, n) == gf2::product(lhs, rhs, n),
            decreases res,
        {
            let lsb = res & bitmask;
            let msb = res >> n;
            proof {
                gf2::lemma_fold_decreases(res, n);
            }
            res = lsb ^ Self::clmul(msb, value);
        }
        proof {
            gf2::lemma_word_facts(res, n);
        }
        res as u16
    }

    /// The carry-less product of the `N` low coefficients of `lhs` with `rhs`.
    fn clmul(lhs: u64, rhs: u64) -> (r: u64)
        requires
            N < 64,
        ensures
            r == gf2::carryless_product(lhs, rhs, N as nat),
    {
        let mut res: u64 = 0;
        let mut n: u8 = 0;
        while n < N
            invariant
                n <= N < 64,
                res == gf2::carryless_product(lhs, rhs, n as nat),
            decreases N - n,
        {
            if (lhs >> n) & 1 == 1 {
                res ^= rhs << n;
            }
            n += 1;
        }
        res
    }

    /// Whether the word is that of zero, which no other word stands for.
    pub fn is_zero(&self) -> (r: bool)
        ensures
            r == (self.element == 0),
    {
        if self.element == 0 {
            true
        } else {
            false
        }
    }

    /// A walk through the points of the projective plane over this field.
    pub fn iterate_over_points() -> (it: ProjectivePointIterator<Self>)
        requires
            Self::supported(),
        ensures
            it.wf(),
            it.position() == 0,
    {
        ProjectivePointIterator::new()
    }

    /// The product of two elements other than zero is not zero.
    pub proof fn lemma_no_zero_divisors(a: Self, b: Self)
        requires
            a.wf(),
            b.wf(),
            a != Self::spec_zero(),
            b != Self::spec_zero(),
        ensures
            a.spec_mul(b) != Self::spec_zero(),
    {
        let n = N as u64;
        gf2::lemma_no_zero_divisors(a.element as u64, b.element as u64, n);
        gf2::lemma_reduce_bounded(
            gf2::carryless_product(a.element as u64, b.element as u64, n as nat),
            n,
        );
        gf2::lemma_word_facts(gf2::product(a.element as u64, b.element as u64, n), n);
    }

    /// The element as a sum of powers of `x`, the highest first, with the
    /// constant term written in any case.
    pub fn str(&self) -> (s: String)
        requires
            N <= 16,
        ensures
            s@ == binary_text(self.element, N as nat),
    {
        let e = self.element;
        let mut s = String::new();
        let mut n: u8 = N;
        proof {
            assert(s@ + binary_text(e, n as nat) =~= binary_text(e, N as nat));
        }
        while n > 1
            invariant
                n <= N <= 16,
                e == self.element,
                s@ + binary_text(e, n as nat) == binary_text(e, N as nat),
            decreases n,
        {
            n -= 1;
            let ghost before = s@;
            if (e >> n) & 1 == 1 {
                s.append("x^");
                push_decimal(&mut s, n as u64);
                s.append(" + ");
            }
            proof {
                reveal_strlit("x^");
                reveal_strlit(" + ");
                assert(s@ + binary_text(e, n as nat) =~= before + binary_text(e, (n + 1) as nat));
            }
        }
        if e & 1 == 1 {
            s.append("1");
        } else {
            s.append("0");
        }
        proof {
            reveal_strlit("1");
            reveal_strlit("0");
            assert(s@ =~= binary_text(e, N as nat));
        }
        s
    }
}

impl<const N: u8> FieldSpec for F2_i<N> {
    open spec fn characteristic() -> nat {
        2
    }

    open spec fn extension_degree() -> nat {
        N as nat
    }

    open spec fn supported() -> bool {
        1 <= N <= 10
    }

    open spec fn wf(self) -> bool {
        Self::supported() && (self.element as u64) >> (N as u64) == 0
    }

    open spec fn cardinality() -> nat {
        (1u64 << (N as u64)) as nat
    }

    open spec fn index(self) -> nat {
        self.element as nat
    }

    open spec fn spec_zero() -> Self {
        F2_i { element: 0 }
    }

    open spec fn spec_one() -> Self {
        F2_i { element: 1 }
    }

    open spec fn spec_max() -> Self {
        F2_i { element: gf2::low_mask(N as u64) as u16 }
    }

    open spec fn spec_add(self, rhs: Self) -> Self {
        F2_i { element: self.element ^ rhs.element }
    }

    open spec fn spec_mul(self, rhs: Self) -> Self {
        F2_i { element: gf2::product(self.element as u64, rhs.element as u64, N as u64) as u16 }
    }

    open spec fn spec_next(self) -> Self {
        F2_i { element: (self.element + 1) as u16 }
    }
}

impl<const N: u8> FieldTraits for F2_i<N> {
    proof fn lemma_enumeration() {
        gf2::lemma_cardinality(N as u64);
        gf2::lemma_word_facts(0, N as u64);
    }

    proof fn lemma_index(a: Self, b: Self) {
        gf2::lemma_cardinality(N as u64);
    }

    proof fn lemma_successor(a: Self) {
        gf2::lemma_word_facts(a.element as u64, N as u64);
    }

    proof fn lemma_closed(a: Self, b: Self) {
        let n = N as u64;
        let x = a.element as u64;
        let y = b.element as u64;
        gf2::lemma_word_facts(x, n);
        assert((x ^ y) >> n == 0);
        assert((a.element ^ b.element) as u64 == x ^ y);
        gf2::lemma_reduce_bounded(gf2::carryless_product(x, y, n as nat), n);
        gf2::lemma_word_facts(gf2::product(x, y, n), n);
    }

    proof fn lemma_add_zero(a: Self) {
        let e = a.element;
        assert(0u16 ^ e == e && e ^ 0u16 == e) by (bit_vector);
    }

    proof fn lemma_add_laws(a: Self, b: Self, c: Self) {
        let x = a.element;
        let y = b.element;
        let z = c.element;
        assert(x ^ y == y ^ x && (x ^ y) ^ z == x ^ (y ^ z)) by (bit_vector);
    }

    proof fn lemma_additive_order(a: Self) {
        reveal_with_fuel(add_times, 3);
        let e = a.element;
        assert((0u16 ^ e) ^ e == 0) by (bit_vector);
    }

    proof fn lemma_mul_units(a: Self) {
        gf2::lemma_product_units(a.element as u64, N as u64);
    }

    fn zero() -> (r: Self) {
        F2_i { element: 0 }
    }

    fn one() -> (r: Self) {
        F2_i { element: 1 }
    }

    fn max() -> (r: Self) {
        let n: u8 = N;
        assert(((1u16 << n) - 1) as u16 == gf2::low_mask(n as u64) as u16 && (1u16 << n) >= 1)
            by (bit_vector)
            requires
                1 <= n <= 10,
        ;
        F2_i { element: ((1u16 << n) - 1) }
    }

    fn field_order() -> (q: u8) {
        2
    }

    fn is_zero(&self) -> (r: bool) {
        self.element == 0
    }

    fn add(self, rhs: Self) -> (r: Self) {
        proof {
            Self::lemma_closed(self, rhs);
        }
        F2_i { element: self.element ^ rhs.element }
    }

    fn mul(self, rhs: Self) -> (r: Self) {
        F2_i { element: Self::internal_mul(self.element as u64, rhs.element as u64) }
    }

    fn next(self) -> (r: Option<Self>) {
        let last = Self::max();
        proof {
            gf2::lemma_word_facts(self.element as u64, N as u64);
        }
        if self.element == last.element {
            None
        } else {
            Some(F2_i { element: self.element + 1 })
        }
    }
}

impl<const N: u8> core::ops::Add for F2_i<N> {
    type Output = Self;

    fn add(self, rhs: Self) -> (r: Self) {
        F2_i { element: self.element ^ rhs.element }
    }
}

impl<const N: u8> vstd::std_specs::ops::AddSpecImpl for F2_i<N> {
    open spec fn obeys_add_spec() -> bool {
        true
    }

    open spec fn add_req(self, rhs: Self) -> bool {
        true
    }

    open spec fn add_spec(self, rhs: Self) -> Self {
        self.spec_add(rhs)
    }
}

impl<const N: u8> core::ops::Mul for F2_i<N> {
    type Output = Self;

    fn mul(self, rhs: Self) -> (r: Self) {
        F2_i { element: Self::internal_mul(self.element as u64, rhs.element as u64) }
    }
}

impl<const N: u8> vstd::std_specs::ops::MulSpecImpl for F2_i<N> {
    open spec fn obeys_mul_spec() -> bool {
        true
    }

    open spec fn mul_req(self, rhs: Self) -> bool {
        self.wf() && rhs.wf()
    }

    open spec fn mul_spec(self, rhs: Self) -> Self {
        self.spec_mul(rhs)
    }
}

/// An element of the field of `3^N` elements: a polynomial of degree below `N`
/// over the field of three elements, the bits `2i` and `2i + 1` holding the
/// coefficient of `x^i` as 0, 1 or 2.
#[allow(non_camel_case_types)]
#[derive(Debug, Copy, Clone)]
pub struct F3_i<const N: u8> {
    pub element: u16,
}

impl<const N: u8> PartialEq for F3_i<N> {
    fn eq(&self, other: &Self) -> (r: bool) {
        self.element == other.element
    }
}

impl<const N: u8> vstd::std_specs::cmp::PartialEqSpecImpl for F3_i<N> {
    open spec fn obeys_eq_spec() -> bool {
        true
    }

    open spec fn eq_spec(&self, other: &Self) -> bool {
        self.element == other.element
    }
}

impl<const N: u8> F3_i<N> {
    /// The element with the given word; it is an element of the field where
    /// `wf` holds of it.
    pub fn new(element: u16) -> (r: F3_i<N>)
        ensures
            r.element == element,
    {
        F3_i { element }
    }

    /// The sum of two polynomials: in every lane the sum modulo three.
    pub fn internal_add(a: u64, b: u64) -> (r: u64)
        ensures
            r == gf3::lane_sum(a, b),
            gf3::reduced(a) && gf3::reduced(b) ==> gf3::reduced(r) && forall|k: u64|
                k < 32 ==> #[trigger] gf3::lane(r, k) == (gf3::lane(a, k) + gf3::lane(b, k)) % 3,
    {
        let both = a & b;
        let two = (both & gf3::LOW_BITS) << 1;
        let one = (both & gf3::HIGH_BITS) >> 1;
        let mixed = (((a & gf3::HIGH_BITS) >> 1) & b) | (((b & gf3::HIGH_BITS) >> 1) & a);
        let r = ((mixed | (mixed << 1)) ^ (a ^ b)) | two | one;
        proof {
            if gf3::reduced(a) && gf3::reduced(b) {
                assert forall|k: u64| k < 32 implies #[trigger] gf3::lane(r, k) == (gf3::lane(a, k)
                    + gf3::lane(b, k)) % 3 by {
                    gf3::lemma_lane_sum(a, b, k);
                }
                gf3::lemma_lane_sum(a, b, 0);
            }
        }
        r
    }

    /// The same sum with fewer operations; it agrees with `internal_add` on
    /// words without a lane that holds 3.
    fn internal_add_fast(a: u64, b: u64) -> (r: u64)
        ensures
            r == gf3::lane_sum_fast(a, b),
            gf3::reduced(a) && gf3::reduced(b) ==> r == gf3::lane_sum(a, b),
    {
        let na = !a;
        let nb = !b;
        let a0 = ((gf3::HIGH_BITS & na) >> 1) & na;
        let b0 = ((gf3::HIGH_BITS & nb) >> 1) & nb;
        proof {
            if gf3::reduced(a) && gf3::reduced(b) {
                gf3::lemma_lane_sum_fast(a, b);
            }
        }
        !(((a0 << 1 | a0) | (b0 << 1 | b0)) ^ (a | b))
    }

    /// The rule `x^N = t` by which products are reduced gives `t`.
    fn reduction_tail() -> (t: u64)
        ensures
            t == gf3::reduction_tail(N as u64),
    {
        match N {
            1 => 0b0001,
            2 => 0b0010,
            3 => 0b0110,
            5 => 0b0110,
            _ => 0b1001,
        }
    }

    /// The carry-less product of the `N` low coefficients of `lhs` with `rhs`.
    fn clmul(lhs: u64, rhs: u64) -> (r: u64)
        requires
            N < 32,
        ensures
            r == gf3::carryless_product(lhs, rhs, N as nat),
    {
        let mut result: u64 = 0;
        let mut i: u8 = 0;
        while i < N
            invariant
                i <= N < 32,
                result == gf3::carryless_product(lhs, rhs, i as nat),
            decreases N - i,
        {
            let factor = (lhs >> (2 * i)) & 0b11;
            let shifted = rhs << (2 * i);
            match factor {
                2 => {
                    result = Self::internal_add(result, shifted);
                    result = Self::internal_add(result, shifted);
                },
                1 => {
                    result = Self::internal_add(result, shifted);
                },
                _ => {},
            }
            i += 1;
        }
        result
    }

    /// The product of two field elements: their carry-less product, reduced by
    /// the rule `x^N = t` until no coefficient is left at or above `x^N`.
    fn internal_mul(a: u64, b: u64) -> (r: u16)
        requires
            1 <= N <= 6,
            gf3::reduced(b),
        ensures
            r == gf3::product(a, b, N as u64),
            gf3::reduced(r as u64),
            (r as u64) >> ((2 * N) as u64) == 0,
    {
        let n: u64 = N as u64;
        let bitmask: u64 = !((!0u64) << (2 * n));
        let irred = Self::reduction_tail();
        let mut result = Self::clmul(a, b);
        while (result >> (2 * n)) > 0
            invariant
                n == N,
                1 <= n <= 6,
                bitmask == gf3::low_mask(n),
                irred == gf3::reduction_tail(n),
                gf3::reduce(result, n) == gf3::product(a, b, n),
            decreases result,
        {
            let lsb = result & bitmask;
            let msb = result >> (2 * n);
            proof {
                gf3::lemma_fold_decreases(result, n);
            }
            result = Self::internal_add(lsb, Self::clmul(msb, irred));
        }
        proof {
            gf3::lemma_product_closed(a, b, n);
        }
        result as u16
    }

    /// The coefficients of the element as digits, the highest first, and the
    /// degree of the field in round brackets.
    pub fn str(&self) -> (s: String)
        requires
            N <= 8,
            gf3::reduced(self.element as u64),
        ensures
            s@ == ternary_text(self.element, N as nat) + seq![' ', '('] + decimal(N as nat) + seq![
                ')',
            ],
    {
        let e = self.element;
        let mut s = String::new();
        let mut n: u8 = N;
        proof {
            assert(s@ + ternary_text(e, n as nat) =~= ternary_text(e, N as nat));
        }
        while n > 0
            invariant
                n <= N <= 8,
                e == self.element,
                gf3::reduced(e as u64),
                s@ + ternary_text(e, n as nat) == ternary_text(e, N as nat),
            decreases n,
        {
            n -= 1;
            let ghost before = s@;
            let num = (e >> (2 * n)) & 0b11;
            assert(num <= 2) by (bit_vector)
                requires
                    num == (e >> ((2 * n) as u16)) & 3,
                    n < 8,
                    gf3::reduced(e as u64),
            ;
            s.append(digit_str(num as u8));
            proof {
                assert(s@ + ternary_text(e, n as nat) =~= before + ternary_text(e, (n + 1) as nat));
            }
        }
        proof {
            assert(s@ =~= ternary_text(e, N as nat));
        }
        s.append(" (");
        push_decimal(&mut s, N as u64);
        s.append(")");
        proof {
            reveal_strlit(" (");
            reveal_strlit(")");
            assert(s@ =~= ternary_text(e, N as nat) + seq![' ', '('] + decimal(N as nat) + seq![
                ')',
            ]);
        }
        s
    }

    /// A walk through the points of the projective plane over this field.
    pub fn iterate_over_points() -> (it: ProjectivePointIterator<Self>)
        requires
            Self::supported(),
        ensures
            it.wf(),
            it.position() == 0,
    {
        ProjectivePointIterator::new()
    }
}

impl<const N: u8> FieldSpec for F3_i<N> {
    open spec fn characteristic() -> nat {
        3
    }

    open spec fn extension_degree() -> nat {
        N as nat
    }

    open spec fn supported() -> bool {
        1 <= N <= 6
    }

    open spec fn wf(self) -> bool {
        &&& Self::supported()
        &&& gf3::reduced(self.element as u64)
        &&& (self.element as u64) >> ((2 * N) as u64) == 0
    }

    open spec fn cardinality() -> nat {
        gf3::cardinality(N as u64) as nat
    }

    open spec fn index(self) -> nat {
        gf3::ternary_value(self.element as u64) as nat
    }

    open spec fn spec_zero() -> Self {
        F3_i { element: 0 }
    }

    open spec fn spec_one() -> Self {
        F3_i { element: 1 }
    }

    open spec fn spec_max() -> Self {
        F3_i { element: (gf3::HIGH_BITS & gf3::low_mask(N as u64)) as u16 }
    }

    open spec fn spec_add(self, rhs: Self) -> Self {
        F3_i { element: gf3::lane_sum(self.element as u64, rhs.element as u64) as u16 }
    }

    open spec fn spec_mul(self, rhs: Self) -> Self {
        F3_i { element: gf3::product(self.element as u64, rhs.element as u64, N as u64) as u16 }
    }

    open spec fn spec_next(self) -> Self {
        F3_i { element: gf3::successor(self.element) }
    }
}

impl<const N: u8> FieldTraits for F3_i<N> {
    proof fn lemma_enumeration() {
        gf3::lemma_constants(N as u64);
        gf3::lemma_successor(0, N as u64);
        gf3::lemma_cardinality(N as u64);
    }

    proof fn lemma_index(a: Self, b: Self) {
        let n = N as u64;
        let x = a.element as u64;
        let y = b.element as u64;
        gf3::lemma_successor(a.element, n);
        if a.index() == b.index() {
            assert(x >> 12 == 0 && y >> 12 == 0) by (bit_vector)
                requires
                    1 <= n <= 6,
                    x >> ((2 * n) as u64) == 0,
                    y >> ((2 * n) as u64) == 0,
            ;
            gf3::lemma_successor(b.element, n);
            gf3::lemma_ternary_value_injective(x, y);
        }
    }

    proof fn lemma_successor(a: Self) {
        gf3::lemma_constants(N as u64);
        gf3::lemma_successor(a.element, N as u64);
    }

    proof fn lemma_closed(a: Self, b: Self) {
        let n = N as u64;
        gf3::lemma_word_facts(a.element as u64, b.element as u64, n);
        gf3::lemma_product_closed(a.element as u64, b.element as u64, n);
    }

    proof fn lemma_add_zero(a: Self) {
        gf3::lemma_constants(N as u64);
        gf3::lemma_word_facts(a.element as u64, 0, N as u64);
    }

    proof fn lemma_add_laws(a: Self, b: Self, c: Self) {
        let n = N as u64;
        let x = a.element as u64;
        let y = b.element as u64;
        let z = c.element as u64;
        gf3::lemma_word_facts(x, y, n);
        gf3::lemma_word_facts(y, x, n);
        gf3::lemma_word_facts(y, z, n);
        gf3::lemma_word_facts(gf3::lane_sum(x, y), z, n);
        gf3::lemma_word_facts(x, gf3::lane_sum(y, z), n);
        gf3::lemma_sum_laws(x, y, z);
    }

    proof fn lemma_additive_order(a: Self) {
        reveal_with_fuel(add_times, 4);
        let x = a.element as u64;
        gf3::lemma_constants(N as u64);
        gf3::lemma_word_facts(x, x, N as u64);
        gf3::lemma_word_facts(0, x, N as u64);
        gf3::lemma_word_facts(gf3::lane_sum(0, x), x, N as u64);
    }

    proof fn lemma_mul_units(a: Self) {
        gf3::lemma_product_units(a.element as u64, N as u64);
    }

    fn zero() -> (r: Self) {
        F3_i { element: 0 }
    }

    fn one() -> (r: Self) {
        F3_i { element: 1 }
    }

    fn max() -> (r: Self) {
        let n: u8 = N;
        assert((0xAAAAu16 & !((!0u16) << ((2 * n) as u16))) == (gf3::HIGH_BITS & gf3::low_mask(
            n as u64,
        )) as u16) by (bit_vector)
            requires
                1 <= n <= 6,
        ;
        F3_i { element: 0xAAAA & !((!0u16) << (2 * n)) }
    }

    fn field_order() -> (q: u8) {
        3
    }

    fn is_zero(&self) -> (r: bool) {
        self.element == 0
    }

    fn add(self, rhs: Self) -> (r: Self) {
        proof {
            Self::lemma_closed(self, rhs);
            gf3::lemma_word_facts(self.element as u64, rhs.element as u64, N as u64);
        }
        F3_i { element: Self::internal_add_fast(self.element as u64, rhs.element as u64) as u16 }
    }

    fn mul(self, rhs: Self) -> (r: Self) {
        F3_i { element: Self::internal_mul(self.element as u64, rhs.element as u64) }
    }

    fn next(self) -> (r: Option<Self>) {
        let last = Self::max();
        proof {
            gf3::lemma_constants(N as u64);
        }
        if self.element == last.element {
            None
        } else {
            let t = ((self.element ^ 0xAAAA) | 0x5555) >> 1;
            let el = self.element.wrapping_sub(t) & t;
            Some(F3_i { element: el })
        }
    }
}

impl<const N: u8> core::ops::Add for F3_i<N> {
    type Output = Self;

    fn add(self, rhs: Self) -> (r: Self) {
        proof {
            gf3::lemma_word_facts(self.element as u64, rhs.element as u64, N as u64);
        }
        F3_i { element: Self::internal_add_fast(self.element as u64, rhs.element as u64) as u16 }
    }
}

impl<const N: u8> vstd::std_specs::ops::AddSpecImpl for F3_i<N> {
    open spec fn obeys_add_spec() -> bool {
        true
    }

    open spec fn add_req(self, rhs: Self) -> bool {
        self.wf() && rhs.wf()
    }

    open spec fn add_spec(self, rhs: Self) -> Self {
        self.spec_add(rhs)
    }
}

impl<const N: u8> core::ops::Mul for F3_i<N> {
    type Output = Self;

    fn mul(self, rhs: Self) -> (r: Self) {
        F3_i { element: Self::internal_mul(self.element as u64, rhs.element as u64) }
    }
}

impl<const N: u8> vstd::std_specs::ops::MulSpecImpl for F3_i<N> {
    open spec fn obeys_mul_spec() -> bool {
        true
    }

    open spec fn mul_req(self, rhs: Self) -> bool {
        self.wf() && rhs.wf()
    }

    open spec fn mul_spec(self, rhs: Self) -> Self {
        self.spec_mul(rhs)
    }
}

} // verus!
