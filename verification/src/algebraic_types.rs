//! The tables of values behind the search for singular points, and the records
//! that the search reads and writes.
use vstd::prelude::*;
use crate::field_extensions::{point_count, projective_point, FieldSpec, FieldTraits};
use crate::polynomials::{term_value, Polynomial, Term};
use crate::text::{decimal, push_decimal};

verus! {

/// A form that stands for its class under linear changes of the variables,
/// with the number of forms in the class.
#[derive(Debug, Copy, Clone, PartialEq, Eq, Structural)]
pub struct IsoPolynomial {
    pub representative: Polynomial,
    pub size: u32,
}

impl IsoPolynomial {
    /// The form and the size, taken apart.
    pub fn deconstruct(self) -> (r: (Polynomial, u32))
        ensures
            r == (self.representative, self.size),
    {
        (self.representative, self.size)
    }
}

/// The values of the basis monomials and of their derivatives by `x`, `y` and
/// `z` at every point of the projective plane over one field: row `p` of a
/// table belongs to point `p` of the enumeration, entry `j` of a row to basis
/// monomial `j`.
pub struct Lookup<T: FieldSpec> {
    pub normal: Vec<Vec<T>>,
    pub part_x: Vec<Vec<T>>,
    pub part_y: Vec<Vec<T>>,
    pub part_z: Vec<Vec<T>>,
}

/// Whether `table` has a row of `width` field elements for every point of the
/// projective plane.
pub open spec fn table_wf<T: FieldSpec>(table: &Vec<Vec<T>>, width: nat) -> bool {
    &&& table.len() == point_count::<T>()
    &&& forall|p: int| 0 <= p < table.len() ==> (#[trigger] table[p]).len() == width
    &&& forall|p: int, j: int|
        0 <= p < table.len() && 0 <= j < table[p].len() ==> (#[trigger] table[p][j]).wf()
}

/// Whether the rows of `table` hold the values of `terms` at the points of the
/// projective plane.
pub open spec fn table_of<T: FieldSpec>(table: &Vec<Vec<T>>, terms: Seq<Term>) -> bool {
    &&& table_wf(table, terms.len())
    &&& forall|p: int, j: int|
        0 <= p < table.len() && 0 <= j < terms.len() ==> #[trigger] table[p][j] == term_value(
            terms[j],
            projective_point::<T>(p as nat),
        )
}

impl<T: FieldSpec> Lookup<T> {
    /// The number of basis monomials.
    pub open spec fn width(&self) -> nat {
        self.normal[0].len() as nat
    }

    /// The four tables have a row for every point of the projective plane and
    /// an entry for every basis monomial, and all entries are field elements.
    pub open spec fn wf(&self) -> bool {
        &&& T::supported()
        &&& table_wf(&self.normal, self.width())
        &&& table_wf(&self.part_x, self.width())
        &&& table_wf(&self.part_y, self.width())
        &&& table_wf(&self.part_z, self.width())
    }
}

impl<T: FieldTraits> Lookup<T> {
    /// The tables of the basis `normal` and of its derivatives `part_x`,
    /// `part_y` and `part_z`.
    pub fn create(
        normal: &Vec<Term>,
        part_x: &Vec<Term>,
        part_y: &Vec<Term>,
        part_z: &Vec<Term>,
    ) -> (lookup: Lookup<T>)
        requires
            T::supported(),
            normal.len() > 0,
            part_x.len() == normal.len(),
            part_y.len() == normal.len(),
            part_z.len() == normal.len(),
        ensures
            lookup.wf(),
            lookup.width() == normal.len(),
            table_of(&lookup.normal, normal@),
            table_of(&lookup.part_x, part_x@),
            table_of(&lookup.part_y, part_y@),
            table_of(&lookup.part_z, part_z@),
    {
        let n_res = Term::generate_points_for_multiple(normal);
        let x_res = Term::generate_points_for_multiple(part_x);
        let y_res = Term::generate_points_for_multiple(part_y);
        let z_res = Term::generate_points_for_multiple(part_z);
        proof {
            T::lemma_enumeration();
        }
        Lookup { normal: n_res, part_x: x_res, part_y: y_res, part_z: z_res }
    }
}

/// A class of forms with smooth curves, with the number of points of the
/// curve over every field that was looked at, from the prime field upwards.
#[derive(Debug, Clone, PartialEq, Eq)]
pub struct PolynomialResult {
    pub poly: IsoPolynomial,
    pub points_on_curve: Vec<usize>,
}

impl View for PolynomialResult {
    type V = (IsoPolynomial, Seq<usize>);

    open spec fn view(&self) -> (IsoPolynomial, Seq<usize>) {
        (self.poly, self.points_on_curve@)
    }
}

/// The decimal numerals of the first `n` of the `numbers`, with a comma and a
/// blank between neighbours.
pub open spec fn numbers_text(numbers: Seq<usize>, n: nat) -> Seq<char>
    decreases n,
{
    if n == 0 {
        Seq::empty()
    } else if n == 1 {
        decimal(numbers[0] as nat)
    } else {
        numbers_text(numbers, (n - 1) as nat) + seq![',', ' '] + decimal(numbers[n - 1] as nat)
    }
}

impl PolynomialResult {
    /// The line of the record: the form, the size of its class and the numbers
    /// of points in square brackets, with a bar between the three.
    pub open spec fn spec_to_string(self, normal: Seq<Term>, q: nat) -> Seq<char> {
        self.poly.representative.spec_str(normal, q) + seq![' ', '|', ' '] + decimal(
            self.poly.size as nat,
        ) + seq![' ', '|', ' ', '['] + numbers_text(
            self.points_on_curve@,
            self.points_on_curve.len() as nat,
        ) + seq![']']
    }

    /// The record of a class with the numbers of points of its curve.
    pub fn new(iso_poly: IsoPolynomial, points_on_curve: Vec<usize>) -> (r: PolynomialResult)
        ensures
            r.poly == iso_poly,
            r.points_on_curve == points_on_curve,
    {
        PolynomialResult { poly: iso_poly, points_on_curve }
    }

    /// The line of the record in the basis `normal`, over a prime field of
    /// `field_order` elements.
    pub fn to_string(&self, normal: &Vec<Term>, field_order: u8) -> (s: String)
        ensures
            s@ == self.spec_to_string(normal@, field_order as nat),
    {
        proof {
            reveal_strlit(" | ");
            reveal_strlit(" | [");
            reveal_strlit(", ");
            reveal_strlit("]");
        }
        let mut s = self.poly.representative.str(normal, field_order);
        s.append(" | ");
        push_decimal(&mut s, self.poly.size as u64);
        s.append(" | [");
        let ghost head = s@;
        let mut i: usize = 0;
        while i < self.points_on_curve.len()
            invariant
                i <= self.points_on_curve.len(),
                s@ == head + numbers_text(self.points_on_curve@, i as nat),
            decreases self.points_on_curve.len() - i,
        {
            if i > 0 {
                s.append(", ");
            }
            push_decimal(&mut s, self.points_on_curve[i] as u64);
            proof {
                reveal_strlit(", ");
                let next = numbers_text(self.points_on_curve@, (i + 1) as nat);
                if i == 0 {
                    assert(numbers_text(self.points_on_curve@, 0) =~= Seq::<char>::empty());
                    assert(s@ =~= head + next);
                } else {
                    assert(s@ =~= head + next);
                }
            }
            i += 1;
        }
        s.append("]");
        proof {
            assert(s@ =~= self.spec_to_string(normal@, field_order as nat));
        }
        s
    }
}

} // verus!
