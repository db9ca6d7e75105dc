//! The linear changes of the variables `x`, `y`, `z` over a prime field: the
//! invertible matrices, one for every class of matrices that differ by a
//! factor.
use vstd::prelude::*;

verus! {

/// The change of variables that replaces `x` by `a x + b y + c z`, `y` by
/// `d x + e y + f z` and `z` by `g x + h y + i z`.
#[derive(Debug, Copy, Clone, PartialEq, Eq, Structural)]
pub struct Matrix {
    pub a: u8,
    pub b: u8,
    pub c: u8,
    pub d: u8,
    pub e: u8,
    pub f: u8,
    pub g: u8,
    pub h: u8,
    pub i: u8,
}

/// The number of matrices with entries in a prime field of two or of three
/// elements.
pub open spec fn matrix_count(q: nat) -> nat {
    place_value(q, 9)
}

/// The number of classes of invertible matrices that differ by a factor, over
/// a prime field of two or of three elements.
pub open spec fn spec_pgl3_size(q: nat) -> nat {
    if q == 2 {
        168
    } else if q == 3 {
        5616
    } else {
        0
    }
}

/// The power of `q` with exponent `e`, for `q` two or three and `e` up to nine.
pub open spec fn place_value(q: nat, e: nat) -> nat {
    if q == 2 {
        if e == 0 {
            1
        } else if e == 1 {
            2
        } else if e == 2 {
            4
        } else if e == 3 {
            8
        } else if e == 4 {
            16
        } else if e == 5 {
            32
        } else if e == 6 {
            64
        } else if e == 7 {
            128
        } else if e == 8 {
            256
        } else {
            512
        }
    } else {
        if e == 0 {
            1
        } else if e == 1 {
            3
        } else if e == 2 {
            9
        } else if e == 3 {
            27
        } else if e == 4 {
            81
        } else if e == 5 {
            243
        } else if e == 6 {
            729
        } else if e == 7 {
            2187
        } else if e == 8 {
            6561
        } else {
            19683
        }
    }
}

/// The digit of `k` in base `q` that counts the powers with exponent `e`.
pub open spec fn digit(k: nat, q: nat, e: nat) -> u8 {
    ((k / place_value(q, e)) % q) as u8
}

/// The matrix whose entries, read row by row, are the digits of `k` in base
/// `q`, the entry `a` being the leading one.
pub open spec fn matrix_of_code(k: nat, q: nat) -> Matrix {
    Matrix {
        a: digit(k, q, 8),
        b: digit(k, q, 7),
        c: digit(k, q, 6),
        d: digit(k, q, 5),
        e: digit(k, q, 4),
        f: digit(k, q, 3),
        g: digit(k, q, 2),
        h: digit(k, q, 1),
        i: digit(k, q, 0),
    }
}

impl Matrix {
    /// Every entry is below `q`.
    pub open spec fn wf(self, q: nat) -> bool {
        &&& self.a < q
        &&& self.b < q
        &&& self.c < q
        &&& self.d < q
        &&& self.e < q
        &&& self.f < q
        &&& self.g < q
        &&& self.h < q
        &&& self.i < q
    }

    /// The determinant over the integers.
    pub open spec fn spec_determinant(self) -> int {
        self.a * (self.e * self.i - self.f * self.h) - self.b * (self.d * self.i - self.f
            * self.g) + self.c * (self.d * self.h - self.e * self.g)
    }

    /// The first entry that is not zero, row by row; zero for the zero matrix.
    pub open spec fn spec_leading_entry(self) -> u8 {
        if self.a != 0 {
            self.a
        } else if self.b != 0 {
            self.b
        } else if self.c != 0 {
            self.c
        } else if self.d != 0 {
            self.d
        } else if self.e != 0 {
            self.e
        } else if self.f != 0 {
            self.f
        } else if self.g != 0 {
            self.g
        } else if self.h != 0 {
            self.h
        } else {
            self.i
        }
    }

    /// Whether the matrix stands for its class: it is invertible over the prime
    /// field of `q` elements, and its first entry that is not zero is one.
    pub open spec fn is_representative(self, q: nat) -> bool {
        self.spec_determinant() % (q as int) != 0 && self.spec_leading_entry() == 1
    }

    /// The determinant over the integers.
    pub fn determinant(self) -> (det: i64)
        ensures
            det == self.spec_determinant(),
            -49744125 <= det <= 49744125,
    {
        let a = self.a as i64;
        let b = self.b as i64;
        let c = self.c as i64;
        let d = self.d as i64;
        let e = self.e as i64;
        let f = self.f as i64;
        let g = self.g as i64;
        let h = self.h as i64;
        let i = self.i as i64;
        assert(0 <= e * i <= 65025 && 0 <= f * h <= 65025 && 0 <= d * i <= 65025 && 0 <= f * g
            <= 65025 && 0 <= d * h <= 65025 && 0 <= e * g <= 65025) by (nonlinear_arith)
            requires
                0 <= d <= 255,
                0 <= e <= 255,
                0 <= f <= 255,
                0 <= g <= 255,
                0 <= h <= 255,
                0 <= i <= 255,
        ;
        let m1 = e * i - f * h;
        let m2 = d * i - f * g;
        let m3 = d * h - e * g;
        assert(-16581375 <= a * m1 <= 16581375 && -16581375 <= b * m2 <= 16581375 && -16581375
            <= c * m3 <= 16581375) by (nonlinear_arith)
            requires
                0 <= a <= 255,
                0 <= b <= 255,
                0 <= c <= 255,
                -65025 <= m1 <= 65025,
                -65025 <= m2 <= 65025,
                -65025 <= m3 <= 65025,
        ;
        a * m1 - b * m2 + c * m3
    }

    /// Whether the matrix stands for its class over the prime field of
    /// `field_order` elements.
    pub fn stands_for_class(self, field_order: u8) -> (r: bool)
        requires
            field_order == 2 || field_order == 3,
        ensures
            r == self.is_representative(field_order as nat),
    {
        let det = self.determinant();
        let size: i64 = if det < 0 {
            -det
        } else {
            det
        };
        let invertible = if field_order == 2 {
            size % 2 != 0
        } else {
            size % 3 != 0
        };
        invertible && self.leading_entry() == 1
    }

    /// The first entry that is not zero, row by row; zero for the zero matrix.
    pub fn leading_entry(self) -> (r: u8)
        ensures
            r == self.spec_leading_entry(),
    {
        if self.a != 0 {
            self.a
        } else if self.b != 0 {
            self.b
        } else if self.c != 0 {
            self.c
        } else if self.d != 0 {
            self.d
        } else if self.e != 0 {
            self.e
        } else if self.f != 0 {
            self.f
        } else if self.g != 0 {
            self.g
        } else if self.h != 0 {
            self.h
        } else {
            self.i
        }
    }
}

/// The matrices among the first `n` in the order of `matrix_of_code` that
/// stand for their class, in that order.
pub open spec fn representatives(q: nat, n: nat) -> Seq<Matrix>
    decreases n,
{
    if n == 0 {
        Seq::empty()
    } else {
        let before = representatives(q, (n - 1) as nat);
        let m = matrix_of_code((n - 1) as nat, q);
        if m.is_representative(q) {
            before.push(m)
        } else {
            before
        }
    }
}

/// The number of classes of invertible matrices that differ by a factor.
pub fn pgl3_size(field_order: u8) -> (n: u32)
    ensures
        n == spec_pgl3_size(field_order as nat),
{
    if field_order == 2 {
        168
    } else if field_order == 3 {
        5616
    } else {
        0
    }
}

/// The matrix with the digits of `k` in base `field_order` as entries.
fn matrix_from_code(k: u32, field_order: u8) -> (m: Matrix)
    requires
        field_order == 2 || field_order == 3,
        k < matrix_count(field_order as nat),
    ensures
        m == matrix_of_code(k as nat, field_order as nat),
        m.wf(field_order as nat),
{
    let q = field_order as u32;
    let (q2, q3, q4, q5, q6, q7, q8): (u32, u32, u32, u32, u32, u32, u32) = if field_order == 2 {
        (4, 8, 16, 32, 64, 128, 256)
    } else {
        (9, 27, 81, 243, 729, 2187, 6561)
    };
    Matrix {
        a: ((k / q8) % q) as u8,
        b: ((k / q7) % q) as u8,
        c: ((k / q6) % q) as u8,
        d: ((k / q5) % q) as u8,
        e: ((k / q4) % q) as u8,
        f: ((k / q3) % q) as u8,
        g: ((k / q2) % q) as u8,
        h: ((k / q) % q) as u8,
        i: ((k / 1) % q) as u8,
    }
}

/// One matrix for every class of invertible matrices that differ by a
/// factor, over a prime field of two or of three elements: those whose first
/// entry that is not zero is one, in the order of their entries read row by
/// row as a number in base `field_order`.
pub fn generate_matrices(field_order: u8) -> (matrices: Vec<Matrix>)
    requires
        field_order == 2 || field_order == 3,
    ensures
        matrices@ == representatives(field_order as nat, matrix_count(field_order as nat)),
        forall|k: int|
            0 <= k < matrices.len() ==> (#[trigger] matrices[k]).wf(field_order as nat)
                && matrices[k].is_representative(field_order as nat),
{
    let total: u32 = if field_order == 2 {
        512
    } else {
        19683
    };
    let mut matrices: Vec<Matrix> = Vec::new();
    let mut k: u32 = 0;
    while k < total
        invariant
            field_order == 2 || field_order == 3,
            total == matrix_count(field_order as nat),
            k <= total,
            matrices@ == representatives(field_order as nat, k as nat),
            forall|j: int|
                0 <= j < matrices.len() ==> (#[trigger] matrices[j]).wf(field_order as nat)
                    && matrices[j].is_representative(field_order as nat),
        decreases total - k,
    {
        let m = matrix_from_code(k, field_order);
        if m.stands_for_class(field_order) {
            matrices.push(m);
        }
        k += 1;
    }
    matrices
}

} // verus!
