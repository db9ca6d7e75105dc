//! The pass over the classes of forms: every class is looked at over the
//! prime field and its extensions in turn, until a singular point turns up or
//! the tables end.
use vstd::prelude::*;
use crate::algebraic_types::{IsoPolynomial, Lookup, PolynomialResult};
use crate::field_extensions::FieldTraits;
use crate::polynomials::{level_verdict, Polynomial};

verus! {

/// Tables for a run of fields, the prime field first: a single `Lookup`, or a
/// pair of a `Lookup` and the tables for the fields that follow.
pub trait LevelTables {
    /// The tables of every level are well formed, and the levels can be counted.
    spec fn wf(&self) -> bool;

    /// The number of fields.
    spec fn levels(&self) -> nat;

    /// The verdict on the curve of the form over field `n`, counted from zero:
    /// `None` when it has a singular point there, else the number of its points.
    spec fn verdict(&self, poly: Polynomial, n: nat) -> Option<nat>;

    fn depth(&self) -> (d: usize)
        requires
            self.wf(),
        ensures
            d == self.levels(),
            d >= 1,
    ;

    /// Searches the curve of the form for a singular point over field `n`.
    fn check(&self, poly: Polynomial, n: usize) -> (r: Option<usize>)
        requires
            self.wf(),
            n < self.levels(),
        ensures
            r.is_none() == self.verdict(poly, n as nat).is_none(),
            r.is_some() ==> r.unwrap() == self.verdict(poly, n as nat).unwrap(),
    ;
}

impl<T: FieldTraits> LevelTables for Lookup<T> {
    open spec fn wf(&self) -> bool {
        Lookup::wf(self)
    }

    open spec fn levels(&self) -> nat {
        1
    }

    open spec fn verdict(&self, poly: Polynomial, n: nat) -> Option<nat> {
        level_verdict(poly, self)
    }

    fn depth(&self) -> (d: usize) {
        1
    }

    fn check(&self, poly: Polynomial, n: usize) -> (r: Option<usize>) {
        poly.has_singularity(self)
    }
}

impl<T: FieldTraits, R: LevelTables> LevelTables for (Lookup<T>, R) {
    open spec fn wf(&self) -> bool {
        self.0.wf() && self.1.wf() && self.1.levels() < usize::MAX
    }

    open spec fn levels(&self) -> nat {
        1 + self.1.levels()
    }

    open spec fn verdict(&self, poly: Polynomial, n: nat) -> Option<nat> {
        if n == 0 {
            level_verdict(poly, &self.0)
        } else {
            self.1.verdict(poly, (n - 1) as nat)
        }
    }

    fn depth(&self) -> (d: usize) {
        1 + self.1.depth()
    }

    fn check(&self, poly: Polynomial, n: usize) -> (r: Option<usize>) {
        if n == 0 {
            poly.has_singularity(&self.0)
        } else {
            self.1.check(poly, n - 1)
        }
    }
}

/// The number of fields, from the prime field upwards and among the first `n`,
/// over which the curve of the form has no singular point before the first
/// field over which it has one.
pub open spec fn smooth_levels<S: LevelTables>(tables: &S, poly: Polynomial, n: nat) -> nat
    decreases n,
{
    if n == 0 {
        0
    } else {
        let below = smooth_levels(tables, poly, (n - 1) as nat);
        if below == n - 1 && tables.verdict(poly, (n - 1) as nat).is_some() {
            n
        } else {
            below
        }
    }
}

/// The numbers of points of the curve of the form over the first `n` fields.
pub open spec fn point_counts<S: LevelTables>(tables: &S, poly: Polynomial, n: nat) -> Seq<usize> {
    Seq::new(n, |i: int| tables.verdict(poly, i as nat).unwrap() as usize)
}

/// The sum of the sizes of those classes whose curves have no singular point
/// over the fields up to and including field `level`.
pub open spec fn smooth_count<S: LevelTables>(
    tables: &S,
    polys: Seq<IsoPolynomial>,
    level: nat,
) -> nat
    decreases polys.len(),
{
    if polys.len() == 0 {
        0
    } else {
        smooth_count(tables, polys.drop_last(), level) + if smooth_levels(
            tables,
            polys.last().representative,
            tables.levels(),
        ) > level {
            polys.last().size as nat
        } else {
            0
        }
    }
}

/// The records of those classes whose curves have no singular point over any
/// of the fields, in the order of `polys`.
pub open spec fn smooth_results<S: LevelTables>(tables: &S, polys: Seq<IsoPolynomial>) -> Seq<
    (IsoPolynomial, Seq<usize>),
>
    decreases polys.len(),
{
    if polys.len() == 0 {
        Seq::empty()
    } else {
        let before = smooth_results(tables, polys.drop_last());
        let poly = polys.last().representative;
        if smooth_levels(tables, poly, tables.levels()) == tables.levels() {
            before.push((polys.last(), point_counts(tables, poly, tables.levels())))
        } else {
            before
        }
    }
}

/// The sum of the sizes of the classes.
pub open spec fn total_size(polys: Seq<IsoPolynomial>) -> nat
    decreases polys.len(),
{
    if polys.len() == 0 {
        0
    } else {
        total_size(polys.drop_last()) + polys.last().size as nat
    }
}

/// The classes at the places from `start` up to `end` of `polys`, as far as
/// there are any.
pub open spec fn chunk_of(polys: Seq<IsoPolynomial>, start: int, end: int) -> Seq<IsoPolynomial> {
    let stop = if end < polys.len() {
        end
    } else {
        polys.len() as int
    };
    if 0 <= start < stop {
        polys.subrange(start, stop)
    } else {
        Seq::empty()
    }
}

/// The views of the records.
pub open spec fn results_view(results: Seq<PolynomialResult>) -> Seq<(IsoPolynomial, Seq<usize>)> {
    Seq::new(results.len(), |i: int| results[i]@)
}

/// No more than the whole size can be smooth.
pub proof fn lemma_smooth_count_bound<S: LevelTables>(
    tables: &S,
    polys: Seq<IsoPolynomial>,
    level: nat,
)
    ensures
        smooth_count(tables, polys, level) <= total_size(polys),
    decreases polys.len(),
{
    if polys.len() > 0 {
        lemma_smooth_count_bound(tables, polys.drop_last(), level);
    }
}

/// The sizes of a part of the classes add up to no more than those of all.
pub proof fn lemma_total_size_prefix(polys: Seq<IsoPolynomial>, n: int)
    requires
        0 <= n <= polys.len(),
    ensures
        total_size(polys.take(n)) <= total_size(polys),
    decreases polys.len() - n,
{
    if n < polys.len() {
        lemma_total_size_prefix(polys.drop_last(), n);
        assert(polys.drop_last().take(n) =~= polys.take(n));
    } else {
        assert(polys.take(n) =~= polys);
    }
}

/// Classifies the classes at the places from `start` up to `end`: entry `n` of
/// the first result is the sum of the sizes of the classes whose curves are
/// smooth over the fields up to field `n`, and the second result holds a
/// record for every class whose curve is smooth over all fields.
pub fn is_smooth<S: LevelTables>(
    iso_polys: &Vec<IsoPolynomial>,
    start: usize,
    end: usize,
    super_lut: &S,
) -> (r: (Vec<usize>, Vec<PolynomialResult>))
    requires
        super_lut.wf(),
        total_size(chunk_of(iso_polys@, start as int, end as int)) <= usize::MAX,
    ensures
        r.0.len() == super_lut.levels(),
        forall|n: int|
            0 <= n < r.0.len() ==> #[trigger] r.0[n] == smooth_count(
                super_lut,
                chunk_of(iso_polys@, start as int, end as int),
                n as nat,
            ),
        results_view(r.1@) == smooth_results(
            super_lut,
            chunk_of(iso_polys@, start as int, end as int),
        ),
{
    let depth = super_lut.depth();
    let ghost chunk = chunk_of(iso_polys@, start as int, end as int);
    let mut count: Vec<usize> = Vec::new();
    let mut n: usize = 0;
    while n < depth
        invariant
            n <= depth,
            count.len() == n,
            forall|k: int| 0 <= k < n ==> #[trigger] count[k] == 0,
        decreases depth - n,
    {
        count.push(0);
        n += 1;
    }
    let mut results: Vec<PolynomialResult> = Vec::new();
    let mut i: usize = start;
    proof {
        assert(chunk.take(0) =~= Seq::<IsoPolynomial>::empty());
    }
    while i < end && i < iso_polys.len()
        invariant
            super_lut.wf(),
            depth == super_lut.levels(),
            chunk == chunk_of(iso_polys@, start as int, end as int),
            total_size(chunk) <= usize::MAX,
            start <= i,
            i - start <= chunk.len(),
            i < end && i < iso_polys.len() ==> i - start < chunk.len(),
            !(i < end && i < iso_polys.len()) ==> i - start == chunk.len() || (chunk.len() == 0
                && i == start),
            count.len() == depth,
            forall|k: int|
                0 <= k < depth ==> #[trigger] count[k] == smooth_count(
                    super_lut,
                    chunk.take(i - start),
                    k as nat,
                ),
            results_view(results@) == smooth_results(super_lut, chunk.take(i - start)),
        decreases iso_polys.len() - i,
    {
        let iso_poly = &iso_polys[i];
        let (poly, size) = iso_poly.deconstruct();
        let ghost done = chunk.take(i - start);
        let ghost now = chunk.take(i - start + 1);
        proof {
            assert(now.drop_last() =~= done);
            assert(now.last() == *iso_poly);
            lemma_total_size_prefix(chunk, i - start + 1);
        }
        let mut points_on_curve: Vec<usize> = Vec::new();
        let mut level: usize = 0;
        let mut smooth = true;
        while level < depth
            invariant_except_break
                smooth,
            invariant
                super_lut.wf(),
                depth == super_lut.levels(),
                level <= depth,
                now.len() > 0,
                now.drop_last() == done,
                now.last().representative == poly,
                now.last().size == size,
                total_size(now) <= usize::MAX,
                count.len() == depth,
                points_on_curve@ == point_counts(super_lut, poly, level as nat),
                smooth_levels(super_lut, poly, level as nat) == level,
                forall|k: int|
                    0 <= k < level ==> #[trigger] count[k] == smooth_count(
                        super_lut,
                        done,
                        k as nat,
                    ) + size,
                forall|k: int|
                    level <= k < depth ==> #[trigger] count[k] == smooth_count(
                        super_lut,
                        done,
                        k as nat,
                    ),
            ensures
                smooth ==> level == depth,
                !smooth ==> level < depth && super_lut.verdict(poly, level as nat).is_none(),
            decreases depth - level,
        {
            match super_lut.check(poly, level) {
                None => {
                    smooth = false;
                    break ;
                },
                Some(points) => {
                    proof {
                        lemma_smooth_count_bound(super_lut, done, level as nat);
                    }
                    count.set(level, count[level] + size as usize);
                    points_on_curve.push(points);
                    proof {
                        assert(points_on_curve@ =~= point_counts(
                            super_lut,
                            poly,
                            (level + 1) as nat,
                        ));
                    }
                },
            }
            level += 1;
        }
        proof {
            lemma_smooth_levels_stop(super_lut, poly, level as nat, depth as nat);
        }
        if smooth {
            results.push(PolynomialResult::new(*iso_poly, points_on_curve));
            proof {
                assert(results_view(results@) =~= smooth_results(super_lut, now));
            }
        } else {
            proof {
                assert(results_view(results@) =~= smooth_results(super_lut, now));
            }
        }
        i += 1;
    }
    proof {
        assert(chunk.take(i - start) =~= chunk);
    }
    (count, results)
}

/// From the first field over which the curve has a singular point on, the
/// number of smooth levels stays.
pub proof fn lemma_smooth_levels_stop<S: LevelTables>(
    tables: &S,
    poly: Polynomial,
    level: nat,
    n: nat,
)
    requires
        smooth_levels(tables, poly, level) == level,
        level <= n,
        level < n ==> tables.verdict(poly, level).is_none(),
    ensures
        smooth_levels(tables, poly, n) == level,
    decreases n - level,
{
    if level < n {
        if level + 1 < n {
            lemma_smooth_levels_stop(tables, poly, level, (n - 1) as nat);
        }
    }
}

/// A part of the list of classes that one worker takes at a time: the places
/// from `start` up to, but not including, `end`.
#[derive(Debug, Copy, Clone, PartialEq, Eq, Structural)]
pub struct CustomChunk {
    pub start: usize,
    pub end: usize,
}

/// The number of chunks of at most `chunk_size` places that cover `len` places.
pub open spec fn chunk_count(len: nat, chunk_size: nat) -> nat {
    ((len + chunk_size - 1) / (chunk_size as int)) as nat
}

/// Chunk `k` of the chunks of `chunk_size` places that cover `len` places.
pub open spec fn chunk_at(len: nat, chunk_size: nat, k: nat) -> CustomChunk {
    CustomChunk {
        start: (k * chunk_size) as usize,
        end: if (k + 1) * chunk_size < len {
            ((k + 1) * chunk_size) as usize
        } else {
            len as usize
        },
    }
}

/// Cuts `len` places into chunks of `chunk_size` places, the last one shorter
/// where `chunk_size` does not divide `len`.
pub fn make_chunks(len: usize, chunk_size: usize) -> (chunks: Vec<CustomChunk>)
    requires
        chunk_size > 0,
    ensures
        chunks.len() == chunk_count(len as nat, chunk_size as nat),
        forall|k: int|
            0 <= k < chunks.len() ==> #[trigger] chunks[k] == chunk_at(
                len as nat,
                chunk_size as nat,
                k as nat,
            ),
        forall|k: int|
            0 <= k < chunks.len() ==> (#[trigger] chunks[k]).start < chunks[k].end <= len
                && chunks[k].end - chunks[k].start <= chunk_size,
{
    let mut chunks: Vec<CustomChunk> = Vec::new();
    let mut start: usize = 0;
    proof {
        let c = chunk_size as int;
        let n = len as int;
        assert(0 * c == 0) by (nonlinear_arith);
        if n > 0 {
            assert((n + c - 1) / c > 0) by (nonlinear_arith)
                requires
                    n > 0,
                    c > 0,
            ;
        } else {
            assert((0 + c - 1) / c == 0) by (nonlinear_arith)
                requires
                    c > 0,
            ;
        }
    }
    while start < len
        invariant
            chunk_size > 0,
            start <= len,
            start < len ==> start == chunks.len() * chunk_size,
            start < len ==> chunks.len() < chunk_count(len as nat, chunk_size as nat),
            start == len ==> chunks.len() == chunk_count(len as nat, chunk_size as nat),
            forall|k: int|
                0 <= k < chunks.len() ==> #[trigger] chunks[k] == chunk_at(
                    len as nat,
                    chunk_size as nat,
                    k as nat,
                ),
            forall|k: int|
                0 <= k < chunks.len() ==> (#[trigger] chunks[k]).start < chunks[k].end <= len
                    && chunks[k].end - chunks[k].start <= chunk_size,
        decreases len - start,
    {
        let ghost k = chunks.len() as int;
        let end = if len - start > chunk_size {
            start + chunk_size
        } else {
            len
        };
        proof {
            let c = chunk_size as int;
            let n = len as int;
            assert((k + 1) * c == k * c + c) by (nonlinear_arith);
            if end == len {
                assert((n + c - 1) / c == k + 1) by (nonlinear_arith)
                    requires
                        k * c < n <= k * c + c,
                        c > 0,
                ;
            } else {
                assert((n + c - 1) / c > k + 1) by (nonlinear_arith)
                    requires
                        n > k * c + c,
                        c > 0,
                ;
            }
        }
        chunks.push(CustomChunk { start, end });
        start = end;
    }
    chunks
}

/// Adds the counts of one chunk to the counts of the chunks before it.
pub fn add_counts(smooth: &mut Vec<usize>, count: &Vec<usize>)
    requires
        old(smooth).len() == count.len(),
        forall|n: int| 0 <= n < count.len() ==> old(smooth)[n] + count[n] <= usize::MAX,
    ensures
        final(smooth).len() == count.len(),
        forall|n: int| 0 <= n < count.len() ==> #[trigger] final(smooth)[n] == old(smooth)[n] + count[n],
{
    let mut n: usize = 0;
    while n < count.len()
        invariant
            n <= count.len(),
            smooth.len() == count.len(),
            forall|k: int| 0 <= k < n ==> #[trigger] smooth[k] == old(smooth)[k] + count[k],
            forall|k: int| n <= k < count.len() ==> #[trigger] smooth[k] == old(smooth)[k],
            forall|k: int| 0 <= k < count.len() ==> old(smooth)[k] + count[k] <= usize::MAX,
        decreases count.len() - n,
    {
        smooth.set(n, smooth[n] + count[n]);
        n += 1;
    }
}

/// The number of fields, from the prime field upwards, that the search for
/// singular points looks at for forms of the given degree.
pub open spec fn spec_max_field_ext(degree: nat) -> nat {
    if degree <= 2 {
        1
    } else if degree == 3 {
        2
    } else if degree == 4 {
        3
    } else if degree == 5 {
        4
    } else if degree == 6 {
        6
    } else {
        10
    }
}

/// The number of fields that the search looks at for forms of a degree from
/// one to seven.
pub fn max_field_ext(degree: u8) -> (n: usize)
    requires
        1 <= degree <= 7,
    ensures
        n == spec_max_field_ext(degree as nat),
{
    if degree <= 2 {
        1
    } else if degree == 3 {
        2
    } else if degree == 4 {
        3
    } else if degree == 5 {
        4
    } else if degree == 6 {
        6
    } else {
        10
    }
}

} // verus!
