//! Generators, capability wrappers and the bound-finding operations.

use vstd::prelude::*;

use crate::bounds::count_le;
use crate::bounds::is_sorted;
use crate::bounds::lemma_count_le_from_partition;
use crate::bounds::lemma_count_le_partition;
use crate::bounds::lemma_count_lt_from_partition;
use crate::bounds::lemma_count_lt_partition;
use crate::bounds::lemma_lower_border_char;
use crate::bounds::lemma_upper_border_char;
use crate::bounds::lower_border_min_spec;
use crate::bounds::lower_bound_spec;
use crate::bounds::strict_lower_bound_spec;
use crate::bounds::strict_upper_bound_spec;
use crate::bounds::upper_border_min_spec;
use crate::bounds::upper_bound_spec;
use crate::Frac;

verus! {

/// A finite, indexable, pure sequence of knot positions.
///
/// `contents` is the mathematical value of the sequence; `wf` is the
/// well-formedness a value must have for its elements to be produced (for
/// plain collections it is trivially true, for arithmetic generators it keeps
/// every element representable).
pub trait DiscreteGenerator: Sized {
    /// Well-formedness of this generator.
    spec fn wf(&self) -> bool;

    /// The sequence of elements this generator produces.
    spec fn contents(&self) -> Seq<i64>;

    /// The number of elements.
    fn len(&self) -> (r: usize)
        ensures
            r == self.contents().len(),
    ;

    /// Produce the element at `index`. Defined exactly on `0 .. len()`.
    fn gen(&self, index: usize) -> (r: i64)
        requires
            self.wf(),
            index < self.contents().len(),
        ensures
            r == self.contents()[index as int],
    ;

    /// Whether the generator holds no element at all.
    fn is_empty(&self) -> (r: bool)
        ensures
            r == (self.contents().len() == 0),
    {
        self.len() == 0
    }
}

/// Capability marker: the generator is known to hold at least one element
/// whenever it is well-formed.
pub trait NonEmptyGenerator: DiscreteGenerator {
    /// The capability proof: well-formedness carries non-emptiness.
    proof fn nonempty_obligation(&self)
        requires
            self.wf(),
        ensures
            self.contents().len() >= 1,
    ;

    /// The first element.
    fn first(&self) -> (r: i64)
        requires
            self.wf(),
        ensures
            self.contents().len() >= 1,
            r == self.contents()[0],
    {
        proof {
            self.nonempty_obligation();
        }
        self.gen(0)
    }

    /// The last element.
    fn last(&self) -> (r: i64)
        requires
            self.wf(),
        ensures
            self.contents().len() >= 1,
            r == self.contents()[self.contents().len() - 1],
    {
        proof {
            self.nonempty_obligation();
        }
        let n = self.len();
        self.gen(n - 1)
    }
}

/// Capability marker: the generated elements are known to be non-strictly
/// increasing whenever the generator is well-formed.
pub trait SortedGenerator: DiscreteGenerator {
    /// The capability proof: well-formedness carries sortedness.
    proof fn sorted_obligation(&self)
        requires
            self.wf(),
        ensures
            is_sorted(self.contents()),
    ;
}

/// A finite, non-empty list of sorted elements: the home of the bound-finding
/// operations.
///
/// Every operation requires the generator to be well-formed, which — through
/// the two capability markers — carries non-emptiness and sortedness. The
/// generic bodies run a binary search; a specialization may override
/// `upper_border_with_factor` with constant-time arithmetic, and the shared
/// contract forces the override to return exactly what the generic search
/// returns.
pub trait SortedList: NonEmptyGenerator + SortedGenerator {
    /// Find the biggest index whose element is still smaller than or equal to
    /// `element`, clamped to `[0, len - 1]`.
    ///
    /// On a run of duplicates equal to `element` this is the last duplicate's
    /// index; if every element is bigger, it is `0`; if every element is
    /// smaller, it is `len - 1`. As equality is allowed, the counterpart
    /// `upper_bound` can return a smaller index than this function.
    fn lower_bound(&self, element: i64) -> (r: usize)
        requires
            self.wf(),
        ensures
            r as int == lower_bound_spec(self.contents(), element),
            r < self.contents().len(),
            r == 0 || self.contents()[r as int] <= element,
            forall|j: int| r < j < self.contents().len() ==> self.contents()[j] > element,
    {
        proof {
            self.nonempty_obligation();
            self.sorted_obligation();
            lemma_count_le_partition(self.contents(), element);
        }
        let n = self.len();
        if self.last() <= element {
            return n - 1;
        }
        if n == 1 {
            return 0;
        }
        let b = self.upper_border(element);
        b[0]
    }

    /// Find the smallest index whose element is still bigger than or equal to
    /// `element`, clamped to `[0, len - 1]`.
    ///
    /// On a run of duplicates equal to `element` this is the first duplicate's
    /// index; if every element is bigger, it is `0`; if every element is
    /// smaller, it is `len - 1`. As equality is allowed, the counterpart
    /// `lower_bound` can return a bigger index than this function.
    fn upper_bound(&self, element: i64) -> (r: usize)
        requires
            self.wf(),
        ensures
            r as int == upper_bound_spec(self.contents(), element),
            r < self.contents().len(),
            r as int == self.contents().len() - 1 || self.contents()[r as int] >= element,
            forall|j: int| 0 <= j < r ==> self.contents()[j] < element,
    {
        proof {
            self.nonempty_obligation();
            self.sorted_obligation();
            lemma_count_lt_partition(self.contents(), element);
        }
        if self.first() >= element {
            return 0;
        }
        let n = self.len();
        if n == 1 {
            return 0;
        }
        let b = self.lower_border(element);
        b[1]
    }

    /// The number of elements `<=` `element`: the smallest index whose element
    /// is strictly bigger, or `len` when every element is `<=` `element`.
    ///
    /// Where a bracket exists this equals `upper_border(element)[1]`; at the
    /// all-bigger edge it returns `0` where `upper_border` returns `1`, and at
    /// the all-smaller edge it returns `len` where `upper_border` returns
    /// `len - 1`.
    fn strict_upper_bound(&self, element: i64) -> (r: usize)
        requires
            self.wf(),
        ensures
            r as int == strict_upper_bound_spec(self.contents(), element),
            r <= self.contents().len(),
            forall|j: int| 0 <= j < r ==> self.contents()[j] <= element,
            forall|j: int| r <= j < self.contents().len() ==> self.contents()[j] > element,
    {
        proof {
            self.sorted_obligation();
        }
        let ghost s = self.contents();
        let mut pointer: usize = 0;
        let mut count: usize = self.len();
        while count > 0
            invariant
                self.wf(),
                s == self.contents(),
                is_sorted(s),
                s.len() <= usize::MAX,
                pointer + count <= s.len(),
                forall|j: int| 0 <= j < pointer ==> s[j] <= element,
                forall|j: int| pointer + count <= j < s.len() ==> s[j] > element,
            decreases count,
        {
            let step = count / 2;
            let sample = pointer + step;
            if element >= self.gen(sample) {
                assert forall|j: int| 0 <= j < sample + 1 implies s[j] <= element by {
                    assert(s[j] <= s[sample as int]);
                }
                pointer = sample + 1;
                count = count - (step + 1);
            } else {
                assert forall|j: int| pointer + step <= j < s.len() implies s[j] > element by {
                    assert(s[sample as int] <= s[j]);
                }
                count = step;
            }
        }
        proof {
            lemma_count_le_from_partition(s, element, pointer as int);
        }
        pointer
    }

    /// The largest index whose element is strictly smaller than `element`, or
    /// `0` when every element is `>=` `element`.
    ///
    /// Where a bracket exists this equals `lower_border(element)[0]`; at the
    /// all-smaller edge it returns `len - 1` where `lower_border` returns
    /// `len - 2`.
    fn strict_lower_bound(&self, element: i64) -> (r: usize)
        requires
            self.wf(),
        ensures
            r as int == strict_lower_bound_spec(self.contents(), element),
            r < self.contents().len(),
            r == 0 || self.contents()[r as int] < element,
            forall|j: int| r < j < self.contents().len() ==> self.contents()[j] >= element,
    {
        proof {
            self.nonempty_obligation();
            self.sorted_obligation();
        }
        let ghost s = self.contents();
        let mut pointer: usize = 0;
        let mut count: usize = self.len();
        while count > 0
            invariant
                self.wf(),
                s == self.contents(),
                is_sorted(s),
                s.len() <= usize::MAX,
                pointer + count <= s.len(),
                forall|j: int| 0 <= j < pointer ==> s[j] < element,
                forall|j: int| pointer + count <= j < s.len() ==> s[j] >= element,
            decreases count,
        {
            let step = count / 2;
            let sample = pointer + step;
            if element > self.gen(sample) {
                assert forall|j: int| 0 <= j < sample + 1 implies s[j] < element by {
                    assert(s[j] <= s[sample as int]);
                }
                pointer = sample + 1;
                count = count - (step + 1);
            } else {
                assert forall|j: int| pointer + step <= j < s.len() implies s[j] >= element by {
                    assert(s[sample as int] <= s[j]);
                }
                count = step;
            }
        }
        proof {
            lemma_count_lt_from_partition(s, element, pointer as int);
        }
        if pointer == 0 {
            0
        } else {
            pointer - 1
        }
    }

    /// Find the bracket `[min_index, min_index + 1]` around `element`, biased
    /// toward later indices: on a run of duplicates equal to `element` the
    /// smaller index points at the last duplicate.
    ///
    /// If `element` is smaller than every element the bracket is `[0, 1]`; if
    /// it is bigger than every element the bracket is `[len - 2, len - 1]`.
    /// A bracket needs two distinct indices, so the sequence must hold at
    /// least two elements.
    fn upper_border(&self, element: i64) -> (r: [usize; 2])
        requires
            self.wf(),
            self.contents().len() >= 2,
        ensures
            r[0] as int == upper_border_min_spec(self.contents(), element),
            r[1] == r[0] + 1,
            r[1] < self.contents().len(),
            r[0] == 0 || self.contents()[r[0] as int] <= element,
            r[1] as int == self.contents().len() - 1 || element < self.contents()[r[1] as int],
    {
        proof {
            self.sorted_obligation();
        }
        let ghost s = self.contents();
        let mut min_index: usize = 0;
        let mut max_index: usize = self.len() - 1;
        while max_index - min_index > 1
            invariant
                self.wf(),
                s == self.contents(),
                is_sorted(s),
                s.len() >= 2,
                min_index < max_index,
                max_index < s.len(),
                min_index == 0 || s[min_index as int] <= element,
                max_index as int == s.len() - 1 || element < s[max_index as int],
            decreases max_index - min_index,
        {
            let index = min_index + (max_index - min_index) / 2;
            let sample = self.gen(index);
            if element < sample {
                max_index = index;
            } else {
                min_index = index;
            }
        }
        proof {
            lemma_upper_border_char(s, element, min_index as int);
        }
        [min_index, max_index]
    }

    /// Find the bracket around `element` together with the factor locating
    /// `element` between the two bracketing elements, `0` at the smaller index
    /// and `1` at the bigger one.
    ///
    /// The factor is returned as an exact fraction; its denominator is the
    /// distance between the two bracketing elements and is `0` exactly when
    /// they are equal, the degenerate bracket a caller must handle before
    /// dividing. A specialization may compute the same triple in constant
    /// time.
    fn upper_border_with_factor(&self, element: i64) -> (r: (usize, usize, Frac))
        requires
            self.wf(),
            self.contents().len() >= 2,
        ensures
            r.0 as int == upper_border_min_spec(self.contents(), element),
            r.1 == r.0 + 1,
            r.1 < self.contents().len(),
            r.2.num == element - self.contents()[r.0 as int],
            r.2.den == self.contents()[r.1 as int] - self.contents()[r.0 as int],
    {
        let b = self.upper_border(element);
        let f = self.factor(b[0], b[1], element);
        (b[0], b[1], f)
    }

    /// Calculate the factor of `element` between the elements at `min_index`
    /// and `max_index`: the weight a linear interpolation of the two elements
    /// needs to reproduce `element`.
    ///
    /// The fraction is exact; it is the caller's responsibility to handle a
    /// zero denominator, which arises exactly when both elements are equal.
    fn factor(&self, min_index: usize, max_index: usize, element: i64) -> (r: Frac)
        requires
            self.wf(),
            min_index < self.contents().len(),
            max_index < self.contents().len(),
        ensures
            r.num == element - self.contents()[min_index as int],
            r.den == self.contents()[max_index as int] - self.contents()[min_index as int],
    {
        let max = self.gen(max_index);
        let min = self.gen(min_index);
        Frac { num: element as i128 - min as i128, den: max as i128 - min as i128 }
    }

    /// Find the bracket `[min_index, min_index + 1]` around `element`, biased
    /// toward earlier indices: on a run of duplicates equal to `element` the
    /// bigger index points at the first duplicate.
    ///
    /// If `element` is smaller than every element the bracket is `[0, 1]`; if
    /// it is bigger than every element the bracket is `[len - 2, len - 1]`.
    /// A bracket needs two distinct indices, so the sequence must hold at
    /// least two elements.
    fn lower_border(&self, element: i64) -> (r: [usize; 2])
        requires
            self.wf(),
            self.contents().len() >= 2,
        ensures
            r[0] as int == lower_border_min_spec(self.contents(), element),
            r[1] == r[0] + 1,
            r[1] < self.contents().len(),
            r[0] == 0 || self.contents()[r[0] as int] < element,
            r[1] as int == self.contents().len() - 1 || element <= self.contents()[r[1] as int],
    {
        proof {
            self.sorted_obligation();
        }
        let ghost s = self.contents();
        let mut min_index: usize = 0;
        let mut max_index: usize = self.len() - 1;
        while max_index - min_index > 1
            invariant
                self.wf(),
                s == self.contents(),
                is_sorted(s),
                s.len() >= 2,
                min_index < max_index,
                max_index < s.len(),
                min_index == 0 || s[min_index as int] < element,
                max_index as int == s.len() - 1 || element <= s[max_index as int],
            decreases max_index - min_index,
        {
            let index = min_index + (max_index - min_index) / 2;
            let sample = self.gen(index);
            if element > sample {
                min_index = index;
            } else {
                max_index = index;
            }
        }
        proof {
            lemma_lower_border_char(s, element, min_index as int);
        }
        [min_index, max_index]
    }
}

/// Wrapper granting the non-emptiness capability to a generator.
///
/// Produced either by the checked constructor [`NonEmpty::new`] or by the
/// unchecked escape hatch [`NonEmpty::new_unchecked`]; in the latter case the
/// wrapper of an empty generator is simply not well-formed, so no
/// capability-requiring operation is available on it.
#[derive(Clone, Copy, Debug)]
pub struct NonEmpty<C>(C);

impl<C: DiscreteGenerator> NonEmpty<C> {
    /// Returns the wrapped collection if it is non-empty, otherwise `None`.
    pub fn new(col: C) -> (r: Option<NonEmpty<C>>)
        ensures
            r is Some <==> col.contents().len() >= 1,
            r matches Some(w) ==> {
                &&& w.contents() == col.contents()
                &&& (w.wf() <==> col.wf())
            },
    {
        if col.is_empty() {
            return None;
        }
        Some(NonEmpty(col))
    }

    /// Wraps a collection without checking that it is non-empty.
    ///
    /// Wrapping an empty collection is not unsound: the wrapper is merely not
    /// well-formed, and every capability-requiring operation demands
    /// well-formedness.
    pub fn new_unchecked(col: C) -> (r: NonEmpty<C>)
        ensures
            r.contents() == col.contents(),
            r.wf() <==> col.wf() && col.contents().len() >= 1,
    {
        NonEmpty(col)
    }

    /// Returns the inner collection.
    pub fn get(self) -> (r: C)
        ensures
            r.contents() == self.contents(),
            self.wf() <==> r.wf() && r.contents().len() >= 1,
    {
        self.0
    }
}

impl<C: DiscreteGenerator> DiscreteGenerator for NonEmpty<C> {
    closed spec fn wf(&self) -> bool {
        self.0.wf() && self.0.contents().len() >= 1
    }

    closed spec fn contents(&self) -> Seq<i64> {
        self.0.contents()
    }

    fn len(&self) -> (r: usize) {
        self.0.len()
    }

    fn gen(&self, index: usize) -> (r: i64) {
        self.0.gen(index)
    }
}

impl<C: DiscreteGenerator> NonEmptyGenerator for NonEmpty<C> {
    proof fn nonempty_obligation(&self) {
    }
}

impl<C: SortedGenerator> SortedGenerator for NonEmpty<C> {
    proof fn sorted_obligation(&self) {
        self.0.sorted_obligation();
    }
}

/// Wrapper granting the sortedness capability to a generator.
///
/// Produced either by the checked constructor [`Sorted::new`] or by the
/// unchecked escape hatch [`Sorted::new_unchecked`]; in the latter case the
/// wrapper of an unsorted generator is simply not well-formed.
#[derive(Clone, Copy, Debug)]
pub struct Sorted<C>(C);

impl<C: DiscreteGenerator> Sorted<C> {
    /// Returns the wrapped collection if its elements are non-strictly
    /// increasing, otherwise `None`. An empty collection is trivially sorted.
    pub fn new(col: C) -> (r: Option<Sorted<C>>)
        requires
            col.wf(),
        ensures
            r is Some <==> is_sorted(col.contents()),
            r matches Some(w) ==> {
                &&& w.contents() == col.contents()
                &&& w.wf()
            },
    {
        if col.is_empty() {
            return Some(Sorted(col));
        }
        let ghost s = col.contents();
        let n = col.len();
        let mut last = col.gen(0);
        let mut i: usize = 1;
        while i < n
            invariant
                col.wf(),
                s == col.contents(),
                1 <= i <= n,
                n == s.len(),
                last == s[i - 1],
                forall|a: int, b: int| 0 <= a <= b < i ==> s[a] <= s[b],
            decreases n - i,
        {
            let current = col.gen(i);
            if !(last <= current) {
                proof {
                    if is_sorted(s) {
                        assert(s[i - 1] <= s[i as int]);
                    }
                }
                return None;
            }
            assert forall|a: int, b: int| 0 <= a <= b < i + 1 implies s[a] <= s[b] by {
                if b == i && a < i {
                    assert(s[a] <= s[i - 1]);
                }
            }
            last = current;
            i = i + 1;
        }
        Some(Sorted(col))
    }

    /// Wraps a collection without checking that it is sorted.
    ///
    /// Wrapping an unsorted collection is not unsound: the wrapper is merely
    /// not well-formed, and every capability-requiring operation demands
    /// well-formedness.
    pub fn new_unchecked(col: C) -> (r: Sorted<C>)
        ensures
            r.contents() == col.contents(),
            r.wf() <==> col.wf() && is_sorted(col.contents()),
    {
        Sorted(col)
    }
}

impl<C: DiscreteGenerator> DiscreteGenerator for Sorted<C> {
    closed spec fn wf(&self) -> bool {
        self.0.wf() && is_sorted(self.0.contents())
    }

    closed spec fn contents(&self) -> Seq<i64> {
        self.0.contents()
    }

    fn len(&self) -> (r: usize) {
        self.0.len()
    }

    fn gen(&self, index: usize) -> (r: i64) {
        self.0.gen(index)
    }
}

impl<C: DiscreteGenerator> SortedGenerator for Sorted<C> {
    proof fn sorted_obligation(&self) {
    }
}

impl<C: NonEmptyGenerator> NonEmptyGenerator for Sorted<C> {
    proof fn nonempty_obligation(&self) {
        self.0.nonempty_obligation();
    }
}

impl<C: DiscreteGenerator> SortedList for Sorted<NonEmpty<C>> {
}

impl<C: DiscreteGenerator> SortedList for NonEmpty<Sorted<C>> {
}

/// Generator for equidistant elements: an arithmetic progression starting at
/// `offset` with a positive common difference `step`. Acts like an array of
/// knots without storing one.
///
/// It is statically sorted and non-empty: an analytic fact carried by its
/// well-formedness, not a runtime check.
#[derive(Clone, Copy, Debug)]
pub struct Equidistant {
    len: usize,
    step: i64,
    offset: i64,
}

impl Equidistant {
    /// Create a generator for `len` equidistant knots placed at the indices
    /// themselves: `0, 1, ..., len - 1`, the unit-scale image of the
    /// normalized range.
    ///
    /// A step needs at least two knots, and every knot must be representable.
    pub fn normalized(len: usize) -> (r: Equidistant)
        requires
            len >= 2,
            len - 1 <= i64::MAX,
        ensures
            r.wf(),
            r.contents().len() == len,
            forall|i: int| 0 <= i < len ==> r.contents()[i] == i,
    {
        let r = Equidistant { len, step: 1, offset: 0 };
        proof {
            lemma_equidistant_contents(r);
        }
        r
    }

    /// Create a generator for `len` equidistant knots running from `start` to
    /// `end` inclusive, with `step = (end - start) / (len - 1)`.
    ///
    /// A step needs at least two knots and a strictly increasing range; with
    /// integer knots the span must divide evenly into the `len - 1` gaps and
    /// the step must be representable.
    pub fn new(start: i64, end: i64, len: usize) -> (r: Equidistant)
        requires
            len >= 2,
            start < end,
            (end - start) % (len - 1) == 0,
            (end - start) / (len - 1) <= i64::MAX,
        ensures
            r.wf(),
            r.contents().len() == len,
            forall|i: int|
                0 <= i < len ==> r.contents()[i] == start + i * ((end - start) / (len - 1)),
            r.contents()[0] == start,
            r.contents()[len - 1] == end,
    {
        let span = (end as i128 - start as i128) as u128;
        let gaps = (len - 1) as u128;
        let step_wide = span / gaps;
        proof {
            vstd::arithmetic::div_mod::lemma_fundamental_div_mod(end - start, len - 1);
            assert(span == end - start);
            assert(gaps == len - 1);
            assert(step_wide == (end - start) / (len - 1));
            assert((len - 1) * (step_wide as int) == end - start);
            assert(step_wide >= 1) by {
                vstd::arithmetic::mul::lemma_mul_basics(len - 1);
            }
        }
        let step = step_wide as i64;
        let r = Equidistant { len, step, offset: start };
        proof {
            lemma_equidistant_contents(r);
        }
        r
    }
}

impl DiscreteGenerator for Equidistant {
    closed spec fn wf(&self) -> bool {
        &&& self.len >= 1
        &&& self.step >= 1
        &&& self.offset + (self.len - 1) * self.step <= i64::MAX
    }

    closed spec fn contents(&self) -> Seq<i64> {
        Seq::new(self.len as nat, |i: int| (self.offset + i * self.step) as i64)
    }

    fn len(&self) -> (r: usize) {
        self.len
    }

    fn gen(&self, index: usize) -> (r: i64) {
        proof {
            lemma_equidistant_contents(*self);
            vstd::arithmetic::mul::lemma_mul_inequality(index as int, self.len - 1, self.step as int);
            vstd::arithmetic::mul::lemma_mul_nonnegative(index as int, self.step as int);
        }
        let value = self.offset as i128 + index as i128 * self.step as i128;
        value as i64
    }
}

/// Every element of a well-formed equidistant generator is the exact
/// progression value `offset + i * step`, and the progression is sorted.
proof fn lemma_equidistant_contents(e: Equidistant)
    requires
        e.wf(),
    ensures
        forall|i: int| 0 <= i < e.len ==> e.contents()[i] == e.offset + i * e.step,
        is_sorted(e.contents()),
{
    assert forall|i: int| 0 <= i < e.len implies e.contents()[i] == e.offset + i * e.step by {
        vstd::arithmetic::mul::lemma_mul_inequality(i, e.len - 1, e.step as int);
        vstd::arithmetic::mul::lemma_mul_nonnegative(i, e.step as int);
    }
    assert forall|i: int, j: int|
        0 <= i <= j < e.contents().len() implies e.contents()[i] <= e.contents()[j] by {
        vstd::arithmetic::mul::lemma_mul_inequality(i, j, e.step as int);
    }
}

/// The count of progression elements `<=` the query has a closed form: none
/// when the query lies below the offset, otherwise one more than the number of
/// whole steps the query lies above the offset, capped at the length.
proof fn lemma_equidistant_count_le(e: Equidistant, q: i64)
    requires
        e.wf(),
    ensures
        count_le(e.contents(), q) == if q < e.offset {
            0int
        } else if (q - e.offset) / (e.step as int) + 1 >= e.len {
            e.len as int
        } else {
            (q - e.offset) / (e.step as int) + 1
        },
{
    lemma_equidistant_contents(e);
    let s = e.contents();
    if q < e.offset {
        assert forall|i: int| 0 <= i < s.len() implies !(s[i] <= q) by {
            vstd::arithmetic::mul::lemma_mul_nonnegative(i, e.step as int);
        }
        lemma_count_le_from_partition(s, q, 0);
    } else {
        let d = q - e.offset;
        let t = d / (e.step as int);
        vstd::arithmetic::div_mod::lemma_remainder(d, e.step as int);
        vstd::arithmetic::div_mod::lemma_div_pos_is_pos(d, e.step as int);
        let c = if t + 1 >= e.len {
            e.len as int
        } else {
            t + 1
        };
        assert forall|i: int| 0 <= i < c implies s[i] <= q by {
            vstd::arithmetic::mul::lemma_mul_inequality(i, t, e.step as int);
        }
        assert forall|i: int| c <= i < s.len() implies !(s[i] <= q) by {
            vstd::arithmetic::mul::lemma_mul_inequality(t + 1, i, e.step as int);
            assert((t + 1) * e.step == t * e.step + e.step) by (nonlinear_arith);
        }
        lemma_count_le_from_partition(s, q, c);
    }
}

impl NonEmptyGenerator for Equidistant {
    proof fn nonempty_obligation(&self) {
    }
}

impl SortedGenerator for Equidistant {
    proof fn sorted_obligation(&self) {
        lemma_equidistant_contents(*self);
    }
}

impl SortedList for Equidistant {
    /// The constant-time specialization: the bracket start is the number of
    /// whole steps the query lies above the offset, clamped into the bracket
    /// range, and the factor's numerator is the remainder of that division.
    fn upper_border_with_factor(&self, element: i64) -> (r: (usize, usize, Frac)) {
        proof {
            lemma_equidistant_contents(*self);
            lemma_equidistant_count_le(*self, element);
        }
        let min_index: usize = if element < self.offset {
            0
        } else {
            let d = (element as i128 - self.offset as i128) as u128;
            let idx = d / (self.step as u128);
            if idx >= (self.len - 2) as u128 {
                self.len - 2
            } else {
                idx as usize
            }
        };
        let max_index = min_index + 1;
        let f = self.factor(min_index, max_index, element);
        (min_index, max_index, f)
    }
}

/// Generator for equidistant knots that stores nothing but its length and
/// yields the index itself as knot value.
///
/// It is the deferred-arithmetic counterpart of [`Equidistant::normalized`]:
/// where the normalized range `[0, 1]` is meant, the division by `len - 1` is
/// left to the consumer instead of being folded into the stored knots. It is
/// statically sorted; non-emptiness is supplied by wrapping it in
/// [`NonEmpty`].
#[derive(Clone, Copy, Debug)]
pub struct ConstEquidistant {
    len: usize,
}

impl ConstEquidistant {
    /// Create a list of `len` equidistant knots, one at each index.
    pub fn new(len: usize) -> (r: ConstEquidistant)
        requires
            len <= i64::MAX,
        ensures
            r.wf(),
            r.contents().len() == len,
            forall|i: int| 0 <= i < len ==> r.contents()[i] == i,
    {
        ConstEquidistant { len }
    }
}

impl DiscreteGenerator for ConstEquidistant {
    closed spec fn wf(&self) -> bool {
        self.len <= i64::MAX
    }

    closed spec fn contents(&self) -> Seq<i64> {
        Seq::new(self.len as nat, |i: int| i as i64)
    }

    fn len(&self) -> (r: usize) {
        self.len
    }

    fn gen(&self, index: usize) -> (r: i64) {
        index as i64
    }
}

impl SortedGenerator for ConstEquidistant {
    proof fn sorted_obligation(&self) {
    }
}

/// The count of index knots `<=` the query has a closed form: the query plus
/// one, clamped into `[0, len]`.
proof fn lemma_const_equidistant_count_le(g: ConstEquidistant, q: i64)
    requires
        g.wf(),
    ensures
        count_le(g.contents(), q) == if q < 0 {
            0int
        } else if q + 1 >= g.len {
            g.len as int
        } else {
            q + 1
        },
{
    let s = g.contents();
    let c = if q < 0 {
        0int
    } else if q + 1 >= g.len {
        g.len as int
    } else {
        q + 1
    };
    lemma_count_le_from_partition(s, q, c);
}

impl SortedList for NonEmpty<ConstEquidistant> {
    /// The constant-time specialization: the query itself is the bracket
    /// start, clamped into the bracket range, and the factor's numerator is
    /// the query's distance from that knot.
    fn upper_border_with_factor(&self, element: i64) -> (r: (usize, usize, Frac)) {
        proof {
            lemma_const_equidistant_count_le(self.0, element);
        }
        let n = self.0.len;
        let min_index: usize = if element < 0 {
            0
        } else if element >= (n - 2) as i64 {
            n - 2
        } else {
            element as usize
        };
        let max_index = min_index + 1;
        let f = self.factor(min_index, max_index, element);
        (min_index, max_index, f)
    }
}

impl DiscreteGenerator for Vec<i64> {
    open spec fn wf(&self) -> bool {
        true
    }

    open spec fn contents(&self) -> Seq<i64> {
        self@
    }

    fn len(&self) -> (r: usize) {
        self.len()
    }

    fn gen(&self, index: usize) -> (r: i64) {
        self[index]
    }
}

} // verus!
