//! The [`Spectrogram`] type: a time × frequency matrix.
//!
//! A spectrogram stores one value per image column (time) and frequency bin,
//! in column-major order: the value of column `col` and bin `bin` is at
//! `col * TOTAL_BINS + bin`.  Bin 0 is the highest frequency (top of the
//! image), bin `TOTAL_BINS - 1` the lowest.
//!
//! The value type is generic.  The integer pipeline of this crate works with
//! 8-bit ink levels (`0` = silence / white paper, `255` = maximum amplitude /
//! black ink), which map to amplitudes by `amplitude = ink / 255`.

use vstd::prelude::*;

use crate::format::TOTAL_BINS;

verus! {

/// A 2D matrix with one value per time column and frequency bin.
#[derive(Debug)]
pub struct Spectrogram<T> {
    /// Number of time columns.
    num_columns: usize,
    /// Values in column-major order: `data[col * TOTAL_BINS + bin]`.
    data: Vec<T>,
}

impl<T> Spectrogram<T> {
    #[verifier::type_invariant]
    spec fn well_formed(self) -> bool {
        self.data@.len() == self.num_columns * TOTAL_BINS
    }

    /// Number of time columns.
    pub closed spec fn spec_num_columns(&self) -> nat {
        self.num_columns as nat
    }

    /// All values, column-major.
    pub closed spec fn values(&self) -> Seq<T> {
        self.data@
    }

    /// The value at column `col` and bin `bin`.
    pub open spec fn at(&self, col: int, bin: int) -> T {
        self.values()[col * TOTAL_BINS + bin]
    }

    /// Wrap an existing storage buffer as a spectrogram.
    ///
    /// Returns `None` if `data.len() != num_columns * TOTAL_BINS`.
    pub fn from_storage(num_columns: usize, data: Vec<T>) -> (r: Option<Self>)
        ensures
            r is Some <==> data@.len() == num_columns * TOTAL_BINS,
            r matches Some(s) ==> s.spec_num_columns() == num_columns && s.values() == data@,
    {
        if (data.len() as u128) != (num_columns as u128) * 384 {
            return None;
        }
        Some(Spectrogram { num_columns, data })
    }

    /// The number of time columns (image width of the data area).
    pub fn num_columns(&self) -> (r: usize)
        ensures
            r == self.spec_num_columns(),
            self.values().len() == r * TOTAL_BINS,
    {
        proof {
            use_type_invariant(self);
        }
        self.num_columns
    }

    /// The slice of values of a given time column, or `None` if `col` is
    /// out of range.  The slice has length [`TOTAL_BINS`], index 0 being the
    /// highest frequency.
    pub fn column(&self, col: usize) -> (r: Option<&[T]>)
        ensures
            r is Some <==> col < self.spec_num_columns(),
            r matches Some(c) ==> c@ == self.values().subrange(
                col * TOTAL_BINS,
                col * TOTAL_BINS + TOTAL_BINS,
            ),
    {
        proof {
            use_type_invariant(self);
        }
        let len = self.data.len();
        if col < self.num_columns {
            proof {
                assert(col * TOTAL_BINS + TOTAL_BINS <= len) by (nonlinear_arith)
                    requires
                        col < self.num_columns,
                        len == self.num_columns * TOTAL_BINS,
                ;
            }
            let start = col * TOTAL_BINS;
            Some(vstd::slice::slice_subrange(self.data.as_slice(), start, start + TOTAL_BINS))
        } else {
            None
        }
    }

    /// The slice of values of a given time column.
    pub fn column_or_panic(&self, col: usize) -> (r: &[T])
        requires
            col < self.spec_num_columns(),
        ensures
            r@ == self.values().subrange(col * TOTAL_BINS, col * TOTAL_BINS + TOTAL_BINS),
    {
        proof {
            use_type_invariant(self);
        }
        let len = self.data.len();
        proof {
            assert(col * TOTAL_BINS + TOTAL_BINS <= len) by (nonlinear_arith)
                requires
                    col < self.num_columns,
                    len == self.num_columns * TOTAL_BINS,
            ;
        }
        let start = col * TOTAL_BINS;
        vstd::slice::slice_subrange(self.data.as_slice(), start, start + TOTAL_BINS)
    }

    /// Store `value` at a specific time column and frequency bin.
    ///
    /// Does nothing if the indices are out of range.
    pub fn set(&mut self, col: usize, bin: usize, value: T)
        ensures
            final(self).spec_num_columns() == old(self).spec_num_columns(),
            col < old(self).spec_num_columns() && bin < TOTAL_BINS ==> final(self).values()
                == old(self).values().update(col * TOTAL_BINS + bin, value),
            !(col < old(self).spec_num_columns() && bin < TOTAL_BINS) ==> final(self).values()
                == old(self).values(),
    {
        proof {
            use_type_invariant(&*self);
        }
        let len = self.data.len();
        if col < self.num_columns && bin < TOTAL_BINS {
            proof {
                assert(col * TOTAL_BINS + bin < len) by (nonlinear_arith)
                    requires
                        col < self.num_columns,
                        bin < TOTAL_BINS,
                        len == self.num_columns * TOTAL_BINS,
                ;
            }
            let mut taken = Spectrogram { num_columns: 0, data: Vec::new() };
            std::mem::swap(&mut taken, self);
            let Spectrogram { num_columns, mut data } = taken;
            data.set(col * TOTAL_BINS + bin, value);
            *self = Spectrogram { num_columns, data };
        }
    }
}

impl<T: Copy> Spectrogram<T> {
    /// A spectrogram with `num_columns` time columns, every value `fill`.
    fn filled(num_columns: usize, fill: T) -> (r: Self)
        requires
            num_columns * TOTAL_BINS <= usize::MAX,
        ensures
            r.spec_num_columns() == num_columns,
            r.values().len() == num_columns * TOTAL_BINS,
            forall|i: int| 0 <= i < r.values().len() ==> #[trigger] r.values()[i] == fill,
    {
        let n = num_columns * TOTAL_BINS;
        let mut data: Vec<T> = Vec::new();
        while data.len() < n
            invariant
                data@.len() <= n,
                forall|i: int| 0 <= i < data@.len() ==> #[trigger] data@[i] == fill,
            decreases n - data@.len(),
        {
            data.push(fill);
        }
        Spectrogram { num_columns, data }
    }
}

impl<T: Copy + Default> Spectrogram<T> {
    /// Create a new, silent spectrogram with the given number of time columns:
    /// every value is `T::default()` (`0`, no ink, for ink levels).
    pub fn new(num_columns: usize) -> (r: Self)
        requires
            num_columns * TOTAL_BINS <= usize::MAX,
        ensures
            r.spec_num_columns() == num_columns,
            r.values().len() == num_columns * TOTAL_BINS,
            forall|i: int, j: int|
                0 <= i < r.values().len() && 0 <= j < r.values().len() ==> #[trigger] r.values()[i]
                    == #[trigger] r.values()[j],
            num_columns > 0 ==> call_ensures(T::default, (), r.values()[0]),
    {
        let zero = T::default();
        Self::filled(num_columns, zero)
    }

    /// The value at a specific time column and frequency bin.
    ///
    /// Returns `T::default()` (silence for ink levels) if either index is out
    /// of range.
    pub fn get(&self, col: usize, bin: usize) -> (r: T)
        ensures
            col < self.spec_num_columns() && bin < TOTAL_BINS ==> r == self.at(
                col as int,
                bin as int,
            ),
            !(col < self.spec_num_columns() && bin < TOTAL_BINS) ==> call_ensures(T::default, (), r),
    {
        proof {
            use_type_invariant(self);
        }
        let len = self.data.len();
        if col < self.num_columns && bin < TOTAL_BINS {
            proof {
                assert(col * TOTAL_BINS + bin < len) by (nonlinear_arith)
                    requires
                        col < self.num_columns,
                        bin < TOTAL_BINS,
                        len == self.num_columns * TOTAL_BINS,
                ;
            }
            self.data[col * TOTAL_BINS + bin]
        } else {
            T::default()
        }
    }
}

/// Writing a cell and reading it back: when the values of `after` are those
/// of `before` with cell `(col, bin)` set to `v` (what [`Spectrogram::set`]
/// does), that cell reads `v` and every other cell reads as before.
pub proof fn lemma_set_then_get<T>(
    before: &Spectrogram<T>,
    after: &Spectrogram<T>,
    col: int,
    bin: int,
    v: T,
)
    requires
        before.values().len() == before.spec_num_columns() * TOTAL_BINS,
        0 <= col < before.spec_num_columns(),
        0 <= bin < TOTAL_BINS,
        after.values() == before.values().update(col * TOTAL_BINS + bin, v),
    ensures
        after.at(col, bin) == v,
        forall|c: int, b: int|
            0 <= c < before.spec_num_columns() && 0 <= b < TOTAL_BINS && (c != col || b != bin)
                ==> #[trigger] after.at(c, b) == before.at(c, b),
{
    let n = before.spec_num_columns() as int;
    assert(col * TOTAL_BINS + bin < n * TOTAL_BINS) by (nonlinear_arith)
        requires
            0 <= col < n,
            0 <= bin < TOTAL_BINS,
    ;
    assert forall|c: int, b: int|
        0 <= c < n && 0 <= b < TOTAL_BINS && (c != col || b != bin) implies #[trigger] after.at(
        c,
        b,
    ) == before.at(c, b) by {
        assert(c * TOTAL_BINS + b < n * TOTAL_BINS && c * TOTAL_BINS + b != col * TOTAL_BINS
            + bin) by (nonlinear_arith)
            requires
                0 <= c < n,
                0 <= b < TOTAL_BINS,
                0 <= col < n,
                0 <= bin < TOTAL_BINS,
                c != col || b != bin,
        ;
    }
}

} // verus!
