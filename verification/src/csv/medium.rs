//! The resolution path for ambiguous input.
//!
//! A buffer may contain delimiter, quote or newline bytes that are literal
//! data rather than structure.  This module classifies bytes, keeps
//! per-column histograms over those classes with a heterogeneity score, and
//! searches over interpretations of the ambiguous quote candidates for one
//! whose row shape matches the target column count and whose total
//! heterogeneity is lowest.
//!
//! Limitations: whole columns must be quoted or unquoted, not mixed; either
//! a fixed column count is supplied, or the first row is presumed
//! well-formed and the count is inferred from it.

use vstd::prelude::*;
use vstd::arithmetic::div_mod::lemma_div_by_multiple;
use vstd::arithmetic::div_mod::lemma_div_is_ordered;
use vstd::arithmetic::div_mod::lemma_fundamental_div_mod;

verus! {

/// The number of semantic classes a byte may fall in.
pub const CLASS_COUNT: usize = 9;

/// Heterogeneity is reported in parts of this scale (two to the power 32).
pub const GINI_SCALE: u64 = 0x1_0000_0000;

/// The most bytes a column histogram may accumulate, chosen so that the
/// scaled heterogeneity arithmetic stays within 128 bits.
pub const MAX_COLUMN_BYTES: u64 = 0xFFFF_FFFF_FFFF;

/// The semantic class of one byte.  The solver looks for interpretations
/// under which each column is dominated by few classes, treating that as a
/// sign that the data is split correctly.
#[derive(Debug, Clone, Copy, PartialEq, Eq, Structural)]
pub enum CharacterClass {
    Digit,
    Letter,
    Punctuation,
    Whitespace,
    Quote,
    Delimiter,
    Tab,
    Newline,
    Other,
}

/// The class of a byte: total and pure, depending only on the byte value
/// and the configured delimiter byte.  Carriage return and line feed both
/// map to `Newline`; line-ending styles are not distinguished.
pub open spec fn spec_class_of(byte: u8, d: u8) -> CharacterClass {
    if byte == 34 {
        CharacterClass::Quote
    } else if byte == d {
        CharacterClass::Delimiter
    } else if byte == 9 {
        CharacterClass::Tab
    } else if byte == 10 || byte == 13 {
        CharacterClass::Newline
    } else if 48 <= byte && byte <= 57 {
        CharacterClass::Digit
    } else if (65 <= byte && byte <= 90) || (97 <= byte && byte <= 122) {
        CharacterClass::Letter
    } else if (33 <= byte && byte <= 47) || (58 <= byte && byte <= 64) || (91 <= byte && byte
        <= 96) || (123 <= byte && byte <= 126) {
        CharacterClass::Punctuation
    } else if byte == 32 || byte == 12 {
        CharacterClass::Whitespace
    } else {
        CharacterClass::Other
    }
}

/// The rank of a class in a column histogram.
pub open spec fn class_index(c: CharacterClass) -> int {
    match c {
        CharacterClass::Digit => 0,
        CharacterClass::Letter => 1,
        CharacterClass::Punctuation => 2,
        CharacterClass::Whitespace => 3,
        CharacterClass::Quote => 4,
        CharacterClass::Delimiter => 5,
        CharacterClass::Tab => 6,
        CharacterClass::Newline => 7,
        CharacterClass::Other => 8,
    }
}

impl CharacterClass {
    /// Classify one byte against the configured delimiter.
    pub fn from_byte(byte: u8, delimiter: u8) -> (c: CharacterClass)
        ensures
            c == spec_class_of(byte, delimiter),
    {
        if byte == 34 {
            CharacterClass::Quote
        } else if byte == delimiter {
            CharacterClass::Delimiter
        } else if byte == 9 {
            CharacterClass::Tab
        } else if byte == 10 || byte == 13 {
            CharacterClass::Newline
        } else if 48 <= byte && byte <= 57 {
            CharacterClass::Digit
        } else if (65 <= byte && byte <= 90) || (97 <= byte && byte <= 122) {
            CharacterClass::Letter
        } else if (33 <= byte && byte <= 47) || (58 <= byte && byte <= 64) || (91 <= byte && byte
            <= 96) || (123 <= byte && byte <= 126) {
            CharacterClass::Punctuation
        } else if byte == 32 || byte == 12 {
            CharacterClass::Whitespace
        } else {
            CharacterClass::Other
        }
    }

    /// The histogram rank of this class.
    pub fn index(self) -> (i: usize)
        ensures
            i as int == class_index(self),
            i < CLASS_COUNT,
    {
        match self {
            CharacterClass::Digit => 0,
            CharacterClass::Letter => 1,
            CharacterClass::Punctuation => 2,
            CharacterClass::Whitespace => 3,
            CharacterClass::Quote => 4,
            CharacterClass::Delimiter => 5,
            CharacterClass::Tab => 6,
            CharacterClass::Newline => 7,
            CharacterClass::Other => 8,
        }
    }
}

/// The sum of a histogram's counts.
pub open spec fn sum_counts(s: Seq<u64>) -> int
    decreases s.len(),
{
    if s.len() == 0 {
        0
    } else {
        sum_counts(s.drop_last()) + s.last()
    }
}

/// The sum of the squares of a histogram's counts.
pub open spec fn sum_squares(s: Seq<u64>) -> int
    decreases s.len(),
{
    if s.len() == 0 {
        0
    } else {
        sum_squares(s.drop_last()) + s.last() * s.last()
    }
}

/// How many bytes of `bytes` fall in the class of rank `k`, classified
/// against the delimiter `d`.
pub open spec fn count_class(bytes: Seq<u8>, d: u8, k: int) -> int
    decreases bytes.len(),
{
    if bytes.len() == 0 {
        0
    } else {
        count_class(bytes.drop_last(), d, k) + if class_index(
            spec_class_of(bytes.last(), d),
        ) == k {
            1int
        } else {
            0int
        }
    }
}

/// `count_class` over a sequence of byte runs.
pub open spec fn count_class_all(runs: Seq<Seq<u8>>, d: u8, k: int) -> int
    decreases runs.len(),
{
    if runs.len() == 0 {
        0
    } else {
        count_class_all(runs.drop_last(), d, k) + count_class(runs.last(), d, k)
    }
}

/// The total length of a sequence of byte runs.
pub open spec fn sum_len(runs: Seq<Seq<u8>>) -> int
    decreases runs.len(),
{
    if runs.len() == 0 {
        0
    } else {
        sum_len(runs.drop_last()) + runs.last().len()
    }
}

proof fn lemma_count_class_nonneg(bytes: Seq<u8>, d: u8, k: int)
    ensures
        0 <= count_class(bytes, d, k) <= bytes.len(),
    decreases bytes.len(),
{
    if bytes.len() > 0 {
        lemma_count_class_nonneg(bytes.drop_last(), d, k);
    }
}

proof fn lemma_sum_counts_nonneg(s: Seq<u64>)
    ensures
        sum_counts(s) >= 0,
    decreases s.len(),
{
    if s.len() > 0 {
        lemma_sum_counts_nonneg(s.drop_last());
    }
}

proof fn lemma_elem_le_sum(s: Seq<u64>, k: int)
    requires
        0 <= k < s.len(),
    ensures
        s[k] <= sum_counts(s),
    decreases s.len(),
{
    if k == s.len() - 1 {
        lemma_sum_counts_nonneg(s.drop_last());
    } else {
        lemma_elem_le_sum(s.drop_last(), k);
        assert(s.drop_last()[k] == s[k]);
    }
}

proof fn lemma_sum_counts_update(s: Seq<u64>, k: int, v: u64)
    requires
        0 <= k < s.len(),
    ensures
        sum_counts(s.update(k, v)) == sum_counts(s) - s[k] + v,
    decreases s.len(),
{
    let u = s.update(k, v);
    if k == s.len() - 1 {
        assert(u.drop_last() =~= s.drop_last());
    } else {
        assert(u.drop_last() =~= s.drop_last().update(k, v));
        lemma_sum_counts_update(s.drop_last(), k, v);
    }
}

proof fn lemma_sum_squares_update(s: Seq<u64>, k: int, v: u64)
    requires
        0 <= k < s.len(),
    ensures
        sum_squares(s.update(k, v)) == sum_squares(s) - s[k] * s[k] + v * v,
    decreases s.len(),
{
    let u = s.update(k, v);
    if k == s.len() - 1 {
        assert(u.drop_last() =~= s.drop_last());
    } else {
        assert(u.drop_last() =~= s.drop_last().update(k, v));
        lemma_sum_squares_update(s.drop_last(), k, v);
    }
}

/// Squares never outrun the square of the sum.
proof fn lemma_sum_squares_le_square(s: Seq<u64>)
    ensures
        0 <= sum_squares(s) <= sum_counts(s) * sum_counts(s),
    decreases s.len(),
{
    if s.len() == 0 {
    } else {
        let d = s.drop_last();
        let l = s.last() as int;
        lemma_sum_squares_le_square(d);
        lemma_sum_counts_nonneg(d);
        assert(sum_counts(d) * sum_counts(d) + l * l <= (sum_counts(d) + l) * (sum_counts(d) + l))
            by (nonlinear_arith)
            requires
                sum_counts(d) >= 0,
                l >= 0,
        ;
    }
}

/// Each count contributes at least itself to the squares.
proof fn lemma_sum_le_sum_squares(s: Seq<u64>)
    ensures
        sum_counts(s) <= sum_squares(s),
    decreases s.len(),
{
    if s.len() > 0 {
        let l = s.last() as int;
        lemma_sum_le_sum_squares(s.drop_last());
        assert(l <= l * l) by (nonlinear_arith)
            requires
                l >= 0,
        ;
    }
}

/// With every count at most `m`, the squares are at most `m` times the sum.
proof fn lemma_sum_squares_le_max_times_sum(s: Seq<u64>, m: int)
    requires
        forall|j: int| 0 <= j < s.len() ==> s[j] <= m,
        m >= 0,
    ensures
        sum_squares(s) <= m * sum_counts(s),
    decreases s.len(),
{
    if s.len() > 0 {
        let d = s.drop_last();
        let l = s.last() as int;
        assert(forall|j: int| 0 <= j < d.len() ==> d[j] == s[j]);
        lemma_sum_squares_le_max_times_sum(d, m);
        assert(l * l <= m * l) by (nonlinear_arith)
            requires
                0 <= l <= m,
        ;
        assert(m * sum_counts(d) + m * l == m * (sum_counts(d) + l)) by (nonlinear_arith);
    }
}

proof fn lemma_sum_counts_take_le(s: Seq<u64>, j: int)
    requires
        0 <= j <= s.len(),
    ensures
        sum_counts(s.take(j)) <= sum_counts(s),
    decreases s.len() - j,
{
    if j == s.len() {
        assert(s.take(j) =~= s);
    } else {
        assert(s.take(j + 1).drop_last() =~= s.take(j));
        assert(s.take(j + 1).last() == s[j]);
        lemma_sum_counts_take_le(s, j + 1);
    }
}

proof fn lemma_sum_len_take_le(s: Seq<Seq<u8>>, j: int)
    requires
        0 <= j <= s.len(),
    ensures
        sum_len(s.take(j)) <= sum_len(s),
    decreases s.len() - j,
{
    if j == s.len() {
        assert(s.take(j) =~= s);
    } else {
        assert(s.take(j + 1).drop_last() =~= s.take(j));
        assert(s.take(j + 1).last() == s[j]);
        lemma_sum_len_take_le(s, j + 1);
    }
}

/// A mutable per-column histogram over semantic classes.  Counts are exact:
/// the count of a class equals the number of bytes of that class ever added
/// minus those removed.
#[derive(Debug, Clone, PartialEq, Eq)]
pub struct ColumnComplexity {
    class_counts: Vec<u64>,
}

impl ColumnComplexity {
    /// The histogram's counts, by class rank.
    pub closed spec fn counts(self) -> Seq<u64> {
        self.class_counts@
    }

    /// Well-formed: one count per class, and few enough bytes that the
    /// heterogeneity arithmetic cannot overflow.
    pub open spec fn wf(self) -> bool {
        self.counts().len() == CLASS_COUNT && sum_counts(self.counts()) <= MAX_COLUMN_BYTES as int
    }

    /// An empty histogram.
    pub fn new() -> (r: Self)
        ensures
            r.wf(),
            r.counts() =~= Seq::new(CLASS_COUNT as nat, |i: int| 0u64),
            sum_counts(r.counts()) == 0,
    {
        let v: Vec<u64> = vec![0u64; 9];
        let r = ColumnComplexity { class_counts: v };
        proof {
            assert(r.counts() =~= Seq::new(CLASS_COUNT as nat, |i: int| 0u64));
            assert forall|j: int| 0 <= j <= 9 implies sum_counts(r.counts().take(j)) == 0 by {
                lemma_zero_prefix_sum(r.counts(), j);
            }
            assert(r.counts().take(9) =~= r.counts());
        }
        r
    }

    /// Record the bytes of one span into the histogram, classified against
    /// the delimiter.
    pub fn add_bytes(&mut self, bytes: &[u8], delimiter: u8)
        requires
            old(self).wf(),
            sum_counts(old(self).counts()) + bytes@.len() <= MAX_COLUMN_BYTES as int,
        ensures
            final(self).wf(),
            forall|k: int|
                0 <= k < CLASS_COUNT ==> final(self).counts()[k] == old(self).counts()[k]
                    + count_class(bytes@, delimiter, k),
            sum_counts(final(self).counts()) == sum_counts(old(self).counts()) + bytes@.len(),
    {
        let ghost orig = self.counts();
        proof {
            assert(bytes@.take(0) =~= Seq::<u8>::empty());
            lemma_sum_counts_nonneg(orig);
        }
        let mut i: usize = 0;
        while i < bytes.len()
            invariant
                i <= bytes@.len(),
                self.counts().len() == CLASS_COUNT,
                orig.len() == CLASS_COUNT,
                forall|k: int|
                    0 <= k < CLASS_COUNT ==> self.counts()[k] == orig[k] + count_class(
                        bytes@.take(i as int),
                        delimiter,
                        k,
                    ),
                sum_counts(self.counts()) == sum_counts(orig) + i,
                sum_counts(orig) + bytes@.len() <= MAX_COLUMN_BYTES as int,
                sum_counts(orig) >= 0,
            decreases bytes@.len() - i,
        {
            let b = bytes[i];
            let idx = CharacterClass::from_byte(b, delimiter).index();
            let cnt = self.class_counts[idx];
            proof {
                lemma_elem_le_sum(self.counts(), idx as int);
                assert(cnt as int <= sum_counts(orig) + i);
                assert(cnt as int + 1 <= MAX_COLUMN_BYTES as int);
            }
            let ghost before = self.counts();
            self.class_counts[idx] = cnt + 1;
            proof {
                lemma_sum_counts_update(before, idx as int, (cnt + 1) as u64);
                assert(bytes@.take(i + 1).drop_last() =~= bytes@.take(i as int));
                assert(bytes@.take(i + 1).last() == bytes@[i as int]);
                assert forall|k: int|
                    0 <= k < CLASS_COUNT implies self.counts()[k] == orig[k] + count_class(
                    bytes@.take(i + 1),
                    delimiter,
                    k,
                ) by {
                    lemma_count_class_nonneg(bytes@.take(i as int), delimiter, k);
                }
            }
            i = i + 1;
        }
        proof {
            assert(bytes@.take(i as int) =~= bytes@);
        }
    }

    /// Remove the bytes of one span from the histogram.  Removing bytes that
    /// were never added breaks the caller's bookkeeping and is excluded.
    pub fn remove_bytes(&mut self, bytes: &[u8], delimiter: u8)
        requires
            old(self).wf(),
            forall|k: int|
                0 <= k < CLASS_COUNT ==> count_class(bytes@, delimiter, k) <= old(
                    self,
                ).counts()[k],
        ensures
            final(self).wf(),
            forall|k: int|
                0 <= k < CLASS_COUNT ==> final(self).counts()[k] == old(self).counts()[k]
                    - count_class(bytes@, delimiter, k),
            sum_counts(final(self).counts()) == sum_counts(old(self).counts()) - bytes@.len(),
    {
        let ghost orig = self.counts();
        let mut i: usize = 0;
        while i < bytes.len()
            invariant
                i <= bytes@.len(),
                self.counts().len() == CLASS_COUNT,
                orig.len() == CLASS_COUNT,
                forall|k: int|
                    0 <= k < CLASS_COUNT ==> count_class(bytes@, delimiter, k) <= orig[k],
                forall|k: int|
                    0 <= k < CLASS_COUNT ==> self.counts()[k] == orig[k] - count_class(
                        bytes@.take(i as int),
                        delimiter,
                        k,
                    ),
                sum_counts(self.counts()) == sum_counts(orig) - i,
                sum_counts(orig) <= MAX_COLUMN_BYTES as int,
            decreases bytes@.len() - i,
        {
            let b = bytes[i];
            let idx = CharacterClass::from_byte(b, delimiter).index();
            let cnt = self.class_counts[idx];
            proof {
                assert(bytes@.take(i + 1).drop_last() =~= bytes@.take(i as int));
                assert(bytes@.take(i + 1).last() == bytes@[i as int]);
                lemma_count_class_prefix_le(bytes@, delimiter, i + 1, idx as int);
                assert(count_class(bytes@.take(i + 1), delimiter, idx as int) == count_class(
                    bytes@.take(i as int),
                    delimiter,
                    idx as int,
                ) + 1);
                assert(cnt >= 1);
            }
            let ghost before = self.counts();
            self.class_counts[idx] = cnt - 1;
            proof {
                lemma_sum_counts_update(before, idx as int, (cnt - 1) as u64);
                assert forall|k: int|
                    0 <= k < CLASS_COUNT implies self.counts()[k] == orig[k] - count_class(
                    bytes@.take(i + 1),
                    delimiter,
                    k,
                ) by {}
            }
            i = i + 1;
        }
        proof {
            assert(bytes@.take(i as int) =~= bytes@);
            lemma_sum_counts_nonneg(self.counts());
        }
    }

    /// Build a histogram from a sequence of byte runs (the cells of one
    /// column), classified against the delimiter.
    pub fn from_byte_slice_iter(runs: &Vec<Vec<u8>>, delimiter: u8) -> (r: Self)
        requires
            sum_len(crate::cells_view(runs@)) <= MAX_COLUMN_BYTES as int,
        ensures
            r.wf(),
            forall|k: int|
                0 <= k < CLASS_COUNT ==> r.counts()[k] == count_class_all(
                    crate::cells_view(runs@),
                    delimiter,
                    k,
                ),
            sum_counts(r.counts()) == sum_len(crate::cells_view(runs@)),
    {
        let ghost rv = crate::cells_view(runs@);
        let mut this = Self::new();
        let mut i: usize = 0;
        proof {
            assert(rv.take(0) =~= Seq::<Seq<u8>>::empty());
            lemma_sum_len_nonneg(rv);
        }
        while i < runs.len()
            invariant
                i <= runs@.len(),
                rv == crate::cells_view(runs@),
                rv.len() == runs@.len(),
                this.counts().len() == CLASS_COUNT,
                forall|k: int|
                    0 <= k < CLASS_COUNT ==> this.counts()[k] == count_class_all(
                        rv.take(i as int),
                        delimiter,
                        k,
                    ),
                sum_counts(this.counts()) == sum_len(rv.take(i as int)),
                sum_len(rv) <= MAX_COLUMN_BYTES as int,
            decreases runs@.len() - i,
        {
            proof {
                assert(rv.take(i + 1).drop_last() =~= rv.take(i as int));
                assert(rv.take(i + 1).last() == rv[i as int]);
                assert(rv[i as int] == runs@[i as int]@);
                lemma_sum_len_take_le(rv, i + 1);
                lemma_sum_len_nonneg(rv.take(i as int));
            }
            this.add_bytes(runs[i].as_slice(), delimiter);
            proof {
                assert forall|k: int|
                    0 <= k < CLASS_COUNT implies this.counts()[k] == count_class_all(
                    rv.take(i + 1),
                    delimiter,
                    k,
                ) by {}
            }
            i = i + 1;
        }
        proof {
            assert(rv.take(i as int) =~= rv);
        }
        this
    }

    /// The scaled heterogeneity of this column: zero when one class
    /// dominates entirely, approaching `GINI_SCALE` when the classes are
    /// evenly mixed.  An empty column scores zero.
    pub fn gini_impurity(&self) -> (g: u64)
        requires
            self.wf(),
        ensures
            g as int == spec_gini(self.counts()),
            g <= GINI_SCALE,
    {
        let ghost s = self.counts();
        let mut total: u64 = 0;
        let mut i: usize = 0;
        proof {
            assert(s.take(0) =~= Seq::<u64>::empty());
            lemma_sum_counts_nonneg(s);
        }
        while i < self.class_counts.len()
            invariant
                i <= s.len(),
                s == self.counts(),
                self.wf(),
                total as int == sum_counts(s.take(i as int)),
                total <= MAX_COLUMN_BYTES,
            decreases s.len() - i,
        {
            proof {
                assert(s.take(i + 1).drop_last() =~= s.take(i as int));
                assert(s.take(i + 1).last() == s[i as int]);
                lemma_sum_counts_take_le(s, i + 1);
                lemma_sum_counts_nonneg(s.take(i + 1));
            }
            total = total + (self.class_counts[i] as u64);
            i = i + 1;
        }
        proof {
            assert(s.take(i as int) =~= s);
        }
        if total == 0 {
            proof {
                assert(spec_gini(s) == 0);
            }
            0
        } else {
            let t: u128 = total as u128;
            let mut sq: u128 = 0;
            let mut j: usize = 0;
            proof {
                assert(s.take(0) =~= Seq::<u64>::empty());
                lemma_sum_squares_le_square(s);
            }
            while j < self.class_counts.len()
                invariant
                    j <= s.len(),
                    s == self.counts(),
                    self.wf(),
                    t as int == sum_counts(s),
                    1 <= t as int <= MAX_COLUMN_BYTES as int,
                    sq as int == sum_squares(s.take(j as int)),
                    sq as int <= sum_counts(s) * sum_counts(s),
                decreases s.len() - j,
            {
                proof {
                    assert(s.take(j + 1).drop_last() =~= s.take(j as int));
                    assert(s.take(j + 1).last() == s[j as int]);
                    lemma_take_prefix_counts(s, j as int);
                    lemma_sum_squares_le_square(s.take(j + 1));
                    lemma_sum_counts_take_le(s, j + 1);
                    lemma_sum_counts_nonneg(s.take(j + 1));
                    assert(sum_counts(s.take(j + 1)) * sum_counts(s.take(j + 1)) <= sum_counts(s)
                        * sum_counts(s)) by (nonlinear_arith)
                        requires
                            0 <= sum_counts(s.take(j + 1)) <= sum_counts(s),
                    ;
                    let c = s[j as int] as int;
                    lemma_elem_le_sum(s, j as int);
                    assert(c * c <= sum_counts(s) * sum_counts(s)) by (nonlinear_arith)
                        requires
                            0 <= c <= sum_counts(s),
                    ;
                    assert(sum_counts(s) * sum_counts(s) <= 0xFFFF_FFFF_FFFFi128 as int
                        * 0xFFFF_FFFF_FFFFi128 as int) by (nonlinear_arith)
                        requires
                            0 <= sum_counts(s) <= 0xFFFF_FFFF_FFFFi128 as int,
                    ;
                }
                let c = self.class_counts[j] as u128;
                sq = sq + c * c;
                j = j + 1;
            }
            proof {
                assert(s.take(j as int) =~= s);
                lemma_sum_squares_le_square(s);
                assert(t * t <= 0xFFFF_FFFF_FFFFu128 * 0xFFFF_FFFF_FFFFu128) by (nonlinear_arith)
                    requires
                        0 < t <= 0xFFFF_FFFF_FFFFu128,
                ;
            }
            proof {
                assert(t * t >= 1) by (nonlinear_arith)
                    requires
                        t >= 1,
                ;
            }
            let tt: u128 = t * t;
            let num: u128 = tt - sq;
            proof {
                assert(tt <= 0xFFFF_FFFF_FFFFu128 * 0xFFFF_FFFF_FFFFu128);
                assert(num * (GINI_SCALE as u128) <= tt * (GINI_SCALE as u128)) by (
                nonlinear_arith)
                    requires
                        0 <= num <= tt,
                        GINI_SCALE as u128 >= 1,
                ;
                assert(tt * (GINI_SCALE as u128) <= 0xFFFF_FFFF_FFFFu128 * 0xFFFF_FFFF_FFFFu128
                    * (GINI_SCALE as u128)) by (nonlinear_arith)
                    requires
                        0 <= tt <= 0xFFFF_FFFF_FFFFu128 * 0xFFFF_FFFF_FFFFu128,
                        GINI_SCALE as u128 >= 1,
                ;
            }
            let scaled: u128 = num * (GINI_SCALE as u128);
            let g128: u128 = scaled / tt;
            proof {
                lemma_div_bound(num as int, tt as int, GINI_SCALE as int);
            }
            g128 as u64
        }
    }
}

/// The scaled heterogeneity of a histogram: with `t` the total count and
/// `q` the sum of squared counts, the score is `(t*t - q) * GINI_SCALE`
/// divided (rounding down) by `t*t`; an empty histogram scores zero.
pub open spec fn spec_gini(s: Seq<u64>) -> int {
    let t = sum_counts(s);
    if t == 0 {
        0
    } else {
        ((t * t - sum_squares(s)) * GINI_SCALE) / (t * t)
    }
}

proof fn lemma_zero_prefix_sum(s: Seq<u64>, j: int)
    requires
        0 <= j <= s.len(),
        forall|i: int| 0 <= i < s.len() ==> s[i] == 0,
    ensures
        sum_counts(s.take(j)) == 0,
    decreases j,
{
    if j > 0 {
        assert(s.take(j).drop_last() =~= s.take(j - 1));
        lemma_zero_prefix_sum(s, j - 1);
    } else {
        assert(s.take(0) =~= Seq::<u64>::empty());
    }
}

proof fn lemma_take_prefix_counts(s: Seq<u64>, j: int)
    requires
        0 <= j < s.len(),
    ensures
        sum_squares(s.take(j + 1)) == sum_squares(s.take(j)) + s[j] * s[j],
{
    assert(s.take(j + 1).drop_last() =~= s.take(j));
    assert(s.take(j + 1).last() == s[j]);
}

proof fn lemma_count_class_prefix_le(bytes: Seq<u8>, d: u8, j: int, k: int)
    requires
        0 <= j <= bytes.len(),
    ensures
        count_class(bytes.take(j), d, k) <= count_class(bytes, d, k),
    decreases bytes.len() - j,
{
    if j == bytes.len() {
        assert(bytes.take(j) =~= bytes);
    } else {
        assert(bytes.take(j + 1).drop_last() =~= bytes.take(j));
        lemma_count_class_prefix_le(bytes, d, j + 1, k);
    }
}

proof fn lemma_sum_len_nonneg(s: Seq<Seq<u8>>)
    ensures
        sum_len(s) >= 0,
    decreases s.len(),
{
    if s.len() > 0 {
        lemma_sum_len_nonneg(s.drop_last());
    }
}

/// Floors are ordered whenever the fractions are: from `a*n <= b*m` with
/// positive denominators, `a/m <= b/n`.
proof fn lemma_div_cross_le(a: int, m: int, b: int, n: int)
    requires
        a >= 0,
        b >= 0,
        m > 0,
        n > 0,
        a * n <= b * m,
    ensures
        a / m <= b / n,
{
    let qa = a / m;
    lemma_fundamental_div_mod(a, m);
    assert(m * qa <= a);
    assert(qa >= 0) by (nonlinear_arith)
        requires
            m > 0,
            a >= 0,
            a == m * qa + a % m,
            0 <= a % m < m,
    ;
    assert((m * qa) * n <= a * n) by (nonlinear_arith)
        requires
            m * qa <= a,
            n > 0,
    ;
    assert((m * qa) * n == (qa * n) * m) by (nonlinear_arith);
    assert((qa * n) * m <= b * m);
    assert(qa * n <= b) by (nonlinear_arith)
        requires
            (qa * n) * m <= b * m,
            m > 0,
    ;
    lemma_div_is_ordered(qa * n, b, n);
    lemma_div_by_multiple(qa, n);
    assert((qa * n) / n == qa);
}

proof fn lemma_div_bound(num: int, tt: int, scale: int)
    requires
        0 <= num <= tt,
        tt >= 1,
        scale >= 1,
    ensures
        (num * scale) / tt <= scale,
{
    assert(num * scale <= tt * scale) by (nonlinear_arith)
        requires
            0 <= num <= tt,
            scale >= 1,
    ;
    lemma_div_is_ordered(num * scale, tt * scale, tt);
    assert((tt * scale) == (scale * tt)) by (nonlinear_arith);
    lemma_div_by_multiple(scale, tt);
}

/// Adding one byte of a class already dominant in a column does not
/// increase the column's heterogeneity score.
pub proof fn lemma_gini_dominant_add(s: Seq<u64>, k: int)
    requires
        0 <= k < s.len(),
        forall|j: int| 0 <= j < s.len() ==> s[j] <= s[k],
        s[k] < u64::MAX,
    ensures
        spec_gini(s.update(k, (s[k] + 1) as u64)) <= spec_gini(s),
{
    let c = s[k] as int;
    let t = sum_counts(s);
    let q = sum_squares(s);
    let s2 = s.update(k, (s[k] + 1) as u64);
    lemma_sum_counts_update(s, k, (s[k] + 1) as u64);
    lemma_sum_squares_update(s, k, (s[k] + 1) as u64);
    assert(sum_counts(s2) == t + 1);
    assert(((c + 1) * (c + 1)) == c * c + 2 * c + 1) by (nonlinear_arith);
    assert(sum_squares(s2) == q + 2 * c + 1);
    lemma_elem_le_sum(s, k);
    lemma_sum_counts_nonneg(s);
    lemma_sum_squares_le_max_times_sum(s, c);
    lemma_sum_squares_le_square(s);
    if t == 0 {
        assert(c == 0);
        assert(sum_squares(s2) == 1);
        assert(sum_counts(s2) == 1);
        assert(spec_gini(s2) == ((1 - 1) * GINI_SCALE) / 1);
    } else {
        // (t'^2 - q') * t^2  <=  (t^2 - q) * t'^2, so the floors are ordered
        assert(q * (2 * t + 1) <= (c * t) * (2 * t + 1)) by (nonlinear_arith)
            requires
                q <= c * t,
                t >= 0,
        ;
        assert((c * t) * (2 * t + 1) <= (t * t) * (2 * c + 1)) by (nonlinear_arith)
            requires
                0 <= c <= t,
        ;
        let tp = t + 1;
        let qp = q + 2 * c + 1;
        assert((tp * tp - qp) * (t * t) <= (t * t - q) * (tp * tp)) by (nonlinear_arith)
            requires
                tp == t + 1,
                qp == q + 2 * c + 1,
                q * (2 * t + 1) <= (t * t) * (2 * c + 1),
        ;
        assert(qp <= tp * tp) by (nonlinear_arith)
            requires
                q <= t * t,
                qp == q + 2 * c + 1,
                tp == t + 1,
                0 <= c <= t,
        ;
        assert((tp * tp - qp) * GINI_SCALE * (t * t) <= (t * t - q) * GINI_SCALE * (tp * tp))
            by (nonlinear_arith)
            requires
                (tp * tp - qp) * (t * t) <= (t * t - q) * (tp * tp),
                tp * tp - qp >= 0,
                t * t - q >= 0,
                GINI_SCALE as int >= 1,
        ;
        assert(t * t >= 1) by (nonlinear_arith)
            requires
                t >= 1,
        ;
        assert(tp * tp >= 1) by (nonlinear_arith)
            requires
                tp >= 1,
        ;
        assert((tp * tp - qp) * GINI_SCALE >= 0) by (nonlinear_arith)
            requires
                tp * tp - qp >= 0,
        ;
        assert((t * t - q) * GINI_SCALE >= 0) by (nonlinear_arith)
            requires
                t * t - q >= 0,
        ;
        lemma_div_cross_le(
            (tp * tp - qp) * GINI_SCALE,
            tp * tp,
            (t * t - q) * GINI_SCALE,
            t * t,
        );
    }
}

/// Adding one byte of a class not yet seen in a column does not decrease
/// the column's heterogeneity score.  The guarantee needs the class to be
/// absent, not merely in the minority: adding to a present minority class
/// can move the score either way (with counts 2,1,1,1,1,1,1,1,1, one more
/// byte of a count-one class lowers it).
pub proof fn lemma_gini_new_class_add(s: Seq<u64>, k: int)
    requires
        0 <= k < s.len(),
        s[k] == 0,
    ensures
        spec_gini(s.update(k, 1u64)) >= spec_gini(s),
{
    let t = sum_counts(s);
    let q = sum_squares(s);
    let s2 = s.update(k, 1u64);
    lemma_sum_counts_update(s, k, 1u64);
    lemma_sum_squares_update(s, k, 1u64);
    assert(sum_counts(s2) == t + 1);
    assert(sum_squares(s2) == q + 1);
    lemma_sum_counts_nonneg(s);
    lemma_sum_le_sum_squares(s);
    lemma_sum_squares_le_square(s);
    if t == 0 {
        assert(spec_gini(s) == 0);
        assert(q >= 0);
        assert(q == 0) by {
            lemma_sum_squares_le_square(s);
        }
        assert(spec_gini(s2) == ((1 - 1) * GINI_SCALE) / 1);
        assert(spec_gini(s2) == 0);
    } else {
        let tp = t + 1;
        let qp = q + 1;
        // t^2 <= q * (2t + 1) gives q' * t^2 <= q * t'^2
        assert(t * t <= q * (2 * t + 1)) by (nonlinear_arith)
            requires
                q >= t,
                t >= 1,
        ;
        assert((t * t - q) * (tp * tp) <= (tp * tp - qp) * (t * t)) by (nonlinear_arith)
            requires
                tp == t + 1,
                qp == q + 1,
                t * t <= q * (2 * t + 1),
        ;
        assert(qp <= tp * tp) by (nonlinear_arith)
            requires
                q <= t * t,
                qp == q + 1,
                tp == t + 1,
                t >= 1,
        ;
        assert((t * t - q) * GINI_SCALE * (tp * tp) <= (tp * tp - qp) * GINI_SCALE * (t * t))
            by (nonlinear_arith)
            requires
                (t * t - q) * (tp * tp) <= (tp * tp - qp) * (t * t),
                t * t - q >= 0,
                tp * tp - qp >= 0,
                GINI_SCALE as int >= 1,
        ;
        assert(t * t >= 1) by (nonlinear_arith)
            requires
                t >= 1,
        ;
        assert(tp * tp >= 1) by (nonlinear_arith)
            requires
                tp >= 1,
        ;
        assert((t * t - q) * GINI_SCALE >= 0) by (nonlinear_arith)
            requires
                t * t - q >= 0,
        ;
        assert((tp * tp - qp) * GINI_SCALE >= 0) by (nonlinear_arith)
            requires
                tp * tp - qp >= 0,
        ;
        lemma_div_cross_le(
            (t * t - q) * GINI_SCALE,
            t * t,
            (tp * tp - qp) * GINI_SCALE,
            tp * tp,
        );
    }
}

/// A byte that separates fields or rows: the delimiter or a newline byte.
pub open spec fn is_sep(b: u8, d: u8) -> bool {
    b == d || b == 10 || b == 13
}

/// Whether position `p` holds a delimiter-or-newline candidate.
pub open spec fn is_delim_loc(raw: Seq<u8>, d: u8, p: int) -> bool {
    raw[p] == d || raw[p] == 10
}

/// Whether position `p` holds a quote candidate: an occurrence of the
/// quote byte `q` adjacent to a separator or to a buffer boundary.  A quote
/// glued to ordinary data on both sides can never be structural and is not
/// recorded.
pub open spec fn is_quote_candidate(raw: Seq<u8>, d: u8, q: u8, p: int) -> bool {
    raw[p] == q && (p == 0 || p == raw.len() - 1 || is_sep(raw[p - 1], d) || is_sep(
        raw[p + 1],
        d,
    ))
}

/// The delimiter/newline occurrences among the first `n` bytes, ascending.
pub open spec fn delim_locs_upto(raw: Seq<u8>, d: u8, n: int) -> Seq<usize>
    decreases n,
{
    if n <= 0 {
        Seq::empty()
    } else {
        delim_locs_upto(raw, d, n - 1) + if is_delim_loc(raw, d, n - 1) {
            seq![(n - 1) as usize]
        } else {
            Seq::empty()
        }
    }
}

/// All delimiter/newline occurrences, ascending.
pub open spec fn delim_locs(raw: Seq<u8>, d: u8) -> Seq<usize> {
    delim_locs_upto(raw, d, raw.len() as int)
}

/// The quote candidates among the first `n` bytes, ascending.
pub open spec fn quote_locs_upto(raw: Seq<u8>, d: u8, q: u8, n: int) -> Seq<usize>
    decreases n,
{
    if n <= 0 {
        Seq::empty()
    } else {
        quote_locs_upto(raw, d, q, n - 1) + if is_quote_candidate(raw, d, q, n - 1) {
            seq![(n - 1) as usize]
        } else {
            Seq::empty()
        }
    }
}

/// All quote candidates, ascending.
pub open spec fn quote_locs(raw: Seq<u8>, d: u8, q: u8) -> Seq<usize> {
    quote_locs_upto(raw, d, q, raw.len() as int)
}

/// Literal-adjacency rule: a quote right after a separator (or at the very
/// start) is consuming that separator, not opening on top of it.
pub open spec fn can_start_base(raw: Seq<u8>, d: u8, p: int) -> bool {
    !(p == 0 || is_sep(raw[p - 1], d))
}

/// Symmetric rule for closing quotes.
pub open spec fn can_end_base(raw: Seq<u8>, d: u8, p: int) -> bool {
    !(p == raw.len() - 1 || is_sep(raw[p + 1], d))
}

/// The can-close bit of candidate `j` after constraint propagation: the
/// adjacency rule holds, and some candidate at or before `j` may open --
/// unless no candidate at all may open, in which case only the adjacency
/// rule is applied.
pub open spec fn ce1(raw: Seq<u8>, d: u8, ql: Seq<usize>, j: int) -> bool {
    &&& can_end_base(raw, d, ql[j] as int)
    &&& ((exists|i: int| 0 <= i <= j && can_start_base(raw, d, ql[i] as int)) || (forall|i: int|
        0 <= i < ql.len() ==> !can_start_base(raw, d, ql[i] as int)))
}

/// The can-open bit of candidate `j` after constraint propagation: the
/// adjacency rule holds and a closing candidate survives strictly after `j`.
pub open spec fn cs1(raw: Seq<u8>, d: u8, ql: Seq<usize>, j: int) -> bool {
    &&& can_start_base(raw, d, ql[j] as int)
    &&& (exists|i: int| j < i < ql.len() && ce1(raw, d, ql, i))
}

proof fn lemma_locs_upto_props(raw: Seq<u8>, d: u8, q: u8, n: int)
    requires
        0 <= n <= raw.len(),
        n <= usize::MAX,
    ensures
        forall|j: int|
            0 <= j < delim_locs_upto(raw, d, n).len() ==> (#[trigger] delim_locs_upto(
                raw,
                d,
                n,
            )[j]) < n,
        forall|j1: int, j2: int|
            0 <= j1 < j2 < delim_locs_upto(raw, d, n).len() ==> (#[trigger] delim_locs_upto(
                raw,
                d,
                n,
            )[j1]) < (#[trigger] delim_locs_upto(raw, d, n)[j2]),
        forall|j: int|
            0 <= j < quote_locs_upto(raw, d, q, n).len() ==> (#[trigger] quote_locs_upto(
                raw,
                d,
                q,
                n,
            )[j]) < n,
        forall|j1: int, j2: int|
            0 <= j1 < j2 < quote_locs_upto(raw, d, q, n).len() ==> (#[trigger] quote_locs_upto(
                raw,
                d,
                q,
                n,
            )[j1]) < (#[trigger] quote_locs_upto(raw, d, q, n)[j2]),
    decreases n,
{
    if n > 0 {
        lemma_locs_upto_props(raw, d, q, n - 1);
        let dprev = delim_locs_upto(raw, d, n - 1);
        let dcur = delim_locs_upto(raw, d, n);
        if is_delim_loc(raw, d, n - 1) {
            assert(forall|j: int| 0 <= j < dprev.len() ==> dcur[j] == dprev[j]);
            assert(dcur.len() == dprev.len() + 1);
            assert(dcur[dprev.len() as int] == (n - 1) as usize);
            assert forall|j: int| 0 <= j < dcur.len() implies (#[trigger] dcur[j]) < n by {
                if j < dprev.len() {
                    assert(dcur[j] == dprev[j]);
                }
            }
            assert forall|j1: int, j2: int| 0 <= j1 < j2 < dcur.len() implies dcur[j1]
                < dcur[j2] by {
                if j2 < dprev.len() {
                    assert(dcur[j1] == dprev[j1] && dcur[j2] == dprev[j2]);
                    assert(dprev[j1] < dprev[j2]);
                } else {
                    assert(j2 == dprev.len());
                    assert(dcur[j2] == (n - 1) as usize);
                    assert(dcur[j1] == dprev[j1]);
                    assert(dprev[j1] < n - 1);
                }
            }
        } else {
            assert(dcur =~= dprev);
        }
        let qprev = quote_locs_upto(raw, d, q, n - 1);
        let qcur = quote_locs_upto(raw, d, q, n);
        if is_quote_candidate(raw, d, q, n - 1) {
            assert(forall|j: int| 0 <= j < qprev.len() ==> qcur[j] == qprev[j]);
            assert(qcur.len() == qprev.len() + 1);
            assert(qcur[qprev.len() as int] == (n - 1) as usize);
            assert forall|j: int| 0 <= j < qcur.len() implies (#[trigger] qcur[j]) < n by {
                if j < qprev.len() {
                    assert(qcur[j] == qprev[j]);
                }
            }
            assert forall|j1: int, j2: int| 0 <= j1 < j2 < qcur.len() implies qcur[j1]
                < qcur[j2] by {
                if j2 < qprev.len() {
                    assert(qcur[j1] == qprev[j1] && qcur[j2] == qprev[j2]);
                    assert(qprev[j1] < qprev[j2]);
                } else {
                    assert(j2 == qprev.len());
                    assert(qcur[j2] == (n - 1) as usize);
                    assert(qcur[j1] == qprev[j1]);
                    assert(qprev[j1] < n - 1);
                }
            }
        } else {
            assert(qcur =~= qprev);
        }
    }
}

/// Ascending order and in-bounds positions of the candidate scans.
pub proof fn lemma_locs_props(raw: Seq<u8>, d: u8, q: u8)
    requires
        raw.len() <= usize::MAX,
    ensures
        forall|j: int|
            0 <= j < delim_locs(raw, d).len() ==> (#[trigger] delim_locs(raw, d)[j])
                < raw.len(),
        forall|j1: int, j2: int|
            0 <= j1 < j2 < delim_locs(raw, d).len() ==> delim_locs(raw, d)[j1] < delim_locs(
                raw,
                d,
            )[j2],
        forall|j: int|
            0 <= j < quote_locs(raw, d, q).len() ==> (#[trigger] quote_locs(raw, d, q)[j])
                < raw.len(),
        forall|j1: int, j2: int|
            0 <= j1 < j2 < quote_locs(raw, d, q).len() ==> quote_locs(raw, d, q)[j1]
                < quote_locs(raw, d, q)[j2],
{
    lemma_locs_upto_props(raw, d, q, raw.len() as int);
}

/// The per-search-branch working assignment: which delimiter occurrences
/// and which quote candidates are currently treated as structural.
pub struct Switches {
    pub delimiter_valid: crate::csv::mask::Mask,
    pub quote_valid: crate::csv::mask::Mask,
}

/// The resolved state of one parse attempt: the chosen delimiter, the
/// optional target column count, the candidate set with its constraint
/// bitsets, and per-column statistics for the current assignment.
pub struct Solution {
    delimiter: u8,
    quote: u8,
    column_count: Option<usize>,
    column_complexities: Vec<ColumnComplexity>,
    file_length: usize,
    delimiter_locations: Vec<usize>,
    quote_locations: Vec<usize>,
    quote_can_start: crate::csv::mask::Mask,
    quote_can_end: crate::csv::mask::Mask,
    quote_valid: crate::csv::mask::Mask,
    delimiter_valid: crate::csv::mask::Mask,
}

impl Solution {
    /// The delimiter this solution was built with.
    pub closed spec fn spec_delimiter(self) -> u8 {
        self.delimiter
    }

    /// The quote byte this solution was built with.
    pub closed spec fn spec_quote(self) -> u8 {
        self.quote
    }

    /// The recorded delimiter/newline occurrences.
    pub closed spec fn spec_dlocs(self) -> Seq<usize> {
        self.delimiter_locations@
    }

    /// The recorded quote candidates.
    pub closed spec fn spec_qlocs(self) -> Seq<usize> {
        self.quote_locations@
    }

    /// The can-open bits.
    pub closed spec fn spec_can_start(self) -> Seq<bool> {
        crate::csv::mask::mask_bits(self.quote_can_start)
    }

    /// The can-close bits.
    pub closed spec fn spec_can_end(self) -> Seq<bool> {
        crate::csv::mask::mask_bits(self.quote_can_end)
    }

    /// The currently-structural quote bits.
    pub closed spec fn spec_quote_valid(self) -> Seq<bool> {
        crate::csv::mask::mask_bits(self.quote_valid)
    }

    /// The currently-structural delimiter bits.
    pub closed spec fn spec_delimiter_valid(self) -> Seq<bool> {
        crate::csv::mask::mask_bits(self.delimiter_valid)
    }

    /// The recorded buffer length.
    pub closed spec fn spec_file_length(self) -> int {
        self.file_length as int
    }

    /// This solution was built from `raw`: its candidate sequences are the
    /// scans of `raw`, and its constraint bitsets are the propagated
    /// adjacency rules.
    pub open spec fn built_from(self, raw: Seq<u8>) -> bool {
        &&& self.spec_dlocs() == delim_locs(raw, self.spec_delimiter())
        &&& self.spec_qlocs() == quote_locs(raw, self.spec_delimiter(), self.spec_quote())
        &&& self.spec_file_length() == raw.len()
        &&& self.spec_can_start().len() == self.spec_qlocs().len()
        &&& self.spec_can_end().len() == self.spec_qlocs().len()
        &&& self.spec_quote_valid().len() == self.spec_qlocs().len()
        &&& self.spec_delimiter_valid().len() == self.spec_dlocs().len()
        &&& (forall|j: int|
            0 <= j < self.spec_qlocs().len() ==> self.spec_can_start()[j] == cs1(
                raw,
                self.spec_delimiter(),
                self.spec_qlocs(),
                j,
            ))
        &&& (forall|j: int|
            0 <= j < self.spec_qlocs().len() ==> self.spec_can_end()[j] == ce1(
                raw,
                self.spec_delimiter(),
                self.spec_qlocs(),
                j,
            ))
    }
}

/// Whether byte `b` separates fields or rows.
fn is_sep_byte(b: u8, d: u8) -> (r: bool)
    ensures
        r == is_sep(b, d),
{
    b == d || b == 10 || b == 13
}

impl Solution {
    /// Scan the buffer once, recording every delimiter/newline occurrence
    /// and every occurrence of the quote byte that passes the adjacency
    /// pre-filter, then apply the default constraint heuristics.  All
    /// candidates start out structural; the solver narrows them later.
    pub fn new(raw: &Vec<u8>, delimiter: u8, quote: u8) -> (sol: Solution)
        requires
            delimiter != 10,
            delimiter != 13,
            quote != 10,
            quote != 13,
            quote != delimiter,
        ensures
            sol.built_from(raw@),
            sol.spec_delimiter() == delimiter,
            sol.spec_quote() == quote,
            forall|j: int| 0 <= j < sol.spec_quote_valid().len() ==> sol.spec_quote_valid()[j],
            forall|j: int|
                0 <= j < sol.spec_delimiter_valid().len() ==> sol.spec_delimiter_valid()[j],
    {
        let d = delimiter;
        let q = quote;
        let mut dlocs: Vec<usize> = Vec::new();
        let mut qlocs: Vec<usize> = Vec::new();
        proof {
            assert(delim_locs_upto(raw@, d, 0) =~= Seq::<usize>::empty());
            assert(quote_locs_upto(raw@, d, q, 0) =~= Seq::<usize>::empty());
        }
        let mut i: usize = 0;
        while i < raw.len()
            invariant
                i <= raw@.len(),
                d == delimiter,
                q == quote,
                d != 10,
                d != 13,
                q != 10,
                q != 13,
                q != d,
                dlocs@ == delim_locs_upto(raw@, d, i as int),
                qlocs@ == quote_locs_upto(raw@, d, q, i as int),
            decreases raw@.len() - i,
        {
            let b = raw[i];
            if b == 10 || b == d {
                dlocs.push(i);
                proof {
                    assert(is_delim_loc(raw@, d, i as int));
                    assert(!is_quote_candidate(raw@, d, q, i as int));
                    assert(dlocs@ =~= delim_locs_upto(raw@, d, i + 1));
                    assert(qlocs@ =~= quote_locs_upto(raw@, d, q, i + 1));
                }
            } else if b == q {
                let cand = i == 0 || i + 1 == raw.len() || is_sep_byte(raw[i - 1], d)
                    || is_sep_byte(raw[i + 1], d);
                proof {
                    assert(!is_delim_loc(raw@, d, i as int));
                    assert(cand == is_quote_candidate(raw@, d, q, i as int));
                }
                if cand {
                    qlocs.push(i);
                }
                proof {
                    assert(dlocs@ =~= delim_locs_upto(raw@, d, i + 1));
                    assert(qlocs@ =~= quote_locs_upto(raw@, d, q, i + 1));
                }
            } else {
                proof {
                    assert(!is_delim_loc(raw@, d, i as int));
                    assert(!is_quote_candidate(raw@, d, q, i as int));
                    assert(dlocs@ =~= delim_locs_upto(raw@, d, i + 1));
                    assert(qlocs@ =~= quote_locs_upto(raw@, d, q, i + 1));
                }
            }
            i = i + 1;
        }
        proof {
            assert(dlocs@ == delim_locs(raw@, d));
            assert(qlocs@ == quote_locs(raw@, d, q));
            lemma_locs_props(raw@, d, q);
        }
        let qn = qlocs.len();
        let dn = dlocs.len();
        let mut can_start = crate::csv::mask::mask_repeat(false, qn);
        let mut can_end = crate::csv::mask::mask_repeat(false, qn);
        let mut j: usize = 0;
        while j < qn
            invariant
                j <= qn,
                qn == qlocs@.len(),
                d == delimiter,
                q == quote,
                qlocs@ == quote_locs(raw@, d, q),
                forall|t: int| 0 <= t < qn ==> (#[trigger] qlocs@[t]) < raw@.len(),
                crate::csv::mask::mask_bits(can_start).len() == qn,
                crate::csv::mask::mask_bits(can_end).len() == qn,
                forall|t: int|
                    0 <= t < j ==> crate::csv::mask::mask_bits(can_start)[t] == can_start_base(
                        raw@,
                        d,
                        qlocs@[t] as int,
                    ),
                forall|t: int|
                    0 <= t < j ==> crate::csv::mask::mask_bits(can_end)[t] == can_end_base(
                        raw@,
                        d,
                        qlocs@[t] as int,
                    ),
            decreases qn - j,
        {
            let p = qlocs[j];
            proof {
                assert(p == qlocs@[j as int]);
                assert(p < raw@.len());
            }
            let rl = raw.len();
            let bs = !(p == 0 || is_sep_byte(raw[p - 1], d));
            let be = !(p + 1 == rl || is_sep_byte(raw[p + 1], d));
            proof {
                assert(bs == can_start_base(raw@, d, p as int));
                assert(be == can_end_base(raw@, d, p as int));
            }
            crate::csv::mask::mask_set(&mut can_start, j, bs);
            crate::csv::mask::mask_set(&mut can_end, j, be);
            j = j + 1;
        }
        let quote_valid = crate::csv::mask::mask_repeat(true, qn);
        let delimiter_valid = crate::csv::mask::mask_repeat(true, dn);
        let mut sol = Solution {
            delimiter: d,
            quote: q,
            column_count: None,
            column_complexities: Vec::new(),
            file_length: raw.len(),
            delimiter_locations: dlocs,
            quote_locations: qlocs,
            quote_can_start: can_start,
            quote_can_end: can_end,
            quote_valid,
            delimiter_valid,
        };
        sol.default_heuristics(raw);
        sol
    }

    /// Apply the default heuristics: clear can-open where the preceding
    /// byte is itself a separator (or the buffer starts), clear can-close
    /// symmetrically, then force out closers before the first surviving
    /// opener and openers from the last surviving closer on.  Two edges
    /// are deliberate: when no opener survives at all, the closers keep
    /// their adjacency bits; and the opener at the very rank of the last
    /// surviving closer is cleared along with those after it.  Both are
    /// inert for greedy pairing, which never pairs without a surviving
    /// opener and never reuses a closer's rank as an opener.
    fn default_heuristics(&mut self, raw: &Vec<u8>)
        requires
            old(self).spec_qlocs() == quote_locs(
                raw@,
                old(self).spec_delimiter(),
                old(self).spec_quote(),
            ),
            crate::csv::mask::mask_bits(old(self).quote_can_start).len() == old(
                self,
            ).spec_qlocs().len(),
            crate::csv::mask::mask_bits(old(self).quote_can_end).len() == old(
                self,
            ).spec_qlocs().len(),
            forall|t: int|
                0 <= t < old(self).spec_qlocs().len() ==> crate::csv::mask::mask_bits(
                    old(self).quote_can_start,
                )[t] == can_start_base(
                    raw@,
                    old(self).spec_delimiter(),
                    old(self).spec_qlocs()[t] as int,
                ),
            forall|t: int|
                0 <= t < old(self).spec_qlocs().len() ==> crate::csv::mask::mask_bits(
                    old(self).quote_can_end,
                )[t] == can_end_base(
                    raw@,
                    old(self).spec_delimiter(),
                    old(self).spec_qlocs()[t] as int,
                ),
        ensures
            final(self).delimiter == old(self).delimiter,
            final(self).quote == old(self).quote,
            final(self).column_count == old(self).column_count,
            final(self).column_complexities == old(self).column_complexities,
            final(self).file_length == old(self).file_length,
            final(self).delimiter_locations == old(self).delimiter_locations,
            final(self).quote_locations == old(self).quote_locations,
            final(self).quote_valid == old(self).quote_valid,
            final(self).delimiter_valid == old(self).delimiter_valid,
            final(self).spec_can_start().len() == old(self).spec_qlocs().len(),
            final(self).spec_can_end().len() == old(self).spec_qlocs().len(),
            forall|t: int|
                0 <= t < old(self).spec_qlocs().len() ==> final(self).spec_can_start()[t] == cs1(
                    raw@,
                    old(self).spec_delimiter(),
                    old(self).spec_qlocs(),
                    t,
                ),
            forall|t: int|
                0 <= t < old(self).spec_qlocs().len() ==> final(self).spec_can_end()[t] == ce1(
                    raw@,
                    old(self).spec_delimiter(),
                    old(self).spec_qlocs(),
                    t,
                ),
    {
        let ghost d = self.delimiter;
        let ghost ql = self.spec_qlocs();
        let qn = self.quote_locations.len();
        // find the first candidate that may open a span
        let mut f: usize = qn;
        let mut j: usize = 0;
        while j < qn
            invariant
                j <= qn,
                qn == ql.len(),
                d == self.delimiter,
                ql == self.spec_qlocs(),
                crate::csv::mask::mask_bits(self.quote_can_start).len() == qn,
                forall|t: int|
                    0 <= t < qn ==> crate::csv::mask::mask_bits(self.quote_can_start)[t]
                        == can_start_base(raw@, d, ql[t] as int),
                f <= qn,
                f == qn ==> forall|t: int| 0 <= t < j ==> !can_start_base(raw@, d, ql[t] as int),
                f < qn ==> f < j && can_start_base(raw@, d, ql[f as int] as int) && (forall|
                    t: int,
                |
                    0 <= t < f ==> !can_start_base(raw@, d, ql[t] as int)),
            decreases qn - j,
        {
            if f == qn {
                let bit = crate::csv::mask::mask_get(&self.quote_can_start, j);
                if bit {
                    f = j;
                }
            }
            j = j + 1;
        }
        // all closers before the first opener are invalid
        let stop = if f == qn {
            0
        } else {
            f
        };
        let mut t: usize = 0;
        while t < stop
            invariant
                t <= stop,
                stop <= qn,
                qn == ql.len(),
                crate::csv::mask::mask_bits(self.quote_can_end).len() == qn,
                forall|u: int|
                    0 <= u < t ==> !crate::csv::mask::mask_bits(self.quote_can_end)[u],
                forall|u: int|
                    t <= u < qn ==> crate::csv::mask::mask_bits(self.quote_can_end)[u]
                        == can_end_base(raw@, d, ql[u] as int),
                self.delimiter == old(self).delimiter,
                self.quote == old(self).quote,
                self.column_count == old(self).column_count,
                self.column_complexities == old(self).column_complexities,
                self.file_length == old(self).file_length,
                self.delimiter_locations == old(self).delimiter_locations,
                self.quote_locations == old(self).quote_locations,
                self.quote_valid == old(self).quote_valid,
                self.delimiter_valid == old(self).delimiter_valid,
                self.quote_can_start == old(self).quote_can_start,
                d == self.delimiter,
                ql == self.spec_qlocs(),
            decreases stop - t,
        {
            crate::csv::mask::mask_set(&mut self.quote_can_end, t, false);
            t = t + 1;
        }
        proof {
            assert forall|u: int| 0 <= u < qn implies crate::csv::mask::mask_bits(
                self.quote_can_end,
            )[u] == ce1(raw@, d, ql, u) by {
                if f < qn {
                    if u < f as int {
                        assert(forall|i: int| 0 <= i <= u ==> !can_start_base(raw@, d, ql[i] as int));
                        assert(can_start_base(raw@, d, ql[f as int] as int));
                        assert(!ce1(raw@, d, ql, u));
                    } else {
                        assert(0 <= f as int <= u && can_start_base(raw@, d, ql[f as int] as int));
                        assert(exists|i: int|
                            0 <= i <= u && can_start_base(raw@, d, ql[i] as int));
                        assert(crate::csv::mask::mask_bits(self.quote_can_end)[u]
                            == can_end_base(raw@, d, ql[u] as int));
                    }
                } else {
                    assert(forall|i: int|
                        0 <= i < ql.len() ==> !can_start_base(raw@, d, ql[i] as int));
                }
            }
        }
        // find the last candidate that may close a span
        let mut l: usize = qn;
        let mut j2: usize = 0;
        while j2 < qn
            invariant
                j2 <= qn,
                qn == ql.len(),
                crate::csv::mask::mask_bits(self.quote_can_end).len() == qn,
                forall|u: int|
                    0 <= u < qn ==> crate::csv::mask::mask_bits(self.quote_can_end)[u] == ce1(
                        raw@,
                        d,
                        ql,
                        u,
                    ),
                l <= qn,
                l == qn ==> forall|t2: int| 0 <= t2 < j2 ==> !ce1(raw@, d, ql, t2),
                l < qn ==> l < j2 && ce1(raw@, d, ql, l as int) && (forall|t2: int|
                    l < t2 < j2 ==> !ce1(raw@, d, ql, t2)),
                self.delimiter == old(self).delimiter,
                self.quote == old(self).quote,
                self.column_count == old(self).column_count,
                self.column_complexities == old(self).column_complexities,
                self.file_length == old(self).file_length,
                self.delimiter_locations == old(self).delimiter_locations,
                self.quote_locations == old(self).quote_locations,
                self.quote_valid == old(self).quote_valid,
                self.delimiter_valid == old(self).delimiter_valid,
                self.quote_can_start == old(self).quote_can_start,
                d == self.delimiter,
                ql == self.spec_qlocs(),
            decreases qn - j2,
        {
            let bit = crate::csv::mask::mask_get(&self.quote_can_end, j2);
            if bit {
                l = j2;
            }
            j2 = j2 + 1;
        }
        // all openers from the last closer on are invalid
        let start = if l == qn {
            0
        } else {
            l
        };
        let mut t2: usize = start;
        while t2 < qn
            invariant
                start <= t2 <= qn,
                qn == ql.len(),
                crate::csv::mask::mask_bits(self.quote_can_start).len() == qn,
                forall|u: int|
                    0 <= u < start ==> crate::csv::mask::mask_bits(self.quote_can_start)[u]
                        == can_start_base(raw@, d, ql[u] as int),
                forall|u: int|
                    start <= u < t2 ==> !crate::csv::mask::mask_bits(self.quote_can_start)[u],
                forall|u: int|
                    t2 <= u < qn ==> crate::csv::mask::mask_bits(self.quote_can_start)[u]
                        == can_start_base(raw@, d, ql[u] as int),
                crate::csv::mask::mask_bits(self.quote_can_end).len() == qn,
                forall|u: int|
                    0 <= u < qn ==> crate::csv::mask::mask_bits(self.quote_can_end)[u] == ce1(
                        raw@,
                        d,
                        ql,
                        u,
                    ),
                l == qn ==> forall|u: int| 0 <= u < qn ==> !ce1(raw@, d, ql, u),
                l < qn ==> l == start && ce1(raw@, d, ql, l as int) && (forall|u: int|
                    l < u < qn ==> !ce1(raw@, d, ql, u)),
                self.delimiter == old(self).delimiter,
                self.quote == old(self).quote,
                self.column_count == old(self).column_count,
                self.column_complexities == old(self).column_complexities,
                self.file_length == old(self).file_length,
                self.delimiter_locations == old(self).delimiter_locations,
                self.quote_locations == old(self).quote_locations,
                self.quote_valid == old(self).quote_valid,
                self.delimiter_valid == old(self).delimiter_valid,
                d == self.delimiter,
                ql == self.spec_qlocs(),
            decreases qn - t2,
        {
            crate::csv::mask::mask_set(&mut self.quote_can_start, t2, false);
            t2 = t2 + 1;
        }
        proof {
            assert forall|u: int| 0 <= u < qn implies crate::csv::mask::mask_bits(
                self.quote_can_start,
            )[u] == cs1(raw@, d, ql, u) by {
                if l < qn {
                    if u < l as int {
                        assert(crate::csv::mask::mask_bits(self.quote_can_start)[u]
                            == can_start_base(raw@, d, ql[u] as int));
                        assert(u < (l as int) && (l as int) < ql.len() && ce1(
                            raw@,
                            d,
                            ql,
                            l as int,
                        ));
                        assert(exists|i: int| u < i < ql.len() && ce1(raw@, d, ql, i));
                        assert(cs1(raw@, d, ql, u) == can_start_base(raw@, d, ql[u] as int));
                    } else {
                        assert(!crate::csv::mask::mask_bits(self.quote_can_start)[u]);
                        assert(forall|i: int| u < i < ql.len() ==> !ce1(raw@, d, ql, i));
                        assert(!cs1(raw@, d, ql, u));
                    }
                } else {
                    assert(forall|i: int| 0 <= i < ql.len() ==> !ce1(raw@, d, ql, i));
                    assert(!cs1(raw@, d, ql, u));
                }
            }
        }
    }
}

/// Pointwise conjunction of two bit sequences.
pub open spec fn and_bits(a: Seq<bool>, b: Seq<bool>) -> Seq<bool> {
    Seq::new(a.len(), |j: int| a[j] && b[j])
}

/// Greedy left-to-right pairing: walking candidates in ascending order,
/// alternately take the next one that may open as an opener, then the next
/// one strictly after it that may close as its matching closer.
pub open spec fn greedy_pairs(sq: Seq<bool>, eq: Seq<bool>, j: int, opened: Option<int>) -> Seq<
    (usize, usize),
>
    decreases sq.len() - j,
{
    if j < 0 || j >= sq.len() {
        Seq::empty()
    } else {
        match opened {
            Option::None => greedy_pairs(
                sq,
                eq,
                j + 1,
                if sq[j] {
                    Option::Some(j)
                } else {
                    Option::None
                },
            ),
            Option::Some(o) => if eq[j] {
                seq![(o as usize, j as usize)] + greedy_pairs(sq, eq, j + 1, Option::None)
            } else {
                greedy_pairs(sq, eq, j + 1, Option::Some(o))
            },
        }
    }
}

/// Every greedy pair opens on a surviving opener and closes on a surviving
/// closer strictly after it.
pub proof fn lemma_greedy_pairs_props(sq: Seq<bool>, eq: Seq<bool>, j: int, opened: Option<int>)
    requires
        sq.len() == eq.len(),
        sq.len() <= usize::MAX,
        0 <= j <= sq.len(),
        opened matches Option::Some(o) ==> 0 <= o < j && sq[o],
    ensures
        forall|t: int|
            0 <= t < greedy_pairs(sq, eq, j, opened).len() ==> {
                let pr = #[trigger] greedy_pairs(sq, eq, j, opened)[t];
                &&& pr.0 < pr.1
                &&& (pr.1 as int) < sq.len()
                &&& sq[pr.0 as int]
                &&& eq[pr.1 as int]
            },
    decreases sq.len() - j,
{
    if j < sq.len() {
        match opened {
            Option::None => {
                let nxt: Option<int> = if sq[j] {
                    Option::Some(j)
                } else {
                    Option::None
                };
                lemma_greedy_pairs_props(sq, eq, j + 1, nxt);
                let ps = greedy_pairs(sq, eq, j, opened);
                let rest = greedy_pairs(sq, eq, j + 1, nxt);
                assert(ps == rest);
                assert forall|t: int| 0 <= t < ps.len() implies {
                    let pr = #[trigger] ps[t];
                    &&& pr.0 < pr.1
                    &&& (pr.1 as int) < sq.len()
                    &&& sq[pr.0 as int]
                    &&& eq[pr.1 as int]
                } by {
                    let pr2 = rest[t];
                    assert(pr2.0 < pr2.1 && (pr2.1 as int) < sq.len() && sq[pr2.0 as int]
                        && eq[pr2.1 as int]);
                    assert(ps[t] == rest[t]);
                }
            },
            Option::Some(o) => {
                if eq[j] {
                    lemma_greedy_pairs_props(sq, eq, j + 1, Option::None);
                    let ps = greedy_pairs(sq, eq, j, opened);
                    let rest = greedy_pairs(sq, eq, j + 1, Option::None);
                    assert(ps == seq![(o as usize, j as usize)] + rest);
                    assert(forall|t: int| 1 <= t < ps.len() ==> ps[t] == rest[t - 1]);
                    assert(ps[0] == (o as usize, j as usize));
                    assert forall|t: int| 0 <= t < ps.len() implies {
                        let pr = #[trigger] ps[t];
                        &&& pr.0 < pr.1
                        &&& (pr.1 as int) < sq.len()
                        &&& sq[pr.0 as int]
                        &&& eq[pr.1 as int]
                    } by {
                        if t >= 1 {
                            assert(ps[t] == rest[t - 1]);
                            let pr2 = rest[t - 1];
                            assert(pr2.0 < pr2.1 && (pr2.1 as int) < sq.len() && sq[pr2.0 as int]
                                && eq[pr2.1 as int]);
                        } else {
                            assert(ps[0].0 == o as usize && ps[0].1 == j as usize);
                        }
                    }
                } else {
                    lemma_greedy_pairs_props(sq, eq, j + 1, Option::Some(o));
                    let ps = greedy_pairs(sq, eq, j, opened);
                    let rest = greedy_pairs(sq, eq, j + 1, Option::Some(o));
                    assert(ps == rest);
                    assert forall|t: int| 0 <= t < ps.len() implies {
                        let pr = #[trigger] ps[t];
                        &&& pr.0 < pr.1
                        &&& (pr.1 as int) < sq.len()
                        &&& sq[pr.0 as int]
                        &&& eq[pr.1 as int]
                    } by {
                        let pr2 = rest[t];
                        assert(pr2.0 < pr2.1 && (pr2.1 as int) < sq.len() && sq[pr2.0 as int]
                            && eq[pr2.1 as int]);
                        assert(ps[t] == rest[t]);
                    }
                }
            },
        }
    }
}

impl Solution {
    /// Consistent lengths of the candidate sequences and their bitsets.
    pub open spec fn wf(self) -> bool {
        &&& self.spec_can_start().len() == self.spec_qlocs().len()
        &&& self.spec_can_end().len() == self.spec_qlocs().len()
        &&& self.spec_quote_valid().len() == self.spec_qlocs().len()
        &&& self.spec_delimiter_valid().len() == self.spec_dlocs().len()
    }

    /// The greedy rank pairs under a given structural-quote assignment.
    pub open spec fn rank_pairs_under(self, qv: Seq<bool>) -> Seq<(usize, usize)> {
        greedy_pairs(
            and_bits(self.spec_can_start(), qv),
            and_bits(self.spec_can_end(), qv),
            0,
            Option::None,
        )
    }

    /// The greedy rank pairs under the solution's own quote bits.
    pub open spec fn rank_pairs_of(self) -> Seq<(usize, usize)> {
        self.rank_pairs_under(self.spec_quote_valid())
    }

    /// Greedy pairing under an explicit structural-quote assignment,
    /// returned as candidate ranks.
    fn pair_ranks(&self, quote_valid: &crate::csv::mask::Mask) -> (pairs: Vec<(usize, usize)>)
        requires
            self.wf(),
            crate::csv::mask::mask_bits(*quote_valid).len() == self.spec_qlocs().len(),
        ensures
            pairs@ == self.rank_pairs_under(crate::csv::mask::mask_bits(*quote_valid)),
            forall|t: int|
                0 <= t < pairs@.len() ==> (#[trigger] pairs@[t]).0 < pairs@[t].1
                    && (pairs@[t].1 as int) < self.spec_qlocs().len(),
    {
        let ghost qv = crate::csv::mask::mask_bits(*quote_valid);
        let ghost sq = and_bits(self.spec_can_start(), qv);
        let ghost eq = and_bits(self.spec_can_end(), qv);
        let qn = self.quote_locations.len();
        proof {
            assert(crate::csv::mask::mask_bits(self.quote_can_start).len() == qn);
            assert(sq.len() == qn && eq.len() == qn);
        }
        let mut pairs: Vec<(usize, usize)> = Vec::new();
        let mut cur_open: Option<usize> = None;
        let ghost mut opened: Option<int> = Option::None;
        let mut j: usize = 0;
        while j < qn
            invariant
                j <= qn,
                qn == self.spec_qlocs().len(),
                self.wf(),
                qv == crate::csv::mask::mask_bits(*quote_valid),
                qv.len() == qn,
                sq == and_bits(self.spec_can_start(), qv),
                eq == and_bits(self.spec_can_end(), qv),
                sq.len() == qn,
                eq.len() == qn,
                match cur_open {
                    Option::Some(o) => opened == Option::Some(o as int) && (o as int) < j
                        && sq[o as int],
                    Option::None => opened is None,
                },
                greedy_pairs(sq, eq, 0, Option::None) == pairs@ + greedy_pairs(
                    sq,
                    eq,
                    j as int,
                    opened,
                ),
            decreases qn - j,
        {
            match cur_open {
                None => {
                    let bit = crate::csv::mask::mask_get(&self.quote_can_start, j)
                        && crate::csv::mask::mask_get(quote_valid, j);
                    proof {
                        assert(bit == sq[j as int]);
                        assert(greedy_pairs(sq, eq, j as int, opened) == greedy_pairs(
                            sq,
                            eq,
                            j + 1,
                            if sq[j as int] {
                                Option::Some(j as int)
                            } else {
                                Option::None
                            },
                        ));
                    }
                    if bit {
                        cur_open = Some(j);
                        proof {
                            opened = Option::Some(j as int);
                        }
                    }
                },
                Some(o) => {
                    let bit = crate::csv::mask::mask_get(&self.quote_can_end, j)
                        && crate::csv::mask::mask_get(quote_valid, j);
                    proof {
                        assert(bit == eq[j as int]);
                    }
                    if bit {
                        let ghost before = pairs@;
                        pairs.push((o, j));
                        proof {
                            assert(greedy_pairs(sq, eq, j as int, opened) == seq![
                                (o, j),
                            ] + greedy_pairs(sq, eq, j + 1, Option::None));
                            assert(before + (seq![(o, j)] + greedy_pairs(
                                sq,
                                eq,
                                j + 1,
                                Option::None,
                            )) =~= pairs@ + greedy_pairs(sq, eq, j + 1, Option::None));
                            opened = Option::None;
                        }
                        cur_open = None;
                    } else {
                        proof {
                            assert(greedy_pairs(sq, eq, j as int, opened) == greedy_pairs(
                                sq,
                                eq,
                                j + 1,
                                opened,
                            ));
                        }
                    }
                },
            }
            j = j + 1;
        }
        proof {
            assert(greedy_pairs(sq, eq, j as int, opened) =~= Seq::<(usize, usize)>::empty());
            assert(pairs@ + Seq::<(usize, usize)>::empty() =~= pairs@);
            lemma_greedy_pairs_props(sq, eq, 0, Option::None);
        }
        pairs
    }

    /// The quote pairs of the current assignment, in ascending order, as
    /// byte offsets.
    pub fn iter_quote_pairs(&self) -> (pairs: Vec<(usize, usize)>)
        requires
            self.wf(),
        ensures
            pairs@.len() == self.rank_pairs_of().len(),
            forall|t: int|
                0 <= t < pairs@.len() ==> #[trigger] pairs@[t] == (
                    self.spec_qlocs()[self.rank_pairs_of()[t].0 as int],
                    self.spec_qlocs()[self.rank_pairs_of()[t].1 as int],
                ),
    {
        let ranks = self.pair_ranks(&self.quote_valid);
        self.ranks_to_offsets(ranks)
    }

    /// Map rank pairs to byte-offset pairs.
    fn ranks_to_offsets(&self, ranks: Vec<(usize, usize)>) -> (pairs: Vec<(usize, usize)>)
        requires
            forall|t: int|
                0 <= t < ranks@.len() ==> (#[trigger] ranks@[t]).0 < ranks@[t].1 && (
                ranks@[t].1 as int) < self.spec_qlocs().len(),
        ensures
            pairs@.len() == ranks@.len(),
            forall|t: int|
                0 <= t < pairs@.len() ==> #[trigger] pairs@[t] == (
                    self.spec_qlocs()[ranks@[t].0 as int],
                    self.spec_qlocs()[ranks@[t].1 as int],
                ),
    {
        let mut pairs: Vec<(usize, usize)> = Vec::new();
        let mut t: usize = 0;
        while t < ranks.len()
            invariant
                t <= ranks@.len(),
                forall|u: int|
                    0 <= u < ranks@.len() ==> (#[trigger] ranks@[u]).0 < ranks@[u].1 && (
                    ranks@[u].1 as int) < self.spec_qlocs().len(),
                pairs@.len() == t,
                forall|u: int|
                    0 <= u < t ==> #[trigger] pairs@[u] == (
                        self.spec_qlocs()[ranks@[u].0 as int],
                        self.spec_qlocs()[ranks@[u].1 as int],
                    ),
            decreases ranks@.len() - t,
        {
            let (a, b) = ranks[t];
            let pa = self.quote_locations[a];
            let pb = self.quote_locations[b];
            pairs.push((pa, pb));
            t = t + 1;
        }
        pairs
    }
}

/// Whether some recorded pair is exactly `(a, b)`.
pub open spec fn has_pair(pairs: Seq<(usize, usize)>, a: int, b: int) -> bool {
    exists|t: int| 0 <= t < pairs.len() && (#[trigger] pairs[t]).0 == a && pairs[t].1 == b
}

/// Whether position `p` falls strictly inside some pair.
pub open spec fn inside_any(pairs: Seq<(usize, usize)>, p: int) -> bool {
    exists|t: int| 0 <= t < pairs.len() && (#[trigger] pairs[t]).0 < p < pairs[t].1
}

/// The positions among the first `n` whose keep bit is set, in order.
pub open spec fn filter_locs(locs: Seq<usize>, keep: Seq<bool>, n: int) -> Seq<usize>
    decreases n,
{
    if n <= 0 {
        Seq::empty()
    } else {
        filter_locs(locs, keep, n - 1) + if keep[n - 1] {
            seq![locs[n - 1]]
        } else {
            Seq::empty()
        }
    }
}

/// The bytes of cell `i` when the buffer is split at the boundaries `bs`:
/// the run between the surrounding boundaries, with one leading and one
/// trailing quote byte stripped when the run's ends form a resolved pair.
pub open spec fn cell_at(raw: Seq<u8>, bs: Seq<usize>, pairs: Seq<(usize, usize)>, i: int) -> Seq<
    u8,
> {
    let start: int = if i == 0 {
        0
    } else {
        bs[i - 1] + 1
    };
    let end: int = if i < bs.len() {
        bs[i] as int
    } else {
        raw.len() as int
    };
    let content = raw.subrange(start, end);
    if content.len() >= 2 && has_pair(pairs, start, end - 1) {
        content.subrange(1, content.len() - 1)
    } else {
        content
    }
}

/// All cells of the buffer under the boundaries `bs`.
pub open spec fn cells_of(raw: Seq<u8>, bs: Seq<usize>, pairs: Seq<(usize, usize)>) -> Seq<
    Seq<u8>,
> {
    Seq::new((bs.len() + 1) as nat, |i: int| cell_at(raw, bs, pairs, i))
}

fn copy_range(raw: &Vec<u8>, start: usize, end: usize) -> (r: Vec<u8>)
    requires
        start <= end <= raw@.len(),
    ensures
        r@ == raw@.subrange(start as int, end as int),
{
    let mut r: Vec<u8> = Vec::new();
    let mut i: usize = start;
    proof {
        assert(r@ =~= raw@.subrange(start as int, start as int));
    }
    while i < end
        invariant
            start <= i <= end <= raw@.len(),
            r@ == raw@.subrange(start as int, i as int),
        decreases end - i,
    {
        r.push(raw[i]);
        proof {
            assert(r@ =~= raw@.subrange(start as int, i + 1));
        }
        i = i + 1;
    }
    r
}

fn pair_starts(pairs: &Vec<(usize, usize)>, a: usize, b: usize) -> (r: bool)
    ensures
        r == has_pair(pairs@, a as int, b as int),
{
    let mut t: usize = 0;
    let mut found = false;
    while t < pairs.len()
        invariant
            t <= pairs@.len(),
            found ==> has_pair(pairs@, a as int, b as int),
            !found ==> forall|u: int|
                0 <= u < t ==> !((#[trigger] pairs@[u]).0 == a && pairs@[u].1 == b),
        decreases pairs@.len() - t,
    {
        let (x, y) = pairs[t];
        if x == a && y == b {
            found = true;
        }
        t = t + 1;
    }
    found
}

fn inside_any_exec(pairs: &Vec<(usize, usize)>, p: usize) -> (r: bool)
    ensures
        r == inside_any(pairs@, p as int),
{
    let mut t: usize = 0;
    let mut found = false;
    while t < pairs.len()
        invariant
            t <= pairs@.len(),
            found ==> inside_any(pairs@, p as int),
            !found ==> forall|u: int|
                0 <= u < t ==> !((#[trigger] pairs@[u]).0 < p && p < pairs@[u].1),
        decreases pairs@.len() - t,
    {
        let (x, y) = pairs[t];
        if x < p && p < y {
            found = true;
        }
        t = t + 1;
    }
    found
}

proof fn lemma_sum_len_push(s: Seq<Seq<u8>>, x: Seq<u8>)
    ensures
        sum_len(s.push(x)) == sum_len(s) + x.len(),
{
    assert(s.push(x).drop_last() =~= s);
    assert(s.push(x).last() == x);
}

/// Split the buffer at the boundaries, stripping the quotes of resolved
/// pairs.  The cells cover disjoint runs, so they hold at most the whole
/// buffer.
fn extract_cells(raw: &Vec<u8>, bs: &Vec<usize>, pairs: &Vec<(usize, usize)>) -> (cells: Vec<
    Vec<u8>,
>)
    requires
        forall|t: int| 0 <= t < bs@.len() ==> (#[trigger] bs@[t]) < raw@.len(),
        forall|t1: int, t2: int|
            0 <= t1 < t2 < bs@.len() ==> (#[trigger] bs@[t1]) < (#[trigger] bs@[t2]),
    ensures
        crate::cells_view(cells@) == cells_of(raw@, bs@, pairs@),
        sum_len(crate::cells_view(cells@)) <= raw@.len(),
{
    let mut cells: Vec<Vec<u8>> = Vec::new();
    let rl = raw.len();
    let mut prev: usize = 0;
    let mut i: usize = 0;
    while i < bs.len()
        invariant
            rl == raw@.len(),
            i <= bs@.len(),
            forall|t: int| 0 <= t < bs@.len() ==> (#[trigger] bs@[t]) < raw@.len(),
            forall|t1: int, t2: int|
                0 <= t1 < t2 < bs@.len() ==> (#[trigger] bs@[t1]) < (#[trigger] bs@[t2]),
            prev as int == (if i == 0 {
                0int
            } else {
                bs@[i - 1] + 1
            }),
            prev <= raw@.len(),
            cells@.len() == i,
            forall|t: int|
                0 <= t < i ==> crate::cells_view(cells@)[t] == cell_at(raw@, bs@, pairs@, t),
            sum_len(crate::cells_view(cells@)) <= prev,
        decreases bs@.len() - i,
    {
        let p = bs[i];
        proof {
            if i > 0 {
                assert(bs@[i - 1] < bs@[i as int]);
            }
            assert(prev <= p);
            assert(p < rl);
        }
        let ghost before = cells@;
        let cell = if p - prev >= 2 && pair_starts(pairs, prev, p - 1) {
            let c = copy_range(raw, prev + 1, p - 1);
            proof {
                let content = raw@.subrange(prev as int, p as int);
                assert(content.len() >= 2);
                assert(c@ =~= content.subrange(1, content.len() - 1));
            }
            c
        } else {
            let c = copy_range(raw, prev, p);
            c
        };
        proof {
            assert(cell@ == cell_at(raw@, bs@, pairs@, i as int));
            lemma_sum_len_push(crate::cells_view(before), cell@);
        }
        cells.push(cell);
        proof {
            crate::lemma_cells_view_push(before, cell);
            assert(sum_len(crate::cells_view(cells@)) <= prev + (p - prev));
        }
        prev = p + 1;
        i = i + 1;
    }
    let ghost before = cells@;
    let cell = if rl - prev >= 2 && pair_starts(pairs, prev, rl - 1) {
        let c = copy_range(raw, prev + 1, rl - 1);
        proof {
            let content = raw@.subrange(prev as int, rl as int);
            assert(content.len() >= 2);
            assert(c@ =~= content.subrange(1, content.len() - 1));
        }
        c
    } else {
        let c = copy_range(raw, prev, rl);
        c
    };
    proof {
        assert(cell@ == cell_at(raw@, bs@, pairs@, bs@.len() as int));
        lemma_sum_len_push(crate::cells_view(before), cell@);
    }
    cells.push(cell);
    proof {
        crate::lemma_cells_view_push(before, cell);
        assert(crate::cells_view(cells@) =~= cells_of(raw@, bs@, pairs@));
    }
    cells
}

/// Rows formed by closing the current row at every newline boundary.
pub open spec fn group_rec(
    cells: Seq<Seq<u8>>,
    is_nl: Seq<bool>,
    i: int,
    cur: Seq<Seq<u8>>,
) -> Seq<Seq<Seq<u8>>>
    decreases cells.len() - i,
{
    if i < 0 || i >= cells.len() {
        seq![cur]
    } else {
        let cur2 = cur.push(cells[i]);
        if i == cells.len() - 1 {
            seq![cur2]
        } else if is_nl[i] {
            seq![cur2] + group_rec(cells, is_nl, i + 1, Seq::empty())
        } else {
            group_rec(cells, is_nl, i + 1, cur2)
        }
    }
}

/// The rows of a cell sequence: split after every newline boundary; a
/// buffer that ends with a structural newline contributes no empty final
/// row.
pub open spec fn rows_of_cells(cells: Seq<Seq<u8>>, is_nl: Seq<bool>) -> Seq<Seq<Seq<u8>>> {
    let g = group_rec(cells, is_nl, 0, Seq::empty());
    if is_nl.len() > 0 && is_nl.last() && cells.last().len() == 0 {
        g.drop_last()
    } else {
        g
    }
}

/// Every row holds exactly `n` cells.
pub open spec fn shape_ok(rows: Seq<Seq<Seq<u8>>>, n: int) -> bool {
    forall|i: int| 0 <= i < rows.len() ==> (#[trigger] rows[i]).len() == n
}

fn group_rows(cells: &Vec<Vec<u8>>, is_nl: &Vec<bool>) -> (rows: Vec<Vec<Vec<u8>>>)
    requires
        cells@.len() == is_nl@.len() + 1,
    ensures
        crate::table_view(rows@) == rows_of_cells(crate::cells_view(cells@), is_nl@),
{
    let ghost cv = crate::cells_view(cells@);
    let mut rows: Vec<Vec<Vec<u8>>> = Vec::new();
    let mut cur: Vec<Vec<u8>> = Vec::new();
    let mut i: usize = 0;
    proof {
        assert(crate::cells_view(cur@) =~= Seq::<Seq<u8>>::empty());
        assert(crate::table_view(rows@) =~= Seq::<Seq<Seq<u8>>>::empty());
    }
    while i < cells.len() - 1
        invariant
            i < cells@.len(),
            cells@.len() == is_nl@.len() + 1,
            cv == crate::cells_view(cells@),
            group_rec(cv, is_nl@, 0, Seq::empty()) == crate::table_view(rows@) + group_rec(
                cv,
                is_nl@,
                i as int,
                crate::cells_view(cur@),
            ),
        decreases cells@.len() - i,
    {
        let c = cells[i].clone();
        proof {
            assert(c@ == cv[i as int]);
        }
        let ghost cur_before = cur@;
        cur.push(c);
        proof {
            crate::lemma_cells_view_push(cur_before, c);
        }
        if is_nl[i] {
            let ghost rows_before = rows@;
            let done = cur;
            rows.push(done);
            cur = Vec::new();
            proof {
                crate::lemma_table_view_push(rows_before, done);
                assert(crate::cells_view(cur@) =~= Seq::<Seq<u8>>::empty());
                assert(crate::table_view(rows_before) + (seq![
                    crate::cells_view(done@),
                ] + group_rec(cv, is_nl@, i + 1, Seq::empty())) =~= crate::table_view(rows@)
                    + group_rec(cv, is_nl@, i + 1, Seq::empty()));
            }
        }
        i = i + 1;
    }
    // the final cell always closes the last row
    let c = cells[i].clone();
    proof {
        assert(c@ == cv[i as int]);
    }
    let ghost cur_before = cur@;
    cur.push(c);
    proof {
        crate::lemma_cells_view_push(cur_before, c);
    }
    let ghost rows_before = rows@;
    let done = cur;
    rows.push(done);
    proof {
        crate::lemma_table_view_push(rows_before, done);
        assert(i + 1 == cells@.len());
        assert(group_rec(cv, is_nl@, i as int, crate::cells_view(cur_before)) == seq![
            crate::cells_view(done@),
        ]);
        assert(crate::table_view(rows_before) + seq![crate::cells_view(done@)]
            =~= crate::table_view(rows@));
    }
    // drop the empty trailing row after a final structural newline
    let mut rows = rows;
    if is_nl.len() > 0 && is_nl[is_nl.len() - 1] && cells[cells.len() - 1].len() == 0 {
        let ghost rows_full = rows@;
        rows.pop();
        proof {
            assert(crate::table_view(rows@) =~= crate::table_view(rows_full).drop_last());
        }
    }
    rows
}

proof fn lemma_filter_locs_props(locs: Seq<usize>, keep: Seq<bool>, n: int, bound: int)
    requires
        0 <= n <= locs.len(),
        forall|t: int| 0 <= t < locs.len() ==> (#[trigger] locs[t]) < bound,
        forall|t1: int, t2: int|
            0 <= t1 < t2 < locs.len() ==> (#[trigger] locs[t1]) < (#[trigger] locs[t2]),
    ensures
        forall|t: int|
            0 <= t < filter_locs(locs, keep, n).len() ==> (#[trigger] filter_locs(
                locs,
                keep,
                n,
            )[t]) < bound,
        forall|t1: int, t2: int|
            0 <= t1 < t2 < filter_locs(locs, keep, n).len() ==> (#[trigger] filter_locs(
                locs,
                keep,
                n,
            )[t1]) < (#[trigger] filter_locs(locs, keep, n)[t2]),
        n > 0 ==> forall|t: int|
            0 <= t < filter_locs(locs, keep, n).len() ==> (#[trigger] filter_locs(
                locs,
                keep,
                n,
            )[t]) <= locs[n - 1],
    decreases n,
{
    if n > 0 {
        lemma_filter_locs_props(locs, keep, n - 1, bound);
        let fprev = filter_locs(locs, keep, n - 1);
        let fcur = filter_locs(locs, keep, n);
        if keep[n - 1] {
            assert(forall|t: int| 0 <= t < fprev.len() ==> fcur[t] == fprev[t]);
            assert(fcur.len() == fprev.len() + 1);
            assert(fcur[fprev.len() as int] == locs[n - 1]);
            assert forall|t: int| 0 <= t < fcur.len() implies (#[trigger] fcur[t]) < bound by {
                if t < fprev.len() {
                    assert(fcur[t] == fprev[t]);
                }
            }
            assert forall|t1: int, t2: int| 0 <= t1 < t2 < fcur.len() implies (#[trigger]
            fcur[t1]) < (#[trigger] fcur[t2]) by {
                if t2 < fprev.len() {
                    assert(fcur[t1] == fprev[t1] && fcur[t2] == fprev[t2]);
                    assert(fprev[t1] < fprev[t2]);
                } else {
                    assert(t2 == fprev.len());
                    assert(fcur[t2] == locs[n - 1]);
                    assert(fcur[t1] == fprev[t1]);
                    assert(fprev.len() > 0 && n - 1 > 0);
                    assert(fprev[t1] <= locs[n - 2]);
                    assert(locs[n - 2] < locs[n - 1]);
                }
            }
            assert forall|t: int| 0 <= t < fcur.len() implies (#[trigger] fcur[t]) <= locs[n
                - 1] by {
                if t < fprev.len() {
                    assert(fcur[t] == fprev[t]);
                    assert(fprev.len() > 0 && n - 1 > 0);
                    assert(fprev[t] <= locs[n - 2]);
                    assert(locs[n - 2] < locs[n - 1]);
                } else {
                    assert(fcur[t] == locs[n - 1]);
                }
            }
        } else {
            assert(fcur =~= fprev);
            assert forall|t: int| 0 <= t < fcur.len() implies (#[trigger] fcur[t]) < bound by {
                assert(fcur[t] == fprev[t]);
            }
            assert forall|t1: int, t2: int| 0 <= t1 < t2 < fcur.len() implies (#[trigger]
            fcur[t1]) < (#[trigger] fcur[t2]) by {
                assert(fcur[t1] == fprev[t1]);
                assert(fcur[t2] == fprev[t2]);
                assert(fprev[t1] < fprev[t2]);
            }
            assert forall|t: int| 0 <= t < fcur.len() implies (#[trigger] fcur[t]) <= locs[n
                - 1] by {
                assert(fcur[t] == fprev[t]);
                assert(fprev.len() > 0 && n - 1 > 0);
                assert(fprev[t] <= locs[n - 2]);
                assert(locs[n - 2] < locs[n - 1]);
            }
        }
    }
}

/// The byte-offset quote pairs of an assignment: greedy pairing over the
/// candidates that both survive the constraints and are marked structural.
pub open spec fn offset_pairs(raw: Seq<u8>, d: u8, q: u8, qv: Seq<bool>) -> Seq<(usize, usize)> {
    let ql = quote_locs(raw, d, q);
    let cs = Seq::new(ql.len(), |j: int| cs1(raw, d, ql, j) && qv[j]);
    let ce = Seq::new(ql.len(), |j: int| ce1(raw, d, ql, j) && qv[j]);
    greedy_pairs(cs, ce, 0, Option::None).map_values(
        |pr: (usize, usize)| (ql[pr.0 as int], ql[pr.1 as int]),
    )
}

/// A delimiter occurrence stays structural unless it falls inside a
/// resolved quote pair.
pub open spec fn assignment_keep(raw: Seq<u8>, d: u8, q: u8, qv: Seq<bool>) -> Seq<bool> {
    let dl = delim_locs(raw, d);
    Seq::new(dl.len(), |r: int| !inside_any(offset_pairs(raw, d, q, qv), dl[r] as int))
}

/// The cell boundaries of an assignment.
pub open spec fn assignment_bounds(raw: Seq<u8>, d: u8, q: u8, qv: Seq<bool>) -> Seq<usize> {
    filter_locs(
        delim_locs(raw, d),
        assignment_keep(raw, d, q, qv),
        delim_locs(raw, d).len() as int,
    )
}

/// The flat cell sequence of an assignment.
pub open spec fn assignment_cells(raw: Seq<u8>, d: u8, q: u8, qv: Seq<bool>) -> Seq<Seq<u8>> {
    cells_of(raw, assignment_bounds(raw, d, q, qv), offset_pairs(raw, d, q, qv))
}

/// The rows of an assignment: the flat cells split at newline boundaries.
pub open spec fn assignment_rows(raw: Seq<u8>, d: u8, q: u8, qv: Seq<bool>) -> Seq<
    Seq<Seq<u8>>,
> {
    let bs = assignment_bounds(raw, d, q, qv);
    rows_of_cells(
        assignment_cells(raw, d, q, qv),
        Seq::new(bs.len(), |i: int| raw[bs[i] as int] == 10),
    )
}

/// The structural-quote assignment in which nothing is a quote.
pub open spec fn all_literal(raw: Seq<u8>, d: u8, q: u8) -> Seq<bool> {
    Seq::new(quote_locs(raw, d, q).len(), |j: int| false)
}

/// The column count every row must show: the caller's fixed count, or the
/// count of the first row under the naive assignment (the presumed
/// well-formed header).
pub open spec fn spec_target(raw: Seq<u8>, d: u8, q: u8, fixed: Option<usize>) -> int {
    match fixed {
        Option::Some(n) => n as int,
        Option::None => {
            let rows0 = assignment_rows(raw, d, q, all_literal(raw, d, q));
            if rows0.len() == 0 {
                0
            } else {
                rows0[0].len() as int
            }
        },
    }
}

impl Solution {
    /// The boundaries and flat cells under explicit quote/delimiter masks.
    fn boundaries_and_cells(
        &self,
        raw: &Vec<u8>,
        qv: &crate::csv::mask::Mask,
        dv: &crate::csv::mask::Mask,
    ) -> (out: (Vec<usize>, Vec<Vec<u8>>))
        requires
            self.built_from(raw@),
            crate::csv::mask::mask_bits(*qv).len() == self.spec_qlocs().len(),
            crate::csv::mask::mask_bits(*dv).len() == self.spec_dlocs().len(),
        ensures
            out.0@ == filter_locs(
                self.spec_dlocs(),
                crate::csv::mask::mask_bits(*dv),
                self.spec_dlocs().len() as int,
            ),
            forall|t: int| 0 <= t < out.0@.len() ==> (#[trigger] out.0@[t]) < raw@.len(),
            forall|t1: int, t2: int|
                0 <= t1 < t2 < out.0@.len() ==> (#[trigger] out.0@[t1]) < (#[trigger] out.0@[t2]),
            crate::cells_view(out.1@) == cells_of(
                raw@,
                out.0@,
                offset_pairs(
                    raw@,
                    self.spec_delimiter(),
                    self.spec_quote(),
                    crate::csv::mask::mask_bits(*qv),
                ),
            ),
            out.1@.len() == out.0@.len() + 1,
            sum_len(crate::cells_view(out.1@)) <= raw@.len(),
    {
        let ghost d = self.spec_delimiter();
        let ghost qb = self.spec_quote();
        let ghost qvb = crate::csv::mask::mask_bits(*qv);
        let ghost ql = self.spec_qlocs();
        let ghost dl = self.spec_dlocs();
        proof {
            lemma_locs_props(raw@, d, qb);
        }
        let ranks = self.pair_ranks(qv);
        let pairs = self.ranks_to_offsets(ranks);
        proof {
            let cs = Seq::new(ql.len(), |j: int| cs1(raw@, d, ql, j) && qvb[j]);
            let ce = Seq::new(ql.len(), |j: int| ce1(raw@, d, ql, j) && qvb[j]);
            assert(and_bits(self.spec_can_start(), qvb) =~= cs);
            assert(and_bits(self.spec_can_end(), qvb) =~= ce);
            assert(pairs@ =~= offset_pairs(raw@, d, qb, qvb));
        }
        let dn = self.delimiter_locations.len();
        let mut bs: Vec<usize> = Vec::new();
        let mut r: usize = 0;
        proof {
            assert(filter_locs(dl, crate::csv::mask::mask_bits(*dv), 0)
                =~= Seq::<usize>::empty());
        }
        while r < dn
            invariant
                r <= dn,
                dn == dl.len(),
                dl == self.spec_dlocs(),
                crate::csv::mask::mask_bits(*dv).len() == dn,
                bs@ == filter_locs(dl, crate::csv::mask::mask_bits(*dv), r as int),
            decreases dn - r,
        {
            let keep = crate::csv::mask::mask_get(dv, r);
            let ghost before = bs@;
            if keep {
                let pos = self.delimiter_locations[r];
                bs.push(pos);
                proof {
                    assert(bs@ =~= filter_locs(dl, crate::csv::mask::mask_bits(*dv), r + 1));
                }
            } else {
                proof {
                    assert(bs@ =~= filter_locs(dl, crate::csv::mask::mask_bits(*dv), r + 1));
                }
            }
            r = r + 1;
        }
        proof {
            lemma_filter_locs_props(
                dl,
                crate::csv::mask::mask_bits(*dv),
                dl.len() as int,
                raw@.len() as int,
            );
        }
        let cells = extract_cells(raw, &bs, &pairs);
        (bs, cells)
    }

    /// The cells of the current assignment: the buffer split at every
    /// structural delimiter or newline, quote pairs stripped.
    pub fn iter_cells(&self, raw: &Vec<u8>) -> (cells: Vec<Vec<u8>>)
        requires
            self.built_from(raw@),
        ensures
            crate::cells_view(cells@) == cells_of(
                raw@,
                filter_locs(
                    self.spec_dlocs(),
                    self.spec_delimiter_valid(),
                    self.spec_dlocs().len() as int,
                ),
                offset_pairs(
                    raw@,
                    self.spec_delimiter(),
                    self.spec_quote(),
                    self.spec_quote_valid(),
                ),
            ),
    {
        let (_bs, cells) = self.boundaries_and_cells(raw, &self.quote_valid, &self.delimiter_valid);
        cells
    }
}

/// One trial of the search: the rows, flat cells and active-candidate count
/// of the assignment given by the quote mask, with the delimiters inside
/// resolved pairs treated as literal.
fn try_assignment(sol: &Solution, raw: &Vec<u8>, qv: &crate::csv::mask::Mask) -> (out: (
    Vec<Vec<u8>>,
    Vec<Vec<Vec<u8>>>,
    usize,
))
    requires
        sol.built_from(raw@),
        crate::csv::mask::mask_bits(*qv).len() == sol.spec_qlocs().len(),
    ensures
        crate::cells_view(out.0@) == assignment_cells(
            raw@,
            sol.spec_delimiter(),
            sol.spec_quote(),
            crate::csv::mask::mask_bits(*qv),
        ),
        sum_len(crate::cells_view(out.0@)) <= raw@.len(),
        crate::table_view(out.1@) == assignment_rows(
            raw@,
            sol.spec_delimiter(),
            sol.spec_quote(),
            crate::csv::mask::mask_bits(*qv),
        ),
{
    let ghost d = sol.spec_delimiter();
    let ghost qb = sol.spec_quote();
    let ghost qvb = crate::csv::mask::mask_bits(*qv);
    let ghost dl = sol.spec_dlocs();
    proof {
        lemma_locs_props(raw@, d, qb);
    }
    let ranks = sol.pair_ranks(qv);
    let pairs = sol.ranks_to_offsets(ranks);
    proof {
        let ql = sol.spec_qlocs();
        let cs = Seq::new(ql.len(), |j: int| cs1(raw@, d, ql, j) && qvb[j]);
        let ce = Seq::new(ql.len(), |j: int| ce1(raw@, d, ql, j) && qvb[j]);
        assert(and_bits(sol.spec_can_start(), qvb) =~= cs);
        assert(and_bits(sol.spec_can_end(), qvb) =~= ce);
        assert(pairs@ =~= offset_pairs(raw@, d, qb, qvb));
    }
    let dn = sol.delimiter_locations.len();
    let mut dv = crate::csv::mask::mask_repeat(false, dn);
    let mut active: usize = 0;
    let mut r: usize = 0;
    while r < dn
        invariant
            r <= dn,
            sol.built_from(raw@),
            d == sol.spec_delimiter(),
            qb == sol.spec_quote(),
            qvb == crate::csv::mask::mask_bits(*qv),
            dn == dl.len(),
            dl == sol.spec_dlocs(),
            pairs@ == offset_pairs(raw@, d, qb, qvb),
            forall|t: int| 0 <= t < dl.len() ==> (#[trigger] dl[t]) < raw@.len(),
            crate::csv::mask::mask_bits(dv).len() == dn,
            forall|t: int|
                0 <= t < r ==> crate::csv::mask::mask_bits(dv)[t] == assignment_keep(
                    raw@,
                    d,
                    qb,
                    qvb,
                )[t],
            active <= r,
        decreases dn - r,
    {
        let pos = sol.delimiter_locations[r];
        let keep = !inside_any_exec(&pairs, pos);
        proof {
            assert(pos == dl[r as int]);
            assert(dl == delim_locs(raw@, d));
            assert(assignment_keep(raw@, d, qb, qvb)[r as int] == !inside_any(
                offset_pairs(raw@, d, qb, qvb),
                dl[r as int] as int,
            ));
            assert(keep == !inside_any(pairs@, pos as int));
            assert(keep == assignment_keep(raw@, d, qb, qvb)[r as int]);
        }
        crate::csv::mask::mask_set(&mut dv, r, keep);
        if keep {
            active = active + 1;
        }
        r = r + 1;
    }
    proof {
        assert(crate::csv::mask::mask_bits(dv) =~= assignment_keep(raw@, d, qb, qvb));
    }
    let sw = Switches { delimiter_valid: dv, quote_valid: crate::csv::mask::mask_clone(qv) };
    let (bs, cells) = sol.boundaries_and_cells(raw, &sw.quote_valid, &sw.delimiter_valid);
    proof {
        assert(bs@ == assignment_bounds(raw@, d, qb, qvb));
        assert(crate::cells_view(cells@) == assignment_cells(raw@, d, qb, qvb));
    }
    // count the structural quotes into the active total
    let qn = sol.quote_locations.len();
    let mut j: usize = 0;
    while j < qn
        invariant
            j <= qn,
            qn == crate::csv::mask::mask_bits(*qv).len(),
            active <= dn + j,
        decreases qn - j,
    {
        if crate::csv::mask::mask_get(qv, j) {
            if active < usize::MAX {
                active = active + 1;
            }
        }
        j = j + 1;
    }
    // newline boundaries close rows
    let mut is_nl: Vec<bool> = Vec::new();
    let mut t: usize = 0;
    while t < bs.len()
        invariant
            t <= bs@.len(),
            forall|u: int| 0 <= u < bs@.len() ==> (#[trigger] bs@[u]) < raw@.len(),
            is_nl@.len() == t,
            forall|u: int| 0 <= u < t ==> is_nl@[u] == (raw@[bs@[u] as int] == 10),
        decreases bs@.len() - t,
    {
        let pos = bs[t];
        is_nl.push(raw[pos] == 10);
        t = t + 1;
    }
    let rows = group_rows(&cells, &is_nl);
    proof {
        assert(is_nl@ =~= Seq::new(bs@.len(), |i: int| raw@[bs@[i] as int] == 10));
        assert(crate::table_view(rows@) == assignment_rows(raw@, d, qb, qvb));
    }
    (cells, rows, active)
}

/// Whether every row holds exactly `n` cells.
fn rows_shape_ok(rows: &Vec<Vec<Vec<u8>>>, n: usize) -> (b: bool)
    ensures
        b == shape_ok(crate::table_view(rows@), n as int),
{
    let mut i: usize = 0;
    let mut ok = true;
    while i < rows.len()
        invariant
            i <= rows@.len(),
            ok == (forall|t: int|
                0 <= t < i ==> (#[trigger] crate::table_view(rows@)[t]).len() == n),
        decreases rows@.len() - i,
    {
        if rows[i].len() != n {
            ok = false;
        }
        proof {
            assert(crate::table_view(rows@)[i as int].len() == rows@[i as int]@.len());
        }
        i = i + 1;
    }
    ok
}

/// The cells of column `c` among the first `j` flat cells, where cell `t`
/// belongs to column `t mod n`.
pub open spec fn column_cells_upto(cells: Seq<Seq<u8>>, n: int, c: int, j: int) -> Seq<Seq<u8>>
    decreases j,
{
    if j <= 0 {
        Seq::empty()
    } else {
        column_cells_upto(cells, n, c, j - 1) + if (j - 1) % n == c {
            seq![cells[j - 1]]
        } else {
            Seq::empty()
        }
    }
}

/// The class histogram of column `c` of a flat cell sequence.
pub open spec fn column_counts(cells: Seq<Seq<u8>>, d: u8, n: int, c: int) -> Seq<u64> {
    Seq::new(
        CLASS_COUNT as nat,
        |k: int|
            count_class_all(
                column_cells_upto(cells, n, c, cells.len() as int),
                d,
                k,
            ) as u64,
    )
}

/// The summed scaled heterogeneity of the first `c` of `n` columns.
pub open spec fn score_upto(cells: Seq<Seq<u8>>, d: u8, n: int, c: int) -> int
    decreases c,
{
    if c <= 0 {
        0
    } else {
        score_upto(cells, d, n, c - 1) + spec_gini(column_counts(cells, d, n, c - 1))
    }
}

/// The search objective of an assignment: the summed scaled heterogeneity
/// of its `n` columns.
pub open spec fn assignment_score(raw: Seq<u8>, d: u8, q: u8, qv: Seq<bool>, n: int) -> int {
    score_upto(assignment_cells(raw, d, q, qv), d, n, n)
}

proof fn lemma_count_class_all_bounds(runs: Seq<Seq<u8>>, d: u8, k: int)
    ensures
        0 <= count_class_all(runs, d, k) <= sum_len(runs),
    decreases runs.len(),
{
    if runs.len() > 0 {
        lemma_count_class_all_bounds(runs.drop_last(), d, k);
        lemma_count_class_nonneg(runs.last(), d, k);
    }
}

/// The summed scaled heterogeneity of the columns: cell `j` of the flat
/// sequence belongs to column `j mod n`.
fn score_cells(cells: &Vec<Vec<u8>>, n: usize, delimiter: u8) -> (score: u128)
    requires
        sum_len(crate::cells_view(cells@)) <= MAX_COLUMN_BYTES as int,
    ensures
        score as int == score_upto(crate::cells_view(cells@), delimiter, n as int, n as int),
{
    let ghost cv = crate::cells_view(cells@);
    proof {
        lemma_sum_len_nonneg(cv);
    }
    let mut score: u128 = 0;
    let mut c: usize = 0;
    while c < n
        invariant
            c <= n,
            cv == crate::cells_view(cells@),
            sum_len(cv) <= MAX_COLUMN_BYTES as int,
            score as int <= c as int * (GINI_SCALE as int),
            score as int == score_upto(cv, delimiter, n as int, c as int),
        decreases n - c,
    {
        let mut col: Vec<Vec<u8>> = Vec::new();
        let mut j: usize = 0;
        proof {
            assert(crate::cells_view(col@) =~= Seq::<Seq<u8>>::empty());
            assert(cv.take(0) =~= Seq::<Seq<u8>>::empty());
            lemma_sum_len_nonneg(crate::cells_view(col@));
        }
        while j < cells.len()
            invariant
                j <= cells@.len(),
                c < n,
                cv == crate::cells_view(cells@),
                cv.len() == cells@.len(),
                sum_len(cv) <= MAX_COLUMN_BYTES as int,
                sum_len(crate::cells_view(col@)) <= sum_len(cv.take(j as int)),
                0 <= sum_len(crate::cells_view(col@)),
                crate::cells_view(col@) == column_cells_upto(cv, n as int, c as int, j as int),
            decreases cells@.len() - j,
        {
            proof {
                assert(cv.take(j + 1).drop_last() =~= cv.take(j as int));
                assert(cv.take(j + 1).last() == cv[j as int]);
            }
            if j % n == c {
                let cell = cells[j].clone();
                proof {
                    assert(cell@ == cv[j as int]);
                    lemma_sum_len_push(crate::cells_view(col@), cell@);
                }
                let ghost col_before = col@;
                col.push(cell);
                proof {
                    crate::lemma_cells_view_push(col_before, cell);
                    assert(crate::cells_view(col@) =~= column_cells_upto(
                        cv,
                        n as int,
                        c as int,
                        j + 1,
                    ));
                }
            } else {
                proof {
                    assert(crate::cells_view(col@) =~= column_cells_upto(
                        cv,
                        n as int,
                        c as int,
                        j + 1,
                    ));
                }
            }
            j = j + 1;
        }
        proof {
            assert(cv.take(j as int) =~= cv);
            lemma_sum_len_take_le(cv, j as int);
        }
        let hist = ColumnComplexity::from_byte_slice_iter(&col, delimiter);
        let g = hist.gini_impurity();
        proof {
            let colv = crate::cells_view(col@);
            assert forall|k: int|
                0 <= k < CLASS_COUNT implies hist.counts()[k] == column_counts(
                cv,
                delimiter,
                n as int,
                c as int,
            )[k] by {
                lemma_count_class_all_bounds(colv, delimiter, k);
            }
            assert(hist.counts() =~= column_counts(cv, delimiter, n as int, c as int));
            assert(g as int == spec_gini(column_counts(cv, delimiter, n as int, c as int)));
            assert(score_upto(cv, delimiter, n as int, c + 1) == score_upto(
                cv,
                delimiter,
                n as int,
                c as int,
            ) + spec_gini(column_counts(cv, delimiter, n as int, c as int)));
            assert((c as int) * (GINI_SCALE as int) + (GINI_SCALE as int) == ((c as int) + 1) * (
            GINI_SCALE as int)) by (nonlinear_arith);
            assert((c as int) <= 0xFFFF_FFFF_FFFF_FFFFu64 as int);
            assert(((c as int) + 1) * (GINI_SCALE as int) <= (0xFFFF_FFFF_FFFF_FFFFu64 as int + 1)
                * (GINI_SCALE as int)) by (nonlinear_arith)
                requires
                    0 <= c as int <= 0xFFFF_FFFF_FFFF_FFFFu64 as int,
            ;
        }
        score = score + (g as u128);
        c = c + 1;
    }
    score
}

pub const AMBIGUOUS_MSG: &'static str =
    "No shape-valid assignment found within the search budget.";

/// The structural-quote assignment examined at search step `t`: candidate
/// rank `j` is structural exactly when bit `j` of `t` is set (ranks past 30
/// stay literal; the enumeration is bounded).
pub open spec fn trial_mask(t: usize, qn: nat) -> Seq<bool> {
    Seq::new(qn, |j: int| j < 31 && ((t >> (j as usize)) & 1usize) == 1usize)
}

/// How many distinct assignments the bounded enumeration can reach.
pub open spec fn trial_limit(qn: nat) -> int {
    if qn >= 31 {
        usize::MAX as int
    } else {
        (1usize << (qn as usize)) as int
    }
}

/// The index of the first row of the wrong shape at or after `i`, and zero
/// when every row fits.
pub open spec fn first_bad_row(rows: Seq<Seq<Seq<u8>>>, n: int, i: int) -> int
    decreases rows.len() - i,
{
    if i < 0 || i >= rows.len() {
        0
    } else if rows[i].len() != n {
        i
    } else {
        first_bad_row(rows, n, i + 1)
    }
}

proof fn lemma_first_bad_at(rows: Seq<Seq<Seq<u8>>>, n: int, i: int, k: int)
    requires
        0 <= i <= k < rows.len(),
        forall|u: int| i <= u < k ==> (#[trigger] rows[u]).len() == n,
        rows[k].len() != n,
    ensures
        first_bad_row(rows, n, i) == k,
    decreases k - i,
{
    if i < k {
        lemma_first_bad_at(rows, n, i + 1, k);
    }
}

proof fn lemma_first_bad_none(rows: Seq<Seq<Seq<u8>>>, n: int, i: int)
    requires
        0 <= i,
        forall|u: int| i <= u < rows.len() ==> (#[trigger] rows[u]).len() == n,
    ensures
        first_bad_row(rows, n, i) == 0,
    decreases rows.len() - i,
{
    if i < rows.len() {
        lemma_first_bad_none(rows, n, i + 1);
    }
}

/// Resolve a buffer: search over interpretations of the ambiguous quote
/// candidates, bounded by `search_budget` trials, for one whose rows all
/// show the target column count; among those, the lowest summed column
/// heterogeneity wins, and an equal score goes to the interpretation with
/// fewer structural candidates.  Trial `t` examines `trial_mask(t, ..)`;
/// trial zero is the naive assignment in which every quote candidate is
/// literal.  With no shape-valid trial, the result is an `Ambiguity`
/// failure at the first naive row of the wrong shape.
pub fn resolve(
    raw: &Vec<u8>,
    delimiter: u8,
    quote: u8,
    fixed_column_count: Option<usize>,
    search_budget: usize,
) -> (r: Result<Vec<Vec<Vec<u8>>>, crate::errors::CsvError>)
    requires
        delimiter != 10,
        delimiter != 13,
        quote != 10,
        quote != 13,
        quote != delimiter,
        raw@.len() <= MAX_COLUMN_BYTES as int,
        search_budget >= 1,
    ensures
        r matches Ok(rows) ==> exists|qv: Seq<bool>|
            qv.len() == quote_locs(raw@, delimiter, quote).len() && (#[trigger] assignment_rows(
                raw@,
                delimiter,
                quote,
                qv,
            )) == crate::table_view(rows@) && shape_ok(
                assignment_rows(raw@, delimiter, quote, qv),
                spec_target(raw@, delimiter, quote, fixed_column_count),
            ) && (forall|u: usize|
                u < search_budget && u < trial_limit(quote_locs(raw@, delimiter, quote).len())
                    && shape_ok(
                    #[trigger] assignment_rows(
                        raw@,
                        delimiter,
                        quote,
                        trial_mask(u, quote_locs(raw@, delimiter, quote).len()),
                    ),
                    spec_target(raw@, delimiter, quote, fixed_column_count),
                ) ==> assignment_score(
                    raw@,
                    delimiter,
                    quote,
                    qv,
                    spec_target(raw@, delimiter, quote, fixed_column_count),
                ) <= assignment_score(
                    raw@,
                    delimiter,
                    quote,
                    trial_mask(u, quote_locs(raw@, delimiter, quote).len()),
                    spec_target(raw@, delimiter, quote, fixed_column_count),
                )),
        (exists|t: usize|
            t < search_budget && t < trial_limit(quote_locs(raw@, delimiter, quote).len())
                && shape_ok(
                #[trigger] assignment_rows(
                    raw@,
                    delimiter,
                    quote,
                    trial_mask(t, quote_locs(raw@, delimiter, quote).len()),
                ),
                spec_target(raw@, delimiter, quote, fixed_column_count),
            )) ==> r is Ok,
        shape_ok(
            assignment_rows(raw@, delimiter, quote, all_literal(raw@, delimiter, quote)),
            spec_target(raw@, delimiter, quote, fixed_column_count),
        ) ==> r is Ok,
        r matches Err(e) ==> (e matches crate::errors::CsvError::Ambiguity(p, m) && p.line as int
            == first_bad_row(
            assignment_rows(raw@, delimiter, quote, all_literal(raw@, delimiter, quote)),
            spec_target(raw@, delimiter, quote, fixed_column_count),
            0,
        ) && p.column as int == spec_target(raw@, delimiter, quote, fixed_column_count) && m@
            == AMBIGUOUS_MSG@),
{
    let ghost d = delimiter;
    let ghost qb = quote;
    let sol = Solution::new(raw, delimiter, quote);
    let qn = sol.quote_locations.len();
    // the naive assignment: every quote candidate literal
    let qv0 = crate::csv::mask::mask_repeat(false, qn);
    proof {
        assert(crate::csv::mask::mask_bits(qv0) =~= all_literal(raw@, d, qb));
    }
    let (cells0, rows0, active0) = try_assignment(&sol, raw, &qv0);
    let ghost naive = assignment_rows(raw@, d, qb, all_literal(raw@, d, qb));
    let target: usize = match fixed_column_count {
        Some(nc) => nc,
        None => {
            if rows0.len() > 0 {
                let t = rows0[0].len();
                proof {
                    assert(crate::table_view(rows0@)[0] == crate::cells_view(rows0@[0]@));
                }
                t
            } else {
                0
            }
        },
    };
    proof {
        assert(target as int == spec_target(raw@, d, qb, fixed_column_count));
    }
    // the position reported on failure: the first naive row of wrong shape
    let ghost tv = crate::table_view(rows0@);
    let mut amb_line: usize = 0;
    let mut found_bad = false;
    let mut li: usize = 0;
    while li < rows0.len()
        invariant
            li <= rows0@.len(),
            tv == crate::table_view(rows0@),
            tv.len() == rows0@.len(),
            !found_bad ==> amb_line == 0 && (forall|u: int|
                0 <= u < li ==> (#[trigger] tv[u]).len() == target),
            found_bad ==> (amb_line as int) < li as int && tv[amb_line as int].len() != target
                && (forall|u: int| 0 <= u < amb_line ==> (#[trigger] tv[u]).len() == target),
        decreases rows0@.len() - li,
    {
        proof {
            assert(tv[li as int].len() == rows0@[li as int]@.len());
        }
        if !found_bad && rows0[li].len() != target {
            amb_line = li;
            found_bad = true;
        }
        li = li + 1;
    }
    proof {
        assert(tv == naive);
        if found_bad {
            lemma_first_bad_at(naive, target as int, 0, amb_line as int);
        } else {
            lemma_first_bad_none(naive, target as int, 0);
        }
        assert(amb_line as int == first_bad_row(naive, target as int, 0));
    }
    let naive_ok = rows_shape_ok(&rows0, target);
    let mut best_rows: Option<Vec<Vec<Vec<u8>>>> = None;
    let mut best_score: u128 = 0;
    let mut best_active: usize = 0;
    let ghost mut best_qv: Seq<bool> = crate::csv::mask::mask_bits(qv0);
    if naive_ok {
        best_score = score_cells(&cells0, target, delimiter);
        best_active = active0;
        best_rows = Some(rows0);
    }
    proof {
        assert forall|j: int| 0 <= j < qn implies !trial_mask(0, qn as nat)[j] by {
            let sh = j as usize;
            assert(((0usize >> sh) & 1usize) == 0usize) by (bit_vector);
        }
        assert(trial_mask(0, qn as nat) =~= all_literal(raw@, d, qb));
        if naive_ok {
            assert(crate::cells_view(cells0@) == assignment_cells(raw@, d, qb, best_qv));
            assert(best_score as int == assignment_score(raw@, d, qb, best_qv, target as int));
            assert forall|u: usize|
                u < 1usize && shape_ok(
                    #[trigger] assignment_rows(raw@, d, qb, trial_mask(u, qn as nat)),
                    target as int,
                ) implies best_score as int <= assignment_score(
                raw@,
                d,
                qb,
                trial_mask(u, qn as nat),
                target as int,
            ) by {
                assert(u == 0);
                assert(trial_mask(0, qn as nat) == best_qv);
            }
        }
    }
    let limit: usize = if qn >= 31 {
        usize::MAX
    } else {
        1usize << qn
    };
    proof {
        assert(limit as int == trial_limit(qn as nat));
    }
    let mut t: usize = 1;
    while t < search_budget && t < limit
        invariant
            1 <= t,
            sol.built_from(raw@),
            d == sol.spec_delimiter(),
            d == delimiter,
            qb == sol.spec_quote(),
            qb == quote,
            qn == sol.spec_qlocs().len(),
            target as int == spec_target(raw@, d, qb, fixed_column_count),
            best_rows matches Some(br) ==> best_qv.len() == quote_locs(raw@, d, qb).len()
                && assignment_rows(raw@, d, qb, best_qv) == crate::table_view(br@) && shape_ok(
                assignment_rows(raw@, d, qb, best_qv),
                target as int,
            ),
            best_rows is Some ==> best_score as int == assignment_score(
                raw@,
                d,
                qb,
                best_qv,
                target as int,
            ),
            best_rows is Some ==> forall|u: usize|
                u < t && shape_ok(
                    #[trigger] assignment_rows(raw@, d, qb, trial_mask(u, qn as nat)),
                    target as int,
                ) ==> best_score as int <= assignment_score(
                    raw@,
                    d,
                    qb,
                    trial_mask(u, qn as nat),
                    target as int,
                ),
            shape_ok(assignment_rows(raw@, d, qb, all_literal(raw@, d, qb)), target as int)
                ==> best_rows is Some,
            best_rows is None ==> forall|u: usize|
                u < t ==> !shape_ok(
                    #[trigger] assignment_rows(raw@, d, qb, trial_mask(u, qn as nat)),
                    target as int,
                ),
            raw@.len() <= MAX_COLUMN_BYTES as int,
        decreases search_budget - t,
    {
        let mut qv = crate::csv::mask::mask_repeat(false, qn);
        let mut j: usize = 0;
        while j < qn
            invariant
                j <= qn,
                crate::csv::mask::mask_bits(qv).len() == qn,
                forall|jj: int|
                    0 <= jj < j ==> crate::csv::mask::mask_bits(qv)[jj] == (jj < 31 && ((t >> (
                    jj as usize)) & 1usize) == 1usize),
            decreases qn - j,
        {
            let bit = j < 31 && ((t >> j) & 1usize) == 1usize;
            crate::csv::mask::mask_set(&mut qv, j, bit);
            j = j + 1;
        }
        proof {
            assert(crate::csv::mask::mask_bits(qv) =~= trial_mask(t, qn as nat));
        }
        let (cells_t, rows_t, active_t) = try_assignment(&sol, raw, &qv);
        proof {
            assert(crate::csv::mask::mask_bits(qv) == trial_mask(t, qn as nat));
            assert(crate::table_view(rows_t@) == assignment_rows(
                raw@,
                d,
                qb,
                trial_mask(t, qn as nat),
            ));
            assert(crate::cells_view(cells_t@) == assignment_cells(
                raw@,
                d,
                qb,
                trial_mask(t, qn as nat),
            ));
        }
        let ok = rows_shape_ok(&rows_t, target);
        if ok {
            let score_t = score_cells(&cells_t, target, delimiter);
            proof {
                assert(score_t as int == assignment_score(
                    raw@,
                    d,
                    qb,
                    trial_mask(t, qn as nat),
                    target as int,
                ));
            }
            let better = match &best_rows {
                None => true,
                Some(_) => score_t < best_score || (score_t == best_score && active_t
                    < best_active),
            };
            if better {
                best_score = score_t;
                best_active = active_t;
                best_rows = Some(rows_t);
                proof {
                    best_qv = crate::csv::mask::mask_bits(qv);
                }
            }
        }
        t = t + 1;
    }
    match best_rows {
        Some(rows) => {
            proof {
                assert forall|u: usize|
                    u < search_budget && u < trial_limit(qn as nat) && shape_ok(
                        #[trigger] assignment_rows(raw@, d, qb, trial_mask(u, qn as nat)),
                        target as int,
                    ) implies best_score as int <= assignment_score(
                    raw@,
                    d,
                    qb,
                    trial_mask(u, qn as nat),
                    target as int,
                ) by {
                    assert(u < t);
                }
                assert(exists|qv: Seq<bool>|
                    qv.len() == quote_locs(raw@, delimiter, quote).len() && (
                    #[trigger] assignment_rows(raw@, delimiter, quote, qv))
                        == crate::table_view(rows@) && shape_ok(
                        assignment_rows(raw@, delimiter, quote, qv),
                        spec_target(raw@, delimiter, quote, fixed_column_count),
                    ) && (forall|u: usize|
                        u < search_budget && u < trial_limit(
                            quote_locs(raw@, delimiter, quote).len(),
                        ) && shape_ok(
                            #[trigger] assignment_rows(
                                raw@,
                                delimiter,
                                quote,
                                trial_mask(u, quote_locs(raw@, delimiter, quote).len()),
                            ),
                            spec_target(raw@, delimiter, quote, fixed_column_count),
                        ) ==> assignment_score(
                            raw@,
                            delimiter,
                            quote,
                            qv,
                            spec_target(raw@, delimiter, quote, fixed_column_count),
                        ) <= assignment_score(
                            raw@,
                            delimiter,
                            quote,
                            trial_mask(u, quote_locs(raw@, delimiter, quote).len()),
                            spec_target(raw@, delimiter, quote, fixed_column_count),
                        ))) by {
                    assert(best_qv.len() == quote_locs(raw@, delimiter, quote).len()
                        && assignment_rows(raw@, delimiter, quote, best_qv)
                        == crate::table_view(rows@) && shape_ok(
                        assignment_rows(raw@, delimiter, quote, best_qv),
                        spec_target(raw@, delimiter, quote, fixed_column_count),
                    ));
                }
            }
            Ok(rows)
        },
        None => {
            proof {
                assert(forall|u: usize|
                    u < search_budget && u < trial_limit(qn as nat) ==> !shape_ok(
                        #[trigger] assignment_rows(raw@, d, qb, trial_mask(u, qn as nat)),
                        target as int,
                    ));
            }
            Err(
                crate::errors::CsvError::Ambiguity(
                    crate::Position { line: amb_line, column: target },
                    AMBIGUOUS_MSG,
                ),
            )
        },
    }
}

proof fn lemma_locs_len(raw: Seq<u8>, d: u8, q: u8, n: int)
    requires
        0 <= n,
    ensures
        delim_locs_upto(raw, d, n).len() <= n,
        quote_locs_upto(raw, d, q, n).len() <= n,
    decreases n,
{
    if n > 0 {
        lemma_locs_len(raw, d, q, n - 1);
    }
}

/// Constraint soundness: every resolved quote pair opens on a candidate
/// whose can-open bit survived constraint propagation and closes on one
/// whose can-close bit survived, and both are marked structural -- so no
/// emitted cell boundary can fall on a cleared candidate.
pub proof fn lemma_pairs_respect_constraints(sol: Solution, raw: Seq<u8>, qv: Seq<bool>)
    requires
        sol.built_from(raw),
        raw.len() <= usize::MAX,
        qv.len() == sol.spec_qlocs().len(),
    ensures
        forall|t: int|
            0 <= t < sol.rank_pairs_under(qv).len() ==> {
                let pr = #[trigger] sol.rank_pairs_under(qv)[t];
                &&& pr.0 < pr.1
                &&& (pr.1 as int) < sol.spec_qlocs().len()
                &&& cs1(raw, sol.spec_delimiter(), sol.spec_qlocs(), pr.0 as int)
                &&& ce1(raw, sol.spec_delimiter(), sol.spec_qlocs(), pr.1 as int)
                &&& qv[pr.0 as int]
                &&& qv[pr.1 as int]
            },
{
    let sq = and_bits(sol.spec_can_start(), qv);
    let eq = and_bits(sol.spec_can_end(), qv);
    lemma_locs_len(raw, sol.spec_delimiter(), sol.spec_quote(), raw.len() as int);
    assert(sol.spec_qlocs().len() <= raw.len());
    lemma_greedy_pairs_props(sq, eq, 0, Option::None);
    assert forall|t: int| 0 <= t < sol.rank_pairs_under(qv).len() implies {
        let pr = #[trigger] sol.rank_pairs_under(qv)[t];
        &&& pr.0 < pr.1
        &&& (pr.1 as int) < sol.spec_qlocs().len()
        &&& cs1(raw, sol.spec_delimiter(), sol.spec_qlocs(), pr.0 as int)
        &&& ce1(raw, sol.spec_delimiter(), sol.spec_qlocs(), pr.1 as int)
        &&& qv[pr.0 as int]
        &&& qv[pr.1 as int]
    } by {
        let pr = sol.rank_pairs_under(qv)[t];
        assert(sq[pr.0 as int] && eq[pr.1 as int]);
        assert(sol.spec_can_start()[pr.0 as int] && qv[pr.0 as int]);
        assert(sol.spec_can_end()[pr.1 as int] && qv[pr.1 as int]);
    }
}

/// With no quote candidate in the buffer, every assignment yields the same
/// interpretation: resolution is deterministic, and equal to the naive
/// split at every delimiter and newline occurrence.  Together with the
/// contract of `resolve`, a well-formed buffer without quote candidates
/// resolves to exactly that split.
pub proof fn lemma_no_candidates_deterministic(raw: Seq<u8>, d: u8, q: u8, qv: Seq<bool>)
    requires
        quote_locs(raw, d, q).len() == 0,
    ensures
        assignment_rows(raw, d, q, qv) == assignment_rows(raw, d, q, all_literal(raw, d, q)),
{
    let ql = quote_locs(raw, d, q);
    let lit = all_literal(raw, d, q);
    let cs_a = Seq::new(ql.len(), |j: int| cs1(raw, d, ql, j) && qv[j]);
    let ce_a = Seq::new(ql.len(), |j: int| ce1(raw, d, ql, j) && qv[j]);
    let cs_b = Seq::new(ql.len(), |j: int| cs1(raw, d, ql, j) && lit[j]);
    let ce_b = Seq::new(ql.len(), |j: int| ce1(raw, d, ql, j) && lit[j]);
    assert(greedy_pairs(cs_a, ce_a, 0, Option::None) =~= Seq::<(usize, usize)>::empty());
    assert(greedy_pairs(cs_b, ce_b, 0, Option::None) =~= Seq::<(usize, usize)>::empty());
    assert(offset_pairs(raw, d, q, qv) =~= offset_pairs(raw, d, q, lit));
    assert(assignment_keep(raw, d, q, qv) =~= assignment_keep(raw, d, q, lit));
    assert(assignment_bounds(raw, d, q, qv) == assignment_bounds(raw, d, q, lit));
    assert(assignment_cells(raw, d, q, qv) == assignment_cells(raw, d, q, lit));
}

} // verus!
