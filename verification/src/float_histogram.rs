//! A coarse histogram of f64 samples keyed by sign and exponent.
//!
//! Samples are taken as their IEEE binary64 bit patterns.  Each bucket
//! covers 16 biased exponents, with separate arrays for samples whose sign
//! bit is set and for the others.  NaNs are only counted.  Infinities go
//! into the highest bucket and are also counted, and zeros go into the
//! bucket of the exponent bias.

use vstd::prelude::*;
use vstd::string::StringExecFns;
use crate::PrintOption;
use crate::parse_histo_opts;
use crate::chosen_histo_opts;
use crate::printable::{
    decimal, signed_decimal, spaces, right_justify, with_commas, push_spaces,
    push_right_justified, decimal_i64, decimal_u64, commas_u64,
};
use crate::log_histogram::{total, lemma_record_adds_one, last_nonzero, lemma_last_nonzero, max_count, histogram_max, lemma_max_count, lemma_max_count_bound};

verus! {

/// Options for printing a histogram.
#[derive(Clone, Copy, PartialEq, Eq, Structural)]
pub struct HistoOpts {
    /// Not used yet.
    pub merge_min: isize,
    /// Not used yet.
    pub merge_max: isize,
    /// Suppress any rows that are all zeros.  Such rows are left out
    /// whether this is set or not.
    pub no_zero_rows: bool,
}

impl HistoOpts {
    /// The default options.
    pub open spec fn spec_default() -> HistoOpts {
        HistoOpts { merge_min: 0, merge_max: 0, no_zero_rows: false }
    }
}

impl Default for HistoOpts {
    fn default() -> (r: HistoOpts)
        ensures
            r == HistoOpts::spec_default(),
    {
        HistoOpts { merge_min: 0, merge_max: 0, no_zero_rows: false }
    }
}

/// The number of exponent values merged into one bucket.
pub fn bucket_divisor() -> (r: isize)
    ensures
        r == 16,
{
    16
}

// The number of counts printed per row.
fn print_roundup() -> (r: usize)
    ensures
        r == 4,
{
    4
}

// The number of buckets needed for every biased exponent.
fn buckets() -> (r: isize)
    ensures
        r == 127,
{
    crate::max_biased_exponent() / bucket_divisor()
}

// Rounds `value` up to a multiple of `multiple`.
fn roundup(value: usize, multiple: usize) -> (r: usize)
    requires
        multiple > 0,
        value + multiple - 1 <= usize::MAX,
    ensures
        r == ((value + multiple - 1) / multiple as int) * multiple,
{
    let sum = value + (multiple - 1);
    let q = sum / multiple;
    assert(q * multiple <= sum) by (nonlinear_arith)
        requires
            multiple > 0,
            q == sum / multiple,
            sum >= 0,
    ;
    q * multiple
}

/// The number of buckets in each array of a float histogram.
pub open spec fn bucket_count() -> nat {
    128
}

/// The biased exponent field of a binary64 bit pattern.
pub open spec fn exponent_field(bits: u64) -> u64 {
    (bits >> 52u64) & 0x7ffu64
}

/// The fraction field of a binary64 bit pattern.
pub open spec fn fraction_field(bits: u64) -> u64 {
    bits & 0xf_ffff_ffff_ffffu64
}

/// The pattern encodes a NaN.
pub open spec fn is_nan_bits(bits: u64) -> bool {
    exponent_field(bits) == 0x7ff && fraction_field(bits) != 0
}

/// The pattern encodes an infinity.
pub open spec fn is_infinite_bits(bits: u64) -> bool {
    exponent_field(bits) == 0x7ff && fraction_field(bits) == 0
}

/// The pattern encodes a zero of either sign.
pub open spec fn is_zero_bits(bits: u64) -> bool {
    exponent_field(bits) == 0 && fraction_field(bits) == 0
}

/// The sign bit of the pattern is set.
pub open spec fn sign_bit(bits: u64) -> bool {
    (bits >> 63u64) == 1
}

/// The bucket of a sample that is not a NaN: infinities go into the
/// highest bucket, zeros into the bucket of the exponent bias, and other
/// values into the bucket of their biased exponent.
pub open spec fn float_bucket(bits: u64) -> int {
    if is_infinite_bits(bits) {
        127
    } else if is_zero_bits(bits) {
        63
    } else {
        exponent_field(bits) as int / 16
    }
}

/// Returns the biased exponent of a binary64 bit pattern: zero for a NaN,
/// the largest unbiased exponent (1023) for an infinity, and the exponent
/// field otherwise.
pub fn biased_exponent_of_bits(bits: u64) -> (r: isize)
    ensures
        r == if is_nan_bits(bits) {
            0
        } else if is_infinite_bits(bits) {
            1023
        } else {
            exponent_field(bits) as int
        },
{
    let exponent = (bits >> 52u64) & 0x7ffu64;
    let fraction = bits & 0xf_ffff_ffff_ffffu64;
    assert(exponent <= 0x7ff) by (bit_vector)
        requires
            exponent == (bits >> 52u64) & 0x7ffu64,
    ;
    if exponent == 0x7ff && fraction != 0 {
        return 0;
    }
    if exponent == 0x7ff {
        return crate::max_exponent();
    }
    exponent as isize
}

/// Returns the bucket of a sample that is not a NaN, given by its binary64
/// bit pattern: the bucket that `FloatHistogram::record_bits` raises.
pub fn bucket_of_bits(bits: u64) -> (r: usize)
    requires
        !is_nan_bits(bits),
    ensures
        r == float_bucket(bits),
{
    let exponent = (bits >> 52u64) & 0x7ffu64;
    let fraction = bits & 0xf_ffff_ffff_ffffu64;
    assert(exponent <= 0x7ff) by (bit_vector)
        requires
            exponent == (bits >> 52u64) & 0x7ffu64,
    ;
    if exponent == 0x7ff {
        (crate::max_biased_exponent() / bucket_divisor()) as usize
    } else if exponent == 0 && fraction == 0 {
        (crate::exponent_bias() / bucket_divisor()) as usize
    } else {
        (exponent / 16) as usize
    }
}

/// Returns -1 when the sign bit of a binary64 bit pattern is set, else 1.
pub fn sign_of_bits(bits: u64) -> (r: isize)
    ensures
        r == if sign_bit(bits) { -1int } else { 1int },
{
    if (bits >> 63u64) == 1 {
        -1
    } else {
        1
    }
}

/// Returns the fraction field of a binary64 bit pattern.
pub fn mantissa_of_bits(bits: u64) -> (r: i64)
    ensures
        r == fraction_field(bits),
{
    let fraction = bits & 0xf_ffff_ffff_ffffu64;
    assert(fraction <= 0xf_ffff_ffff_ffffu64) by (bit_vector)
        requires
            fraction == bits & 0xf_ffff_ffff_ffffu64,
    ;
    fraction as i64
}

/// One printed row of four counts, labelled by the exponent of its first
/// bucket.
pub open spec fn float_row(negative: bool, counts: Seq<u64>, base: int) -> Seq<char> {
    spaces(4) + (if negative { seq!['-', '2', '^'] } else { seq!['2', '^'] })
        + right_justify(signed_decimal(base * 16 - 1023), 5) + seq![':']
        + float_count_fields(counts, base, 4)
}

/// The first `k` count fields of a float histogram row.
pub open spec fn float_count_fields(counts: Seq<u64>, base: int, k: int) -> Seq<char>
    decreases k,
{
    if k <= 0 {
        Seq::empty()
    } else {
        float_count_fields(counts, base, k - 1) + spaces(4) + right_justify(
            with_commas(decimal(counts[base + k - 1] as nat)),
            10,
        )
    }
}

/// A row is printed when one of its counts is non-zero: rows that are all
/// zeros are suppressed.
pub open spec fn row_shown(counts: Seq<u64>, base: int) -> bool {
    counts[base] != 0 || counts[base + 1] != 0 || counts[base + 2] != 0 || counts[base
        + 3] != 0
}

/// The shown rows among groups `top`, `top - 1`, ..., `top - n + 1`, in
/// that order.
pub open spec fn rows_down(negative: bool, counts: Seq<u64>, top: int, n: int) -> Seq<
    Seq<char>,
>
    decreases n,
{
    if n <= 0 {
        Seq::empty()
    } else {
        let g = top - n + 1;
        rows_down(negative, counts, top, n - 1) + if row_shown(counts, g * 4) {
            seq![float_row(negative, counts, g * 4)]
        } else {
            Seq::empty()
        }
    }
}

/// The shown rows among groups 0 through `n - 1`, in that order.
pub open spec fn rows_up(counts: Seq<u64>, n: int) -> Seq<Seq<char>>
    decreases n,
{
    if n <= 0 {
        Seq::empty()
    } else {
        let g = n - 1;
        rows_up(counts, n - 1) + if row_shown(counts, g * 4) {
            seq![float_row(false, counts, g * 4)]
        } else {
            Seq::empty()
        }
    }
}

/// The header line of a printed float histogram.
pub open spec fn float_header(nans: nat, infinities: nat, samples: nat) -> Seq<char> {
    spaces(2) + seq!['F', 'l', 'o', 'a', 't', ' ', 'H', 'i', 's', 't', 'o', 'g', 'r', 'a', 'm', ':']
        + spaces(2) + seq!['('] + decimal(nans) + seq![' ', 'N', 'a', 'N', ',', ' '] + decimal(
        infinities,
    ) + seq![' ', 'i', 'n', 'f', 'i', 'n', 'i', 't', 'e', ',', ' '] + decimal(samples) + seq![
        ' ',
        's',
        'a',
        'm',
        'p',
        'l',
        'e',
        's',
        ')',
    ]
}

/// The line that separates negative from positive rows.
pub open spec fn float_divider() -> Seq<char> {
    spaces(2) + Seq::new(23, |i: int| '-')
}

/// The views of a vector of strings.
pub open spec fn texts(v: Seq<String>) -> Seq<Seq<char>> {
    Seq::new(v.len(), |i: int| v[i]@)
}

/// Some count of the group of four buckets `g` is non-zero.
pub open spec fn group_nonzero(counts: Seq<u64>, g: int) -> bool {
    counts[4 * g] != 0 || counts[4 * g + 1] != 0 || counts[4 * g + 2] != 0 || counts[4 * g + 3] != 0
}

// The groups `top`, `top - 1`, ..., `top - n + 1` that hold a non-zero
// count, in that order.
spec fn nonzero_groups_down(counts: Seq<u64>, top: int, n: int) -> Seq<int>
    decreases n,
{
    if n <= 0 {
        Seq::empty()
    } else {
        let g = top - n + 1;
        nonzero_groups_down(counts, top, n - 1) + if group_nonzero(counts, g) {
            seq![g]
        } else {
            Seq::empty()
        }
    }
}

// The shown rows of the groups from `top` down are the rows of the
// non-zero groups, in descending order.
proof fn lemma_rows_down_groups(negative: bool, counts: Seq<u64>, top: int, n: int)
    requires
        0 <= n <= top + 1,
    ensures
        ({
            let gs = nonzero_groups_down(counts, top, n);
            let rows = rows_down(negative, counts, top, n);
            &&& rows.len() == gs.len()
            &&& forall|i: int| 0 <= i < gs.len() ==> #[trigger] rows[i] == float_row(negative, counts, 4 * gs[i])
            &&& forall|i: int, j: int| 0 <= i < j < gs.len() ==> gs[i] > gs[j]
            &&& forall|i: int| 0 <= i < gs.len() ==> top - n + 1 <= #[trigger] gs[i] <= top && group_nonzero(counts, gs[i])
            &&& forall|g: int| top - n + 1 <= g <= top && group_nonzero(counts, g) ==> #[trigger] gs.contains(g)
            &&& n >= 1 && group_nonzero(counts, top) ==> gs.len() >= 1 && gs[0] == top
        }),
    decreases n,
{
    if n > 0 {
        lemma_rows_down_groups(negative, counts, top, n - 1);
        let prev = nonzero_groups_down(counts, top, n - 1);
        let gs = nonzero_groups_down(counts, top, n);
        let g = top - n + 1;
        assert(row_shown(counts, g * 4) == group_nonzero(counts, g));
        assert(g * 4 == 4 * g);
        if group_nonzero(counts, g) {
            assert(gs == prev.push(g));
            assert forall|h: int| top - n + 1 <= h <= top && group_nonzero(counts, h) implies #[trigger] gs.contains(h) by {
                if h == g {
                    assert(gs[gs.len() - 1] == g);
                } else {
                    assert(prev.contains(h));
                    let k = choose|k: int| 0 <= k < prev.len() && prev[k] == h;
                    assert(gs[k] == h);
                }
            }
        } else {
            assert(gs =~= prev);
        }
    }
}

// The groups 0, 1, ..., n - 1 that hold a non-zero count, in that order.
spec fn nonzero_groups_up(counts: Seq<u64>, n: int) -> Seq<int>
    decreases n,
{
    if n <= 0 {
        Seq::empty()
    } else {
        nonzero_groups_up(counts, n - 1) + if group_nonzero(counts, n - 1) {
            seq![n - 1]
        } else {
            Seq::empty()
        }
    }
}

// The shown rows of the groups from 0 up are the rows of the non-zero
// groups, in ascending order.
proof fn lemma_rows_up_groups(counts: Seq<u64>, n: int)
    requires
        0 <= n,
    ensures
        ({
            let gs = nonzero_groups_up(counts, n);
            let rows = rows_up(counts, n);
            &&& rows.len() == gs.len()
            &&& forall|i: int| 0 <= i < gs.len() ==> #[trigger] rows[i] == float_row(false, counts, 4 * gs[i])
            &&& forall|i: int, j: int| 0 <= i < j < gs.len() ==> gs[i] < gs[j]
            &&& forall|i: int| 0 <= i < gs.len() ==> 0 <= #[trigger] gs[i] < n && group_nonzero(counts, gs[i])
            &&& forall|g: int| 0 <= g < n && group_nonzero(counts, g) ==> #[trigger] gs.contains(g)
        }),
    decreases n,
{
    if n > 0 {
        lemma_rows_up_groups(counts, n - 1);
        let prev = nonzero_groups_up(counts, n - 1);
        let gs = nonzero_groups_up(counts, n);
        let g = n - 1;
        assert(row_shown(counts, g * 4) == group_nonzero(counts, g));
        assert(g * 4 == 4 * g);
        if group_nonzero(counts, g) {
            assert(gs == prev.push(g));
            assert forall|h: int| 0 <= h < n && group_nonzero(counts, h) implies #[trigger] gs.contains(h) by {
                if h == g {
                    assert(gs[gs.len() - 1] == g);
                } else {
                    assert(prev.contains(h));
                    let k = choose|k: int| 0 <= k < prev.len() && prev[k] == h;
                    assert(gs[k] == h);
                }
            }
        } else {
            assert(gs =~= prev);
        }
    }
}

/// A histogram of binary64 samples by sign and exponent.
pub struct FloatHistogram {
    pub negative: Vec<u64>,
    pub positive: Vec<u64>,
    pub buckets: usize,
    pub nans: usize,
    pub infinities: usize,
    pub samples: usize,
    pub print_opts: PrintOption,
    pub histo_opts: HistoOpts,
}

impl FloatHistogram {
    /// Both arrays hold one count per bucket.
    pub open spec fn well_formed(&self) -> bool {
        &&& self.buckets == bucket_count()
        &&& self.negative@.len() == bucket_count()
        &&& self.positive@.len() == bucket_count()
    }

    /// The lines printed for the histogram under the given options.
    pub open spec fn spec_lines(&self, histo_opts: HistoOpts) -> Seq<Seq<char>> {
        let top = last_nonzero(self.negative@);
        let neg = if top < 0 {
            Seq::empty()
        } else {
            rows_down(true, self.negative@, top / 4, top / 4 + 1)
        };
        let last = if last_nonzero(self.positive@) < 0 {
            0
        } else {
            last_nonzero(self.positive@)
        };
        let pos = if self.samples == 0 {
            Seq::empty()
        } else {
            rows_up(self.positive@, last / 4 + 1)
        };
        seq![float_header(self.nans as nat, self.infinities as nat, self.samples as nat)] + neg
            + seq![float_divider()] + pos
    }

    /// The negative half of a printed float histogram runs downward.  When
    /// `top` is the highest bucket with a non-zero negative count, the lines
    /// after the header are the rows of the groups of four that hold a
    /// non-zero count, in strictly decreasing order of their group (so of
    /// their exponent label), starting with the group that holds `top`;
    /// every such group has its row, and the divider comes next.  When no
    /// negative count is non-zero (`top` is -1), the divider follows the
    /// header at once.
    pub proof fn lemma_negative_rows_descend(&self, histo_opts: HistoOpts, top: int)
        requires
            self.well_formed(),
            -1 <= top < bucket_count(),
            top >= 0 ==> self.negative@[top] != 0,
            forall|j: int| top < j < bucket_count() ==> self.negative@[j] == 0,
        ensures
            top < 0 ==> self.spec_lines(histo_opts)[1] == float_divider(),
            top >= 0 ==> exists|gs: Seq<int>|
                #![trigger gs.len()]
                {
                    &&& gs.len() >= 1
                    &&& gs[0] == top / 4
                    &&& forall|i: int, j: int| 0 <= i < j < gs.len() ==> gs[i] > gs[j]
                    &&& forall|i: int| 0 <= i < gs.len() ==> 0 <= #[trigger] gs[i] <= top / 4
                        && group_nonzero(self.negative@, gs[i])
                    &&& forall|g: int| 0 <= g <= top / 4 && group_nonzero(self.negative@, g) ==> #[trigger] gs.contains(g)
                    &&& forall|i: int| 0 <= i < gs.len() ==> #[trigger] self.spec_lines(histo_opts)[1 + i]
                        == float_row(true, self.negative@, 4 * gs[i])
                    &&& self.spec_lines(histo_opts)[1 + gs.len() as int] == float_divider()
                },
    {
        lemma_last_nonzero(self.negative@, top);
        let lines = self.spec_lines(histo_opts);
        if top >= 0 {
            let t = top / 4;
            lemma_rows_down_groups(true, self.negative@, t, t + 1);
            let gs = nonzero_groups_down(self.negative@, t, t + 1);
            let rows = rows_down(true, self.negative@, t, t + 1);
            assert(group_nonzero(self.negative@, t)) by {
                assert(4 * t <= top <= 4 * t + 3);
            }
            assert forall|i: int| 0 <= i < gs.len() implies #[trigger] lines[1 + i] == float_row(
                true,
                self.negative@,
                4 * gs[i],
            ) by {
                assert(lines[1 + i] == rows[i]);
            }
            assert(lines[1 + gs.len() as int] == float_divider());
            assert(gs.len() >= 1);
        } else {
            assert(lines[1] == float_divider());
        }
    }

    /// The positive half of a printed float histogram runs upward.  When
    /// samples were recorded and `last` is the highest bucket with a
    /// non-zero positive count (or -1), the lines after the divider, which
    /// end the lines, are the rows of the groups of four up to the one
    /// holding `last` that hold a non-zero count, in strictly increasing
    /// order of their group; every such group has its row.  With no samples
    /// the divider ends the lines.
    pub proof fn lemma_positive_rows_ascend(&self, histo_opts: HistoOpts, last: int)
        requires
            self.well_formed(),
            -1 <= last < bucket_count(),
            last >= 0 ==> self.positive@[last] != 0,
            forall|j: int| last < j < bucket_count() ==> self.positive@[j] == 0,
        ensures
            self.samples == 0 ==> self.spec_lines(histo_opts).last() == float_divider(),
            self.samples > 0 ==> exists|gs: Seq<int>|
                #![trigger gs.len()]
                {
                    let lines = self.spec_lines(histo_opts);
                    let top_group = if last >= 0 { last / 4 } else { 0 };
                    &&& gs.len() < lines.len()
                    &&& forall|i: int, j: int| 0 <= i < j < gs.len() ==> gs[i] < gs[j]
                    &&& forall|i: int| 0 <= i < gs.len() ==> 0 <= #[trigger] gs[i] <= top_group
                        && group_nonzero(self.positive@, gs[i])
                    &&& forall|g: int| 0 <= g <= top_group && group_nonzero(self.positive@, g) ==> #[trigger] gs.contains(g)
                    &&& forall|i: int| 0 <= i < gs.len() ==> #[trigger] lines[lines.len() - gs.len() + i]
                        == float_row(false, self.positive@, 4 * gs[i])
                    &&& lines[lines.len() - gs.len() - 1] == float_divider()
                },
    {
        lemma_last_nonzero(self.positive@, last);
        let lines = self.spec_lines(histo_opts);
        if self.samples > 0 {
            let top_group = if last >= 0 { last / 4 } else { 0 };
            lemma_rows_up_groups(self.positive@, top_group + 1);
            let gs = nonzero_groups_up(self.positive@, top_group + 1);
            let rows = rows_up(self.positive@, top_group + 1);
            let n = lines.len() - gs.len();
            assert forall|i: int| 0 <= i < gs.len() implies #[trigger] lines[lines.len() - gs.len() + i] == float_row(
                false,
                self.positive@,
                4 * gs[i],
            ) by {
                assert(lines[n + i] == rows[i]);
            }
            assert(lines[n - 1] == float_divider());
            assert(gs.len() < lines.len());
        }
    }

    /// Creates an empty histogram that prints with the given options.
    pub fn new(print_opts: &PrintOption) -> (h: FloatHistogram)
        ensures
            h.well_formed(),
            forall|i: int| 0 <= i < bucket_count() ==> h.negative@[i] == 0 && h.positive@[i] == 0,
            h.nans == 0,
            h.infinities == 0,
            h.samples == 0,
            h.histo_opts == chosen_histo_opts(*print_opts),
            h.print_opts is Some <==> print_opts is Some,
            h.print_opts matches Some(p) ==> {
                let given = print_opts->0;
                &&& p.title == given.title
                &&& p.histo_opts == given.histo_opts
                &&& p.units is Some <==> given.units is Some
                &&& p.units matches Some(u) ==> u.singular@ == given.units->0.singular@
                    && u.plural@ == given.units->0.plural@
                &&& p.printer == given.printer
            },
    {
        let buckets = buckets() as usize;
        let buckets = roundup(buckets, print_roundup());
        let negative = vec![0u64; buckets];
        let positive = vec![0u64; buckets];
        let histo_opts = parse_histo_opts(print_opts);
        let print_opts = match print_opts {
            Some(opts) => Some(opts.clone()),
            None => None,
        };
        FloatHistogram {
            negative,
            positive,
            buckets,
            samples: 0,
            nans: 0,
            infinities: 0,
            print_opts,
            histo_opts,
        }
    }

    /// Counts one sample, given by its binary64 bit pattern.  A NaN only
    /// raises the NaN count; any other sample raises its bucket's count and
    /// the sample count, and an infinity also raises the infinity count.
    pub fn record_bits(&mut self, bits: u64)
        requires
            old(self).well_formed(),
            old(self).nans < usize::MAX,
            old(self).infinities < usize::MAX,
            old(self).samples < usize::MAX,
            !is_nan_bits(bits) && sign_bit(bits) ==> old(self).negative@[float_bucket(bits)] < u64::MAX,
            !is_nan_bits(bits) && !sign_bit(bits) ==> old(self).positive@[float_bucket(bits)] < u64::MAX,
        ensures
            final(self).well_formed(),
            final(self).print_opts == old(self).print_opts,
            final(self).histo_opts == old(self).histo_opts,
            is_nan_bits(bits) ==> {
                &&& final(self).nans == old(self).nans + 1
                &&& final(self).negative@ == old(self).negative@
                &&& final(self).positive@ == old(self).positive@
                &&& final(self).infinities == old(self).infinities
                &&& final(self).samples == old(self).samples
            },
            !is_nan_bits(bits) ==> {
                &&& final(self).nans == old(self).nans
                &&& final(self).samples == old(self).samples + 1
                &&& final(self).infinities == old(self).infinities + if is_infinite_bits(bits) {
                    1int
                } else {
                    0int
                }
                &&& sign_bit(bits) ==> final(self).negative@ == old(self).negative@.update(
                    float_bucket(bits),
                    (old(self).negative@[float_bucket(bits)] + 1) as u64,
                ) && final(self).positive@ == old(self).positive@
                &&& !sign_bit(bits) ==> final(self).positive@ == old(self).positive@.update(
                    float_bucket(bits),
                    (old(self).positive@[float_bucket(bits)] + 1) as u64,
                ) && final(self).negative@ == old(self).negative@
                &&& total(final(self).negative@) + total(final(self).positive@) == total(
                    old(self).negative@,
                ) + total(old(self).positive@) + 1
            },
    {
        let exponent = (bits >> 52u64) & 0x7ffu64;
        let fraction = bits & 0xf_ffff_ffff_ffffu64;
        assert(exponent <= 0x7ff) by (bit_vector)
            requires
                exponent == (bits >> 52u64) & 0x7ffu64,
        ;
        if exponent == 0x7ff && fraction != 0 {
            self.nans = self.nans + 1;
            return;
        }
        if exponent == 0x7ff {
            self.infinities = self.infinities + 1;
        }
        let index = bucket_of_bits(bits);
        proof {
            if (bits >> 63u64) == 1 {
                lemma_record_adds_one(self.negative@, index as int);
            } else {
                lemma_record_adds_one(self.positive@, index as int);
            }
        }
        if (bits >> 63u64) == 1 {
            self.negative.set(index, self.negative[index] + 1);
        } else {
            self.positive.set(index, self.positive[index] + 1);
        }
        self.samples = self.samples + 1;
    }

    /// Returns the sign and the unbiased exponent at the middle of the
    /// most common bucket.  The first bucket reaching the largest count
    /// wins, negative buckets before positive ones, so an empty histogram
    /// reports the first negative bucket.
    pub fn convert_log_mode(&self) -> (r: (isize, isize))
        requires
            self.well_formed(),
        ensures
            ({
                let m = histogram_max(self.negative@, self.positive@);
                let idx = (r.1 + 1015) / 16;
                &&& r.1 + 1015 == idx * 16
                &&& 0 <= idx < bucket_count()
                &&& max_count(self.negative@) == m ==> r.0 == -1 && self.negative@[idx] == m
                    && forall|j: int| 0 <= j < idx ==> self.negative@[j] != m
                &&& max_count(self.negative@) != m ==> r.0 == 1 && self.positive@[idx] == m
                    && forall|j: int| 0 <= j < idx ==> self.positive@[j] != m
            }),
    {
        let mut mode: usize = 0;
        let mut sign: isize = -1;
        let mut max = self.negative[0];
        let mut i: usize = 1;
        while i < self.negative.len()
            invariant
                self.well_formed(),
                1 <= i <= bucket_count(),
                mode < i,
                self.negative@[mode as int] == max,
                forall|j: int| 0 <= j < i ==> self.negative@[j] <= max,
                forall|j: int| 0 <= j < mode ==> self.negative@[j] < max,
            decreases bucket_count() - i,
        {
            if self.negative[i] > max {
                max = self.negative[i];
                mode = i;
            }
            i = i + 1;
        }
        let ghost neg_max = max;
        proof {
            lemma_max_count(self.negative@, max as int);
        }
        let mut i: usize = 0;
        while i < self.positive.len()
            invariant
                self.well_formed(),
                i <= bucket_count(),
                mode < bucket_count(),
                max >= neg_max,
                neg_max == max_count(self.negative@),
                forall|j: int| 0 <= j < i ==> self.positive@[j] <= max,
                sign == -1 ==> max == neg_max && self.negative@[mode as int] == max
                    && forall|j: int| 0 <= j < mode ==> self.negative@[j] < max,
                sign == 1 ==> max > neg_max && mode < i && self.positive@[mode as int] == max
                    && forall|j: int| 0 <= j < mode ==> self.positive@[j] < max,
                sign == -1 || sign == 1,
            decreases bucket_count() - i,
        {
            if self.positive[i] > max {
                max = self.positive[i];
                mode = i;
                sign = 1;
            }
            i = i + 1;
        }
        proof {
            if sign == 1 {
                lemma_max_count(self.positive@, max as int);
            } else {
                lemma_max_count_bound(self.positive@, max as int);
            }
        }
        let biased_exponent = (mode as isize) * bucket_divisor();
        let biased_exponent = biased_exponent + bucket_divisor() / 2;
        (sign, biased_exponent - crate::exponent_bias())
    }

    // Appends the shown rows of one array, from group `top` down to group 0.
    fn push_rows_down(&self, lines: &mut Vec<String>, negative: bool, top: usize)
        requires
            self.well_formed(),
            top * 4 + 3 < bucket_count(),
        ensures
            texts(final(lines)@) == texts(old(lines)@) + rows_down(
                negative,
                if negative { self.negative@ } else { self.positive@ },
                top as int,
                top + 1,
            ),
    {
        let ghost counts = if negative { self.negative@ } else { self.positive@ };
        let mut done: usize = 0;
        while done <= top
            invariant
                self.well_formed(),
                top * 4 + 3 < bucket_count(),
                done <= top + 1,
                counts == if negative { self.negative@ } else { self.positive@ },
                texts(lines@) == texts(old(lines)@) + rows_down(negative, counts, top as int, done as int),
            decreases top + 1 - done,
        {
            let base = (top - done) * 4;
            let shown = if negative {
                self.negative[base] != 0 || self.negative[base + 1] != 0
                    || self.negative[base + 2] != 0 || self.negative[base + 3] != 0
            } else {
                self.positive[base] != 0 || self.positive[base + 1] != 0
                    || self.positive[base + 2] != 0 || self.positive[base + 3] != 0
            };
            let ghost before = lines@;
            if shown {
                let row = if negative {
                    make_float_row(true, &self.negative, base)
                } else {
                    make_float_row(false, &self.positive, base)
                };
                lines.push(row);
                assert(texts(lines@) =~= texts(before).push(float_row(negative, counts, base as int)));
            }
            done = done + 1;
            assert(texts(lines@) =~= texts(old(lines)@) + rows_down(negative, counts, top as int, done as int));
        }
    }

    // Appends the shown rows of the positive array for groups 0 to n - 1.
    fn push_rows_up(&self, lines: &mut Vec<String>, n: usize)
        requires
            self.well_formed(),
            n * 4 <= bucket_count(),
        ensures
            texts(final(lines)@) == texts(old(lines)@) + rows_up(self.positive@, n as int),
    {
        let mut g: usize = 0;
        while g < n
            invariant
                self.well_formed(),
                n * 4 <= bucket_count(),
                g <= n,
                texts(lines@) == texts(old(lines)@) + rows_up(self.positive@, g as int),
            decreases n - g,
        {
            let base = g * 4;
            let shown = self.positive[base] != 0 || self.positive[base + 1] != 0
                || self.positive[base + 2] != 0 || self.positive[base + 3] != 0;
            let ghost before = lines@;
            if shown {
                let row = make_float_row(false, &self.positive, base);
                lines.push(row);
                assert(texts(lines@) =~= texts(before).push(float_row(false, self.positive@, base as int)));
            }
            g = g + 1;
            assert(texts(lines@) =~= texts(old(lines)@) + rows_up(self.positive@, g as int));
        }
    }

    /// The lines printed for the histogram under the given
    /// options, in order.
    pub fn lines_opts(&self, histo_opts: &HistoOpts) -> (r: Vec<String>)
        requires
            self.well_formed(),
        ensures
            texts(r@) == self.spec_lines(*histo_opts),
    {
        let mut lines: Vec<String> = Vec::new();
        let mut header = String::new();
        push_spaces(&mut header, 2);
        proof { reveal_strlit("Float Histogram:"); }
        header.append("Float Histogram:");
        push_spaces(&mut header, 2);
        proof { reveal_strlit("("); }
        header.append("(");
        let nans = decimal_u64(self.nans as u64);
        header.append(nans.as_str());
        proof { reveal_strlit(" NaN, "); }
        header.append(" NaN, ");
        let infinities = decimal_u64(self.infinities as u64);
        header.append(infinities.as_str());
        proof { reveal_strlit(" infinite, "); }
        header.append(" infinite, ");
        let samples = decimal_u64(self.samples as u64);
        header.append(samples.as_str());
        proof { reveal_strlit(" samples)"); }
        header.append(" samples)");
        assert(header@ =~= float_header(self.nans as nat, self.infinities as nat, self.samples as nat));
        lines.push(header);
        assert(texts(lines@) =~= seq![float_header(self.nans as nat, self.infinities as nat, self.samples as nat)]);
        let ghost after_header = texts(lines@);

        let mut scan: usize = 127;
        while scan > 0 && self.negative[scan] == 0
            invariant
                self.well_formed(),
                scan <= 127,
                forall|j: int| scan < j < 128 ==> self.negative@[j] == 0,
            decreases scan,
        {
            scan = scan - 1;
        }
        let ghost neg_rows: Seq<Seq<char>>;
        if scan == 0 && self.negative[0] == 0 {
            proof {
                lemma_last_nonzero(self.negative@, -1);
                neg_rows = Seq::empty();
            }
            assert(texts(lines@) =~= after_header + neg_rows);
        } else {
            proof {
                lemma_last_nonzero(self.negative@, scan as int);
            }
            self.push_rows_down(&mut lines, true, scan / 4);
            proof {
                neg_rows = rows_down(true, self.negative@, (scan / 4) as int, (scan / 4 + 1) as int);
            }
        }
        let ghost after_neg = texts(lines@);
        let mut divider_line = String::new();
        push_spaces(&mut divider_line, 2);
        proof { reveal_strlit("-----------------------"); }
        divider_line.append("-----------------------");
        assert(divider_line@ =~= float_divider());
        lines.push(divider_line);
        assert(texts(lines@) =~= after_neg.push(float_divider()));
        let ghost after_divider = texts(lines@);

        let ghost pos_rows: Seq<Seq<char>>;
        if self.samples == 0 {
            proof {
                pos_rows = Seq::empty();
            }
            assert(texts(lines@) =~= after_divider + pos_rows);
        } else {
            let mut last: usize = self.buckets - 1;
            while last > 0 && self.positive[last] == 0
                invariant
                    self.well_formed(),
                    last <= 127,
                    forall|j: int| last < j < 128 ==> self.positive@[j] == 0,
                decreases last,
            {
                last = last - 1;
            }
            proof {
                if self.positive@[last as int] != 0 {
                    lemma_last_nonzero(self.positive@, last as int);
                } else {
                    lemma_last_nonzero(self.positive@, -1);
                }
            }
            self.push_rows_up(&mut lines, last / 4 + 1);
            proof {
                pos_rows = rows_up(self.positive@, (last / 4 + 1) as int);
            }
        }
        proof {
            assert(texts(lines@) =~= self.spec_lines(*histo_opts));
        }
        lines
    }

    /// The lines printed for the histogram, in order.
    pub fn lines(&self) -> (r: Vec<String>)
        requires
            self.well_formed(),
        ensures
            texts(r@) == self.spec_lines(self.histo_opts),
    {
        self.lines_opts(&self.histo_opts)
    }

    /// Resets every count to zero.
    pub fn clear(&mut self)
        requires
            old(self).well_formed(),
        ensures
            final(self).well_formed(),
            forall|i: int| 0 <= i < bucket_count() ==> final(self).negative@[i] == 0
                && final(self).positive@[i] == 0,
            final(self).samples == 0,
            final(self).nans == 0,
            final(self).infinities == 0,
            final(self).print_opts == old(self).print_opts,
            final(self).histo_opts == old(self).histo_opts,
    {
        self.negative = vec![0u64; self.buckets];
        self.positive = vec![0u64; self.buckets];
        self.samples = 0;
        self.nans = 0;
        self.infinities = 0;
    }

    /// Returns the number of NaN samples and the number of infinite ones.
    pub fn non_finites(&self) -> (r: (usize, usize))
        ensures
            r == (self.nans, self.infinities),
    {
        (self.nans, self.infinities)
    }

    /// Returns the options the histogram prints with.
    pub fn histo_opts(&self) -> (r: HistoOpts)
        ensures
            r == self.histo_opts,
    {
        self.histo_opts
    }

    /// Whether two histograms hold the same counts.  The bucket arrays of
    /// `other` may not be longer than those of `self`.
    pub fn equals(&self, other: &FloatHistogram) -> (r: bool)
        requires
            other.negative@.len() <= self.negative@.len(),
            other.positive@.len() <= self.positive@.len(),
        ensures
            r == ((forall|i: int| 0 <= i < other.negative@.len() ==> self.negative@[i] == other.negative@[i])
                && (forall|i: int| 0 <= i < other.positive@.len() ==> self.positive@[i] == other.positive@[i])
                && self.samples == other.samples && self.nans == other.nans
                && self.infinities == other.infinities),
    {
        let mut i: usize = 0;
        while i < other.negative.len()
            invariant
                other.negative@.len() <= self.negative@.len(),
                i <= other.negative@.len(),
                forall|j: int| 0 <= j < i ==> self.negative@[j] == other.negative@[j],
            decreases other.negative@.len() - i,
        {
            if self.negative[i] != other.negative[i] {
                return false;
            }
            i = i + 1;
        }
        let mut i: usize = 0;
        while i < other.positive.len()
            invariant
                other.positive@.len() <= self.positive@.len(),
                i <= other.positive@.len(),
                forall|j: int| 0 <= j < i ==> self.positive@[j] == other.positive@[j],
            decreases other.positive@.len() - i,
        {
            if self.positive[i] != other.positive[i] {
                return false;
            }
            i = i + 1;
        }
        if self.samples != other.samples {
            return false;
        }
        if self.nans != other.nans {
            return false;
        }
        if self.infinities != other.infinities {
            return false;
        }
        true
    }
}

// Builds one printed row of four counts starting at `base`.
fn make_float_row(negative: bool, counts: &Vec<u64>, base: usize) -> (r: String)
    requires
        base + 3 < counts@.len(),
        base % 4 == 0,
        base < bucket_count(),
    ensures
        r@ == float_row(negative, counts@, base as int),
{
    let mut s = String::new();
    push_spaces(&mut s, 4);
    if negative {
        proof { reveal_strlit("-2^"); }
        s.append("-2^");
    } else {
        proof { reveal_strlit("2^"); }
        s.append("2^");
    }
    let exponent = (base as isize) * bucket_divisor() - crate::exponent_bias();
    let e = decimal_i64(exponent as i64);
    push_right_justified(&mut s, e.as_str(), 5);
    proof { reveal_strlit(":"); }
    s.append(":");
    let ghost prefix = s@;
    assert(prefix + float_count_fields(counts@, base as int, 0) =~= prefix);
    let mut k: usize = 0;
    while k < 4
        invariant
            k <= 4,
            base + 3 < counts@.len(),
            base < bucket_count(),
            base % 4 == 0,
            s@ == prefix + float_count_fields(counts@, base as int, k as int),
        decreases 4 - k,
    {
        push_spaces(&mut s, 4);
        let c = commas_u64(counts[base + k]);
        push_right_justified(&mut s, c.as_str(), 10);
        k = k + 1;
    }
    assert(s@ =~= float_row(negative, counts@, base as int));
    s
}

} // verus!
