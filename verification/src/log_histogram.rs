//! A histogram of integer samples keyed by a pseudo-logarithm.
//!
//! The pseudo-log of a positive value is its base 2 logarithm rounded up
//! to an integer, capped at 63.  A negative value n is counted by the
//! pseudo-log of -n in a separate array, and i64::MIN falls in bucket 63.
//! The pseudo-log of zero is zero.

use vstd::prelude::*;
use vstd::arithmetic::power2::*;
use crate::printable::{
    decimal, signed_decimal, spaces, right_justify, with_commas, push_spaces,
    push_right_justified, decimal_i64, commas_u64,
};

verus! {

/// The absolute value of a sample.
pub open spec fn magnitude(v: i64) -> nat {
    if v < 0 {
        (-v) as nat
    } else {
        v as nat
    }
}

/// `k` is the pseudo-log bucket of `v`: the least k no greater than 63
/// with 2^k at least |v|, or 63 when no such k exists.
pub open spec fn is_pseudo_log(v: i64, k: nat) -> bool {
    &&& k <= 63
    &&& k < 63 ==> pow2(k) >= magnitude(v)
    &&& forall|j: nat| j < k ==> #[trigger] pow2(j) < magnitude(v)
}

/// The pseudo-log bucket of a sample.
pub open spec fn pseudo_log(v: i64) -> nat {
    choose|k: nat| is_pseudo_log(v, k)
}

/// Each sample has exactly one pseudo-log bucket.
pub proof fn lemma_pseudo_log_unique(v: i64, a: nat, b: nat)
    requires
        is_pseudo_log(v, a),
        is_pseudo_log(v, b),
    ensures
        a == b,
{
    if a < b {
        assert(pow2(a) < magnitude(v));
    } else if b < a {
        assert(pow2(b) < magnitude(v));
    }
}

/// A negative sample falls in the bucket of its absolute value.
pub proof fn lemma_pseudo_log_symmetric(v: i64)
    requires
        v > i64::MIN,
    ensures
        pseudo_log(v) == pseudo_log(-v as i64),
{
    let k = pseudo_log(v);
    let w = (-v) as i64;
    assert(magnitude(v) == magnitude(w));
    lemma_pseudo_log_exists(v);
    lemma_pseudo_log_exists(w);
    assert(is_pseudo_log(w, k));
    lemma_pseudo_log_unique(w, k, pseudo_log(w));
}

/// Every sample has a pseudo-log bucket.
pub proof fn lemma_pseudo_log_exists(v: i64)
    ensures
        is_pseudo_log(v, pseudo_log(v)),
{
    let r = pseudo_log_index_spec_witness(v);
    assert(is_pseudo_log(v, r));
}

// The least k no greater than 63 whose power of two reaches |v|.
proof fn pseudo_log_index_spec_witness(v: i64) -> (k: nat)
    ensures
        is_pseudo_log(v, k),
{
    lemma_search_from(v, 0)
}

proof fn lemma_search_from(v: i64, start: nat) -> (k: nat)
    requires
        start <= 63,
        forall|j: nat| j < start ==> #[trigger] pow2(j) < magnitude(v),
    ensures
        is_pseudo_log(v, k),
    decreases 63 - start,
{
    if start == 63 || pow2(start) >= magnitude(v) {
        start
    } else {
        assert forall|j: nat| j < start + 1 implies #[trigger] pow2(j) < magnitude(v) by {
            if j == start {
            }
        }
        lemma_search_from(v, start + 1)
    }
}

/// The sum of a sequence of counts.
pub open spec fn total(s: Seq<u64>) -> int
    decreases s.len(),
{
    if s.len() == 0 {
        0
    } else {
        total(s.drop_last()) + s.last()
    }
}

/// Raising one count by one raises the total by one: each recorded sample
/// is counted exactly once.
pub proof fn lemma_record_adds_one(s: Seq<u64>, i: int)
    requires
        0 <= i < s.len(),
        s[i] < u64::MAX,
    ensures
        total(s.update(i, (s[i] + 1) as u64)) == total(s) + 1,
    decreases s.len(),
{
    let t = s.update(i, (s[i] + 1) as u64);
    if i == s.len() - 1 {
        assert(t.drop_last() =~= s.drop_last());
    } else {
        lemma_record_adds_one(s.drop_last(), i);
        assert(t.drop_last() =~= s.drop_last().update(i, (s[i] + 1) as u64));
    }
}

/// Merging adds totals: the total of bucket-wise sums is the sum of the
/// totals.
pub proof fn lemma_merge_adds_totals(a: Seq<u64>, b: Seq<u64>, c: Seq<u64>)
    requires
        a.len() == b.len(),
        c.len() == a.len(),
        forall|i: int| 0 <= i < a.len() ==> c[i] == a[i] + b[i],
    ensures
        total(c) == total(a) + total(b),
    decreases a.len(),
{
    if a.len() > 0 {
        lemma_merge_adds_totals(a.drop_last(), b.drop_last(), c.drop_last());
    }
}

/// Returns the pseudo-log bucket of a sample, ignoring its sign.
pub fn pseudo_log_index(value: i64) -> (r: usize)
    ensures
        is_pseudo_log(value, r as nat),
        r == pseudo_log(value),
{
    if value == i64::MIN {
        proof {
            lemma2_to64();
            lemma2_to64_rest();
            assert forall|j: nat| j < 63 implies #[trigger] pow2(j) < magnitude(value) by {
                lemma_pow2_strictly_increases(j, 63);
            }
            lemma_pseudo_log_unique(value, 63, pseudo_log(value));
        }
        return 63;
    }
    let absolute: u64 = if value < 0 {
        (-value) as u64
    } else {
        value as u64
    };
    let mut place: u64 = 1;
    let mut log: usize = 0;
    proof {
        lemma2_to64();
    }
    while place < absolute && log < 63
        invariant
            absolute == magnitude(value),
            absolute <= 0x8000_0000_0000_0000,
            log <= 63,
            place == pow2(log as nat),
            forall|j: nat| j < log ==> #[trigger] pow2(j) < absolute,
        decreases 63 - log,
    {
        proof {
            lemma_pow2_unfold((log + 1) as nat);
            assert forall|j: nat| j < log + 1 implies #[trigger] pow2(j) < absolute by {
                if j < log {
                } else {
                    assert(j == log);
                }
            }
        }
        place = place * 2;
        log = log + 1;
    }
    proof {
        assert(is_pseudo_log(value, log as nat));
        if exists|k: nat| is_pseudo_log(value, k) {
            lemma_pseudo_log_unique(value, log as nat, pseudo_log(value));
        }
    }
    log
}

/// The largest count in a sequence of bucket counts (zero when empty).
pub open spec fn max_count(s: Seq<u64>) -> int
    decreases s.len(),
{
    if s.len() == 0 {
        0
    } else {
        let m = max_count(s.drop_last());
        if s.last() > m {
            s.last() as int
        } else {
            m
        }
    }
}

/// The largest count in either array of a histogram.
pub open spec fn histogram_max(negative: Seq<u64>, positive: Seq<u64>) -> int {
    let a = max_count(negative);
    let b = max_count(positive);
    if a >= b {
        a
    } else {
        b
    }
}

/// The highest index of a non-zero count, or -1 when every count is zero.
pub open spec fn last_nonzero(s: Seq<u64>) -> int
    decreases s.len(),
{
    if s.len() == 0 {
        -1
    } else if s.last() != 0 {
        s.len() - 1
    } else {
        last_nonzero(s.drop_last())
    }
}

/// `m` is the largest value of `s`.
pub proof fn lemma_max_count(s: Seq<u64>, m: int)
    requires
        forall|j: int| 0 <= j < s.len() ==> s[j] <= m,
        m == 0 || exists|j: int| 0 <= j < s.len() && s[j] == m,
        m >= 0,
    ensures
        max_count(s) == m,
    decreases s.len(),
{
    if s.len() > 0 {
        let p = s.drop_last();
        if s.last() == m {
            lemma_max_count_bound(p, m);
        } else {
            if m != 0 {
                let j = choose|j: int| 0 <= j < s.len() && s[j] == m;
                assert(p[j] == m);
            }
            lemma_max_count(p, m);
        }
    }
}

/// No value of `s` exceeds a bound `m` that bounds every element.
pub proof fn lemma_max_count_bound(s: Seq<u64>, m: int)
    requires
        forall|j: int| 0 <= j < s.len() ==> s[j] <= m,
        m >= 0,
    ensures
        max_count(s) <= m,
        max_count(s) >= 0,
    decreases s.len(),
{
    if s.len() > 0 {
        lemma_max_count_bound(s.drop_last(), m);
    }
}

/// The highest non-zero index is `i` when `s[i]` is non-zero and every
/// later count is zero.
pub proof fn lemma_last_nonzero(s: Seq<u64>, i: int)
    requires
        -1 <= i < s.len(),
        i >= 0 ==> s[i] != 0,
        forall|j: int| i < j < s.len() ==> s[j] == 0,
    ensures
        last_nonzero(s) == i,
    decreases s.len(),
{
    if s.len() > 0 && s.len() - 1 != i {
        lemma_last_nonzero(s.drop_last(), i);
    }
}

/// One printed row of four bucket counts.
pub open spec fn row_text(label: int, counts: Seq<u64>, base: int) -> Seq<char> {
    spaces(2) + right_justify(signed_decimal(label), 3) + seq![':'] + spaces(4)
        + right_justify(with_commas(decimal(counts[base] as nat)), 14) + spaces(4)
        + right_justify(with_commas(decimal(counts[base + 1] as nat)), 14) + spaces(4)
        + right_justify(with_commas(decimal(counts[base + 2] as nat)), 14) + spaces(4)
        + right_justify(with_commas(decimal(counts[base + 3] as nat)), 14)
}

/// The rows printed for the negative buckets: nothing when every count is
/// zero, else the groups of four from the one holding the highest non-zero
/// count down to the first group.
pub open spec fn negative_rows(negative: Seq<u64>) -> Seq<Seq<char>> {
    let top = last_nonzero(negative);
    if top < 0 {
        Seq::empty()
    } else {
        Seq::new(
            (top / 4 + 1) as nat,
            |r: int| row_text(-((top / 4 - r) * 4 + 3) + 3, negative, (top / 4 - r) * 4),
        )
    }
}

/// The rows printed for the positive buckets: the groups of four from the
/// first one up to the one holding the highest non-zero count (the first
/// group alone when every count is zero).
pub open spec fn positive_rows(positive: Seq<u64>) -> Seq<Seq<char>> {
    let last = if last_nonzero(positive) < 0 {
        0
    } else {
        last_nonzero(positive)
    };
    Seq::new((last / 4 + 1) as nat, |r: int| row_text(r * 4, positive, r * 4))
}

/// The header line of a printed log histogram.
pub open spec fn log_header() -> Seq<char> {
    spaces(2) + seq!['L', 'o', 'g', ' ', 'H', 'i', 's', 't', 'o', 'g', 'r', 'a', 'm']
}

/// The line that separates negative from positive rows.
pub open spec fn divider() -> Seq<char> {
    spaces(2) + Seq::new(23, |i: int| '-')
}

/// The lines printed for a log histogram.
pub open spec fn log_histogram_lines(negative: Seq<u64>, positive: Seq<u64>) -> Seq<Seq<char>> {
    seq![log_header()] + negative_rows(negative) + seq![divider()] + positive_rows(positive)
}

/// The negative half of a printed log histogram runs downward.  When
/// `top` is the highest bucket with a non-zero negative count, the line
/// after the header is the row of the group of four holding `top`, labelled
/// `-4 * (top / 4)`, each following row is the next lower group, its label
/// four greater, down to the row labelled 0, and the divider comes next.
/// When no negative count is non-zero (`top` is -1), the divider follows
/// the header at once.
pub proof fn lemma_negative_rows_descend(negative: Seq<u64>, positive: Seq<u64>, top: int)
    requires
        -1 <= top < negative.len(),
        top >= 0 ==> negative[top] != 0,
        forall|j: int| top < j < negative.len() ==> negative[j] == 0,
    ensures
        forall|r: int| 0 <= r <= top / 4 ==> #[trigger] log_histogram_lines(negative, positive)[r + 1] == row_text(
            -4 * (top / 4 - r),
            negative,
            4 * (top / 4 - r),
        ),
        top >= 0 ==> log_histogram_lines(negative, positive)[top / 4 + 2] == divider(),
        top < 0 ==> log_histogram_lines(negative, positive)[1] == divider(),
{
    lemma_last_nonzero(negative, top);
    let lines = log_histogram_lines(negative, positive);
    let rows = negative_rows(negative);
    if top >= 0 {
        assert(rows.len() == top / 4 + 1);
        assert forall|r: int| 0 <= r <= top / 4 implies #[trigger] lines[r + 1] == row_text(
            -4 * (top / 4 - r),
            negative,
            4 * (top / 4 - r),
        ) by {
            assert(lines[r + 1] == rows[r]);
            assert(-((top / 4 - r) * 4 + 3) + 3 == -4 * (top / 4 - r));
            assert((top / 4 - r) * 4 == 4 * (top / 4 - r));
        }
        assert(lines[top / 4 + 2] == divider());
    } else {
        assert(rows.len() == 0);
        assert(lines[1] == divider());
    }
}

/// The positive half of a printed log histogram runs upward.  With `top`
/// the highest bucket holding a non-zero negative count (or -1) and `last`
/// the highest holding a non-zero positive count (or -1), the rows after the
/// divider are the groups of four from the first one up to the one holding
/// `last` (the first group alone when there is none), each labelled with
/// its first bucket, and they end the lines.
pub proof fn lemma_positive_rows_ascend(negative: Seq<u64>, positive: Seq<u64>, top: int, last: int)
    requires
        -1 <= top < negative.len(),
        top >= 0 ==> negative[top] != 0,
        forall|j: int| top < j < negative.len() ==> negative[j] == 0,
        -1 <= last < positive.len(),
        last >= 0 ==> positive[last] != 0,
        forall|j: int| last < j < positive.len() ==> positive[j] == 0,
    ensures
        ({
            let start = if top >= 0 { top / 4 + 3 } else { 2 };
            let groups = if last >= 0 { last / 4 + 1 } else { 1 };
            &&& log_histogram_lines(negative, positive).len() == start + groups
            &&& forall|r: int| 0 <= r < groups ==> #[trigger] log_histogram_lines(negative, positive)[start + r]
                == row_text(4 * r, positive, 4 * r)
        }),
{
    lemma_last_nonzero(negative, top);
    lemma_last_nonzero(positive, last);
    let lines = log_histogram_lines(negative, positive);
    let start = if top >= 0 { top / 4 + 3 } else { 2 };
    let groups = if last >= 0 { last / 4 + 1 } else { 1 };
    let rows = positive_rows(positive);
    assert(negative_rows(negative).len() == start - 2);
    assert(rows.len() == groups);
    assert forall|r: int| 0 <= r < groups implies #[trigger] lines[start + r] == row_text(4 * r, positive, 4 * r) by {
        assert(lines[start + r] == rows[r]);
    }
}

/// A histogram of pseudo-log buckets for negative and for non-negative
/// samples.
#[derive(Clone)]
pub struct LogHistogram {
    pub negative: [u64; 64],
    pub positive: [u64; 64],
}

// Builds one row of four counts starting at `base`.
fn make_row(label: i64, counts: &[u64; 64], base: usize) -> (r: String)
    requires
        base + 3 < 64,
    ensures
        r@ == row_text(label as int, counts@, base as int),
{
    let mut s = String::new();
    push_spaces(&mut s, 2);
    let l = decimal_i64(label);
    push_right_justified(&mut s, l.as_str(), 3);
    proof { reveal_strlit(":"); }
    s.append(":");
    assert(s@ =~= spaces(2) + right_justify(signed_decimal(label as int), 3) + seq![':']
        + count_fields(counts@, base as int, 0));
    let mut k: usize = 0;
    while k < 4
        invariant
            k <= 4,
            base + 3 < 64,
            s@ == spaces(2) + right_justify(signed_decimal(label as int), 3) + seq![':']
                + count_fields(counts@, base as int, k as int),
        decreases 4 - k,
    {
        push_spaces(&mut s, 4);
        let c = commas_u64(counts[base + k]);
        push_right_justified(&mut s, c.as_str(), 14);
        k = k + 1;
    }
    proof {
        reveal_with_fuel(count_fields, 5);
    }
    assert(s@ =~= row_text(label as int, counts@, base as int));
    s
}

/// The first `k` count fields of a row, each preceded by its spacing.
pub open spec fn count_fields(counts: Seq<u64>, base: int, k: int) -> Seq<char>
    decreases k,
{
    if k <= 0 {
        Seq::empty()
    } else {
        count_fields(counts, base, k - 1) + spaces(4) + right_justify(
            with_commas(decimal(counts[base + k - 1] as nat)),
            14,
        )
    }
}

impl LogHistogram {
    /// Creates a histogram with every count zero.
    pub fn new() -> (h: LogHistogram)
        ensures
            forall|i: int| 0 <= i < 64 ==> h.negative@[i] == 0 && h.positive@[i] == 0,
    {
        let negative: [u64; 64] = [0u64; 64];
        let positive: [u64; 64] = [0u64; 64];
        LogHistogram { negative, positive }
    }

    /// Counts one sample in its bucket.
    pub fn record(&mut self, sample: i64)
        requires
            sample < 0 ==> old(self).negative@[pseudo_log(sample) as int] < u64::MAX,
            sample >= 0 ==> old(self).positive@[pseudo_log(sample) as int] < u64::MAX,
        ensures
            sample < 0 ==> final(self).negative@ == old(self).negative@.update(
                pseudo_log(sample) as int,
                (old(self).negative@[pseudo_log(sample) as int] + 1) as u64,
            ) && final(self).positive@ == old(self).positive@,
            sample >= 0 ==> final(self).positive@ == old(self).positive@.update(
                pseudo_log(sample) as int,
                (old(self).positive@[pseudo_log(sample) as int] + 1) as u64,
            ) && final(self).negative@ == old(self).negative@,
            total(final(self).negative@) + total(final(self).positive@) == total(old(self).negative@)
                + total(old(self).positive@) + 1,
    {
        let i = pseudo_log_index(sample);
        proof {
            if sample < 0 {
                lemma_record_adds_one(self.negative@, i as int);
            } else {
                lemma_record_adds_one(self.positive@, i as int);
            }
        }
        if sample < 0 {
            self.negative[i] = self.negative[i] + 1;
        } else {
            self.positive[i] = self.positive[i] + 1;
        }
    }

    /// Returns the most common pseudo-log, negated for a negative bucket.
    /// The first bucket reaching the largest count wins, negative buckets
    /// before positive ones; an empty histogram gives zero.
    pub fn log_mode(&self) -> (r: isize)
        ensures
            ({
                let m = histogram_max(self.negative@, self.positive@);
                &&& m == 0 ==> r == 0
                &&& m > 0 && max_count(self.negative@) == m ==> r <= 0
                    && self.negative@[-r] == m
                    && forall|j: int| 0 <= j < -r ==> self.negative@[j] != m
                &&& m > 0 && max_count(self.negative@) != m ==> r >= 0
                    && self.positive@[r as int] == m
                    && forall|j: int| 0 <= j < r ==> self.positive@[j] != m
            }),
    {
        let mut mode: isize = 0;
        let mut max: u64 = 0;
        let mut i: usize = 0;
        while i < 64
            invariant
                i <= 64,
                forall|j: int| 0 <= j < i ==> self.negative@[j] <= max,
                max == 0 ==> mode == 0,
                max > 0 ==> 0 <= -mode < i && self.negative@[-mode] == max
                    && forall|j: int| 0 <= j < -mode ==> self.negative@[j] < max,
            decreases 64 - i,
        {
            if self.negative[i] > max {
                mode = -(i as isize);
                max = self.negative[i];
            }
            i = i + 1;
        }
        let ghost neg_max = max;
        proof {
            if max > 0 {
                assert(self.negative@[-mode] == max);
                lemma_max_count(self.negative@, max as int);
            } else {
                lemma_max_count(self.negative@, 0);
            }
        }
        let mut i: usize = 0;
        while i < 64
            invariant
                i <= 64,
                max >= neg_max,
                neg_max == max_count(self.negative@),
                forall|j: int| 0 <= j < 64 ==> self.negative@[j] <= max,
                forall|j: int| 0 <= j < i ==> self.positive@[j] <= max,
                max == 0 ==> mode == 0,
                max == neg_max && max > 0 ==> 0 <= -mode < 64 && self.negative@[-mode] == max
                    && forall|j: int| 0 <= j < -mode ==> self.negative@[j] < max,
                max > neg_max ==> 0 <= mode < i && self.positive@[mode as int] == max
                    && forall|j: int| 0 <= j < mode ==> self.positive@[j] < max,
            decreases 64 - i,
        {
            if self.positive[i] > max {
                mode = i as isize;
                max = self.positive[i];
            }
            i = i + 1;
        }
        proof {
            if max > neg_max {
                assert(self.positive@[mode as int] == max);
                lemma_max_count(self.positive@, max as int);
            } else {
                lemma_max_count_bound(self.positive@, max as int);
            }
        }
        mode
    }

    /// Resets every count to zero.
    pub fn clear(&mut self)
        ensures
            forall|i: int| 0 <= i < 64 ==> final(self).negative@[i] == 0 && final(self).positive@[i]
                == 0,
    {
        self.negative = [0u64; 64];
        self.positive = [0u64; 64];
    }

    // The rows for the negative buckets.
    fn negative_lines(&self, lines: &mut Vec<String>)
        ensures
            final(lines)@.len() == old(lines)@.len() + negative_rows(self.negative@).len(),
            forall|j: int| 0 <= j < old(lines)@.len() ==> #[trigger] final(lines)@[j] == old(lines)@[j],
            forall|j: int| 0 <= j < negative_rows(self.negative@).len() ==>
                #[trigger] final(lines)@[old(lines)@.len() + j]@ == negative_rows(self.negative@)[j],
    {
        let mut i: usize = 63;
        while i > 0 && self.negative[i] == 0
            invariant
                i <= 63,
                forall|j: int| i < j < 64 ==> self.negative@[j] == 0,
            decreases i,
        {
            i = i - 1;
        }
        if i == 0 && self.negative[0] == 0 {
            proof { lemma_last_nonzero(self.negative@, -1); }
            return;
        }
        proof { lemma_last_nonzero(self.negative@, i as int); }
        let start_index = ((i + 4) / 4) * 4 - 1;
        let mut top = start_index;
        let mut rows = (start_index + 1) / 4;
        let ghost base_len = lines@.len();
        let ghost spec_rows = negative_rows(self.negative@);
        while rows > 0
            invariant
                start_index == (i / 4) * 4 + 3,
                start_index < 64,
                rows <= (start_index + 1) / 4,
                rows > 0 ==> top == start_index - 4 * ((start_index + 1) / 4 - rows),
                spec_rows == negative_rows(self.negative@),
                spec_rows.len() == (start_index + 1) / 4,
                last_nonzero(self.negative@) == i,
                lines@.len() == base_len + ((start_index + 1) / 4 - rows),
                forall|j: int| 0 <= j < base_len ==> #[trigger] lines@[j] == old(lines)@[j],
                forall|j: int| 0 <= j < (start_index + 1) / 4 - rows ==>
                    #[trigger] lines@[base_len + j]@ == spec_rows[j],
            decreases rows,
        {
            let row = make_row(-(top as i64) + 3, &self.negative, top - 3);
            proof {
                let r = (start_index + 1) / 4 - rows;
                assert(spec_rows[r] == row_text(-((i as int / 4 - r) * 4 + 3) + 3, self.negative@, (i as int / 4 - r) * 4));
            }
            lines.push(row);
            rows = rows - 1;
            if rows > 0 {
                top = top - 4;
            }
        }
    }

    // The rows for the positive buckets.
    fn positive_lines(&self, lines: &mut Vec<String>)
        ensures
            final(lines)@.len() == old(lines)@.len() + positive_rows(self.positive@).len(),
            forall|j: int| 0 <= j < old(lines)@.len() ==> #[trigger] final(lines)@[j] == old(lines)@[j],
            forall|j: int| 0 <= j < positive_rows(self.positive@).len() ==>
                #[trigger] final(lines)@[old(lines)@.len() + j]@ == positive_rows(self.positive@)[j],
    {
        let mut last: usize = 63;
        while last > 0 && self.positive[last] == 0
            invariant
                last <= 63,
                forall|j: int| last < j < 64 ==> self.positive@[j] == 0,
            decreases last,
        {
            last = last - 1;
        }
        proof {
            if self.positive@[last as int] != 0 {
                lemma_last_nonzero(self.positive@, last as int);
            } else {
                lemma_last_nonzero(self.positive@, -1);
            }
        }
        let ghost base_len = lines@.len();
        let ghost spec_rows = positive_rows(self.positive@);
        let mut i: usize = 0;
        while i <= last
            invariant
                last <= 63,
                i % 4 == 0,
                i <= last + 4,
                i <= 64,
                spec_rows == positive_rows(self.positive@),
                spec_rows.len() == last / 4 + 1,
                lines@.len() == base_len + i / 4,
                forall|j: int| 0 <= j < base_len ==> #[trigger] lines@[j] == old(lines)@[j],
                forall|j: int| 0 <= j < i / 4 ==> #[trigger] lines@[base_len + j]@ == spec_rows[j],
            decreases 64 - i,
        {
            let row = make_row(i as i64, &self.positive, i);
            lines.push(row);
            i = i + 4;
        }
    }

    /// The lines printed for the histogram, in order.
    pub fn lines(&self) -> (r: Vec<String>)
        ensures
            r@.len() == log_histogram_lines(self.negative@, self.positive@).len(),
            forall|j: int| 0 <= j < r@.len() ==>
                #[trigger] r@[j]@ == log_histogram_lines(self.negative@, self.positive@)[j],
    {
        let mut lines: Vec<String> = Vec::new();
        let mut header = String::new();
        push_spaces(&mut header, 2);
        proof { reveal_strlit("Log Histogram"); }
        header.append("Log Histogram");
        assert(header@ =~= log_header());
        lines.push(header);
        let ghost l1 = lines@;
        self.negative_lines(&mut lines);
        let ghost l2 = lines@;
        let mut divider_line = String::new();
        push_spaces(&mut divider_line, 2);
        proof { reveal_strlit("-----------------------"); }
        divider_line.append("-----------------------");
        assert(divider_line@ =~= divider());
        lines.push(divider_line);
        let ghost l3 = lines@;
        self.positive_lines(&mut lines);
        proof {
            let spec = log_histogram_lines(self.negative@, self.positive@);
            let nr = negative_rows(self.negative@);
            let pr = positive_rows(self.positive@);
            let n = nr.len() as int;
            assert(spec.len() == 1 + n + 1 + pr.len());
            assert forall|j: int| 0 <= j < lines@.len() implies #[trigger] lines@[j]@ == spec[j] by {
                if j == 0 {
                    assert(l1[0] == l2[0]);
                    assert(l2[0] == l3[0]);
                    assert(l3[0] == lines@[0]);
                } else if j <= n {
                    assert(spec[j] == nr[j - 1]);
                    assert(l2[1 + (j - 1)]@ == nr[j - 1]);
                    assert(l3[j] == l2[j]);
                    assert(lines@[j] == l3[j]);
                } else if j == n + 1 {
                    assert(spec[j] == divider());
                    assert(lines@[j] == l3[j]);
                } else {
                    assert(spec[j] == pr[j - n - 2]);
                    assert(lines@[(n + 2) + (j - n - 2)]@ == pr[j - n - 2]);
                }
            }
        }
        lines
    }
}

impl Default for LogHistogram {
    fn default() -> (h: LogHistogram)
        ensures
            forall|i: int| 0 <= i < 64 ==> h.negative@[i] == 0 && h.positive@[i] == 0,
    {
        LogHistogram::new()
    }
}

} // verus!
