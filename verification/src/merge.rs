//! Sums used to merge statistics instances: bucket-wise sums of
//! histograms, and the totals of sample counts and integer extremes.

use vstd::prelude::*;
use crate::log_histogram::LogHistogram;
use crate::float_histogram::FloatHistogram;

verus! {

/// Adds each count of `addend` to the matching count of `sum`.
pub fn sum_log_histogram(sum: &mut LogHistogram, addend: &LogHistogram)
    requires
        forall|i: int| 0 <= i < 64 ==> old(sum).negative@[i] + addend.negative@[i] <= u64::MAX,
        forall|i: int| 0 <= i < 64 ==> old(sum).positive@[i] + addend.positive@[i] <= u64::MAX,
    ensures
        forall|i: int| 0 <= i < 64 ==> final(sum).negative@[i] == old(sum).negative@[i] + addend.negative@[i],
        forall|i: int| 0 <= i < 64 ==> final(sum).positive@[i] == old(sum).positive@[i] + addend.positive@[i],
{
    let mut i: usize = 0;
    while i < 64
        invariant
            i <= 64,
            forall|j: int| 0 <= j < 64 ==> old(sum).negative@[j] + addend.negative@[j] <= u64::MAX,
            forall|j: int| 0 <= j < i ==> sum.negative@[j] == old(sum).negative@[j] + addend.negative@[j],
            forall|j: int| i <= j < 64 ==> sum.negative@[j] == old(sum).negative@[j],
            sum.positive@ == old(sum).positive@,
        decreases 64 - i,
    {
        sum.negative[i] = sum.negative[i] + addend.negative[i];
        i = i + 1;
    }
    let mut i: usize = 0;
    while i < 64
        invariant
            i <= 64,
            forall|j: int| 0 <= j < 64 ==> old(sum).positive@[j] + addend.positive@[j] <= u64::MAX,
            forall|j: int| 0 <= j < 64 ==> sum.negative@[j] == old(sum).negative@[j] + addend.negative@[j],
            forall|j: int| 0 <= j < i ==> sum.positive@[j] == old(sum).positive@[j] + addend.positive@[j],
            forall|j: int| i <= j < 64 ==> sum.positive@[j] == old(sum).positive@[j],
        decreases 64 - i,
    {
        sum.positive[i] = sum.positive[i] + addend.positive[i];
        i = i + 1;
    }
}

/// Adds each count of `addend` to the matching count of `sum`, and adds
/// its NaN, infinity and sample counts.  Both histograms must have the
/// same number of buckets.
pub fn sum_float_histogram(sum: &mut FloatHistogram, addend: &FloatHistogram)
    requires
        old(sum).negative@.len() == addend.negative@.len(),
        old(sum).positive@.len() == addend.positive@.len(),
        forall|i: int| 0 <= i < addend.negative@.len() ==> old(sum).negative@[i] + addend.negative@[i] <= u64::MAX,
        forall|i: int| 0 <= i < addend.positive@.len() ==> old(sum).positive@[i] + addend.positive@[i] <= u64::MAX,
        old(sum).nans + addend.nans <= usize::MAX,
        old(sum).infinities + addend.infinities <= usize::MAX,
        old(sum).samples + addend.samples <= usize::MAX,
    ensures
        final(sum).negative@.len() == old(sum).negative@.len(),
        final(sum).positive@.len() == old(sum).positive@.len(),
        forall|i: int| 0 <= i < addend.negative@.len() ==> final(sum).negative@[i] == old(sum).negative@[i] + addend.negative@[i],
        forall|i: int| 0 <= i < addend.positive@.len() ==> final(sum).positive@[i] == old(sum).positive@[i] + addend.positive@[i],
        final(sum).nans == old(sum).nans + addend.nans,
        final(sum).infinities == old(sum).infinities + addend.infinities,
        final(sum).samples == old(sum).samples + addend.samples,
        final(sum).buckets == old(sum).buckets,
        final(sum).print_opts == old(sum).print_opts,
        final(sum).histo_opts == old(sum).histo_opts,
{
    let n = sum.negative.len();
    let mut i: usize = 0;
    while i < n
        invariant
            n == old(sum).negative@.len(),
            n == addend.negative@.len(),
            sum.negative@.len() == n,
            i <= n,
            forall|j: int| 0 <= j < n ==> old(sum).negative@[j] + addend.negative@[j] <= u64::MAX,
            forall|j: int| 0 <= j < i ==> sum.negative@[j] == old(sum).negative@[j] + addend.negative@[j],
            forall|j: int| i <= j < n ==> sum.negative@[j] == old(sum).negative@[j],
            sum.positive@ == old(sum).positive@,
            sum.nans == old(sum).nans,
            sum.infinities == old(sum).infinities,
            sum.samples == old(sum).samples,
            sum.buckets == old(sum).buckets,
            sum.print_opts == old(sum).print_opts,
            sum.histo_opts == old(sum).histo_opts,
        decreases n - i,
    {
        let value = sum.negative[i] + addend.negative[i];
        sum.negative.set(i, value);
        i = i + 1;
    }
    let n = sum.positive.len();
    let mut i: usize = 0;
    while i < n
        invariant
            n == old(sum).positive@.len(),
            n == addend.positive@.len(),
            sum.positive@.len() == n,
            sum.negative@.len() == old(sum).negative@.len(),
            i <= n,
            forall|j: int| 0 <= j < n ==> old(sum).positive@[j] + addend.positive@[j] <= u64::MAX,
            forall|j: int| 0 <= j < addend.negative@.len() ==> sum.negative@[j] == old(sum).negative@[j] + addend.negative@[j],
            forall|j: int| 0 <= j < i ==> sum.positive@[j] == old(sum).positive@[j] + addend.positive@[j],
            forall|j: int| i <= j < n ==> sum.positive@[j] == old(sum).positive@[j],
            sum.nans == old(sum).nans,
            sum.infinities == old(sum).infinities,
            sum.samples == old(sum).samples,
            sum.buckets == old(sum).buckets,
            sum.print_opts == old(sum).print_opts,
            sum.histo_opts == old(sum).histo_opts,
        decreases n - i,
    {
        let value = sum.positive[i] + addend.positive[i];
        sum.positive.set(i, value);
        i = i + 1;
    }
    sum.nans = sum.nans + addend.nans;
    sum.infinities = sum.infinities + addend.infinities;
    sum.samples = sum.samples + addend.samples;
}

/// The integer totals that one statistics instance exports for merging:
/// its sample counts and the extremes of its integer samples.  An instance
/// without integer samples has `i64::MAX` as its minimum and `i64::MIN` as
/// its maximum.
#[derive(Clone, Copy)]
pub struct SampleTotals {
    pub count: u64,
    pub nans: u64,
    pub infinities: u64,
    pub min_i64: i64,
    pub max_i64: i64,
}

/// The sum of the sample counts of `parts`.
pub open spec fn total_count(parts: Seq<SampleTotals>) -> int
    decreases parts.len(),
{
    if parts.len() == 0 {
        0
    } else {
        total_count(parts.drop_last()) + parts.last().count
    }
}

/// The sum of the NaN counts of `parts`.
pub open spec fn total_nans(parts: Seq<SampleTotals>) -> int
    decreases parts.len(),
{
    if parts.len() == 0 {
        0
    } else {
        total_nans(parts.drop_last()) + parts.last().nans
    }
}

/// The sum of the infinity counts of `parts`.
pub open spec fn total_infinities(parts: Seq<SampleTotals>) -> int
    decreases parts.len(),
{
    if parts.len() == 0 {
        0
    } else {
        total_infinities(parts.drop_last()) + parts.last().infinities
    }
}

/// The least minimum of `parts`, or `i64::MAX` when there are none.
pub open spec fn least_min(parts: Seq<SampleTotals>) -> int
    decreases parts.len(),
{
    if parts.len() == 0 {
        i64::MAX as int
    } else {
        let rest = least_min(parts.drop_last());
        if parts.last().min_i64 < rest {
            parts.last().min_i64 as int
        } else {
            rest
        }
    }
}

/// The greatest maximum of `parts`, or `i64::MIN` when there are none.
pub open spec fn greatest_max(parts: Seq<SampleTotals>) -> int
    decreases parts.len(),
{
    if parts.len() == 0 {
        i64::MIN as int
    } else {
        let rest = greatest_max(parts.drop_last());
        if parts.last().max_i64 > rest {
            parts.last().max_i64 as int
        } else {
            rest
        }
    }
}

/// The merged extremes are the extremes of the parts: the merged minimum
/// is at most every part's minimum and the merged maximum at least every
/// part's maximum, each is the extreme of some part, and with no parts
/// they are `i64::MAX` and `i64::MIN`.
pub proof fn lemma_extremes(parts: Seq<SampleTotals>)
    ensures
        forall|i: int| 0 <= i < parts.len() ==> least_min(parts) <= #[trigger] parts[i].min_i64
            && greatest_max(parts) >= parts[i].max_i64,
        parts.len() == 0 ==> least_min(parts) == i64::MAX && greatest_max(parts) == i64::MIN,
        parts.len() > 0 ==> exists|j: int| 0 <= j < parts.len() && least_min(parts) == #[trigger] parts[j].min_i64,
        parts.len() > 0 ==> exists|j: int| 0 <= j < parts.len() && greatest_max(parts) == #[trigger] parts[j].max_i64,
    decreases parts.len(),
{
    if parts.len() > 0 {
        let rest = parts.drop_last();
        lemma_extremes(rest);
        let n = parts.len() - 1;
        assert forall|i: int| 0 <= i < parts.len() implies least_min(parts) <= #[trigger] parts[i].min_i64
            && greatest_max(parts) >= parts[i].max_i64 by {
            if i < n {
                assert(parts[i] == rest[i]);
            }
        }
        if rest.len() == 0 {
            assert(least_min(parts) == parts[0].min_i64);
            assert(greatest_max(parts) == parts[0].max_i64);
        } else {
            let jm = choose|j: int| 0 <= j < rest.len() && least_min(rest) == #[trigger] rest[j].min_i64;
            let jx = choose|j: int| 0 <= j < rest.len() && greatest_max(rest) == #[trigger] rest[j].max_i64;
            assert(parts[jm] == rest[jm]);
            assert(parts[jx] == rest[jx]);
            if parts.last().min_i64 < least_min(rest) {
                assert(least_min(parts) == parts[n].min_i64);
            } else {
                assert(least_min(parts) == parts[jm].min_i64);
            }
            if parts.last().max_i64 > greatest_max(rest) {
                assert(greatest_max(parts) == parts[n].max_i64);
            } else {
                assert(greatest_max(parts) == parts[jx].max_i64);
            }
        }
    }
}

/// Merging adds the counts: the totals of two runs of parts together are
/// the sums of their totals, and one part's totals are its own counts.
pub proof fn lemma_totals_add(a: Seq<SampleTotals>, b: Seq<SampleTotals>)
    ensures
        total_count(a + b) == total_count(a) + total_count(b),
        total_nans(a + b) == total_nans(a) + total_nans(b),
        total_infinities(a + b) == total_infinities(a) + total_infinities(b),
        a.len() == 1 ==> total_count(a) == a[0].count && total_nans(a) == a[0].nans
            && total_infinities(a) == a[0].infinities,
    decreases b.len(),
{
    if a.len() == 1 {
        assert(a.drop_last() =~= Seq::<SampleTotals>::empty());
        assert(total_count(a.drop_last()) == 0);
        assert(total_nans(a.drop_last()) == 0);
        assert(total_infinities(a.drop_last()) == 0);
        assert(a.last() == a[0]);
    }
    if b.len() == 0 {
        assert(a + b =~= a);
    } else {
        lemma_totals_add(a, b.drop_last());
        assert((a + b).drop_last() =~= a + b.drop_last());
        assert((a + b).last() == b.last());
    }
}

/// The counts of a prefix of `parts` are at most those of all of them.
proof fn lemma_prefix_totals(parts: Seq<SampleTotals>, i: int)
    requires
        0 <= i <= parts.len(),
    ensures
        total_count(parts.take(i)) <= total_count(parts),
        total_nans(parts.take(i)) <= total_nans(parts),
        total_infinities(parts.take(i)) <= total_infinities(parts),
    decreases parts.len(),
{
    if i == parts.len() {
        assert(parts.take(i) =~= parts);
    } else {
        lemma_prefix_totals(parts.drop_last(), i);
        assert(parts.drop_last().take(i) =~= parts.take(i));
    }
}

/// Merges the totals of several instances: the counts are summed, and the
/// extremes are the least minimum and the greatest maximum.
pub fn sum_totals(parts: &Vec<SampleTotals>) -> (r: SampleTotals)
    requires
        total_count(parts@) <= u64::MAX,
        total_nans(parts@) <= u64::MAX,
        total_infinities(parts@) <= u64::MAX,
    ensures
        r.count == total_count(parts@),
        r.nans == total_nans(parts@),
        r.infinities == total_infinities(parts@),
        r.min_i64 == least_min(parts@),
        r.max_i64 == greatest_max(parts@),
        forall|i: int| 0 <= i < parts@.len() ==> r.min_i64 <= #[trigger] parts@[i].min_i64 && r.max_i64
            >= parts@[i].max_i64,
        parts@.len() == 0 ==> r.min_i64 == i64::MAX && r.max_i64 == i64::MIN,
        parts@.len() > 0 ==> exists|j: int| 0 <= j < parts@.len() && r.min_i64 == #[trigger] parts@[j].min_i64,
        parts@.len() > 0 ==> exists|j: int| 0 <= j < parts@.len() && r.max_i64 == #[trigger] parts@[j].max_i64,
{
    proof {
        lemma_extremes(parts@);
    }
    let mut r = SampleTotals { count: 0, nans: 0, infinities: 0, min_i64: i64::MAX, max_i64: i64::MIN };
    let mut i: usize = 0;
    proof {
        assert(parts@.take(0) =~= Seq::<SampleTotals>::empty());
    }
    while i < parts.len()
        invariant
            i <= parts@.len(),
            total_count(parts@) <= u64::MAX,
            total_nans(parts@) <= u64::MAX,
            total_infinities(parts@) <= u64::MAX,
            r.count == total_count(parts@.take(i as int)),
            r.nans == total_nans(parts@.take(i as int)),
            r.infinities == total_infinities(parts@.take(i as int)),
            r.min_i64 == least_min(parts@.take(i as int)),
            r.max_i64 == greatest_max(parts@.take(i as int)),
        decreases parts@.len() - i,
    {
        let part = parts[i];
        proof {
            lemma_prefix_totals(parts@, i + 1);
            assert(parts@.take(i + 1).drop_last() =~= parts@.take(i as int));
            assert(parts@.take(i + 1).last() == part);
        }
        r.count = r.count + part.count;
        r.nans = r.nans + part.nans;
        r.infinities = r.infinities + part.infinities;
        if part.min_i64 < r.min_i64 {
            r.min_i64 = part.min_i64;
        }
        if part.max_i64 > r.max_i64 {
            r.max_i64 = part.max_i64;
        }
        i = i + 1;
    }
    proof {
        assert(parts@.take(i as int) =~= parts@);
    }
    r
}

} // verus!
