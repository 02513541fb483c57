//! The configuration of a statistics hierarchy, and the decisions of when
//! a hierarchy starts a new level 0 instance and which levels then receive
//! a new summary.
//!
//! Level 0 holds the instances that record samples.  Each time `period`
//! instances have been pushed at a level, their sum is pushed as one new
//! instance into the level above.  Each level keeps its newest `retention`
//! instances.

use vstd::prelude::*;
use vstd::string::StringExecFns;
use crate::window::Window;
use crate::printable::{decimal, decimal_u64};
use crate::float_histogram::texts;

verus! {

/// The configuration of one level of a hierarchy.
#[derive(Clone, Copy)]
pub struct HierDimension {
    period: usize,
    retention: usize,
}

impl HierDimension {
    /// The number of instances summed into one instance of the next level.
    pub closed spec fn spec_period(&self) -> nat {
        self.period as nat
    }

    /// The number of instances kept at the level.
    pub closed spec fn spec_retention(&self) -> nat {
        self.retention as nat
    }

    /// Describes a level; the retention may not be smaller than the
    /// period.
    pub fn new(period: usize, retention: usize) -> (d: HierDimension)
        requires
            retention >= period,
        ensures
            d.spec_period() == period,
            d.spec_retention() == retention,
    {
        HierDimension { period, retention }
    }

    /// Returns the number of instances summed into one instance of the
    /// next level.
    pub fn period(&self) -> (r: usize)
        ensures
            r == self.spec_period(),
    {
        self.period
    }

    /// Returns the number of instances kept at the level.
    pub fn retention(&self) -> (r: usize)
        ensures
            r == self.spec_retention(),
    {
        self.retention
    }
}

/// The configuration of a whole hierarchy: one dimension per level, and
/// the number of samples after which a new level 0 instance is started
/// (zero for never).
pub struct HierDescriptor {
    dimensions: Vec<HierDimension>,
    auto_next: i64,
}

impl HierDescriptor {
    /// The levels of the hierarchy, lowest first.
    pub closed spec fn spec_dimensions(&self) -> Seq<HierDimension> {
        self.dimensions@
    }

    /// The number of samples per level 0 instance, or zero.
    pub closed spec fn spec_auto_next(&self) -> int {
        self.auto_next as int
    }

    /// Describes a hierarchy.  A missing auto-advance count means zero,
    /// and a given one may not be negative.
    pub fn new(dimensions: Vec<HierDimension>, auto_next: Option<i64>) -> (d: HierDescriptor)
        requires
            auto_next matches Some(n) ==> n >= 0,
        ensures
            d.spec_dimensions() == dimensions@,
            d.spec_auto_next() == match auto_next {
                Some(n) => n as int,
                None => 0,
            },
    {
        let auto_next = match auto_next {
            Some(n) => n,
            None => 0,
        };
        HierDescriptor { dimensions, auto_next }
    }

    /// Returns the levels of the hierarchy, lowest first.
    pub fn dimensions(&self) -> (r: &Vec<HierDimension>)
        ensures
            r@ == self.spec_dimensions(),
    {
        &self.dimensions
    }

    /// Returns the number of samples per level 0 instance, or zero.
    pub fn auto_next(&self) -> (r: i64)
        ensures
            r == self.spec_auto_next(),
    {
        self.auto_next
    }
}

/// Selects all the instances of a level, or only its live ones.
#[derive(Clone, Copy, PartialEq, Eq, Structural)]
pub enum HierSet {
    All,
    Live,
}

/// Names one instance in a hierarchy: the subset, the level, and the
/// position within that subset (oldest first).
#[derive(Clone, Copy)]
pub struct HierIndex {
    set: HierSet,
    level: usize,
    which: usize,
}

impl HierIndex {
    /// The subset named.
    pub closed spec fn spec_set(&self) -> HierSet {
        self.set
    }

    /// The level named.
    pub closed spec fn spec_level(&self) -> nat {
        self.level as nat
    }

    /// The position named.
    pub closed spec fn spec_which(&self) -> nat {
        self.which as nat
    }

    /// Names an instance.
    pub fn new(set: HierSet, level: usize, which: usize) -> (i: HierIndex)
        ensures
            i.spec_set() == set,
            i.spec_level() == level,
            i.spec_which() == which,
    {
        HierIndex { set, level, which }
    }

    /// Returns the subset named.
    pub fn set(&self) -> (r: HierSet)
        ensures
            r == self.spec_set(),
    {
        self.set
    }

    /// Returns the level named.
    pub fn level(&self) -> (r: usize)
        ensures
            r == self.spec_level(),
    {
        self.level
    }

    /// Returns the position named.
    pub fn which(&self) -> (r: usize)
        ensures
            r == self.spec_which(),
    {
        self.which
    }
}

/// The product of the periods of levels 0 through `i`.
pub open spec fn period_product(dimensions: Seq<HierDimension>, i: int) -> int
    decreases i + 1,
{
    if i < 0 {
        1
    } else {
        period_product(dimensions, i - 1) * dimensions[i].spec_period()
    }
}

/// After `advances` level 0 instances have been started, a summary of
/// level `i` is due when `advances` is a multiple of the product of the
/// periods of levels 0 through `i`.
pub open spec fn summary_due(dimensions: Seq<HierDimension>, advances: int, i: int) -> bool {
    advances % period_product(dimensions, i) == 0
}

proof fn lemma_product_positive(dimensions: Seq<HierDimension>, i: int)
    requires
        i < dimensions.len(),
        forall|k: int| 0 <= k <= i ==> #[trigger] dimensions[k].spec_period() > 0,
    ensures
        period_product(dimensions, i) > 0,
    decreases i + 1,
{
    if i >= 0 {
        lemma_product_positive(dimensions, i - 1);
        let p = period_product(dimensions, i - 1);
        let d = dimensions[i].spec_period() as int;
        assert(p * d > 0) by (nonlinear_arith)
            requires
                p > 0,
                d > 0,
        ;
    }
}

/// The walk up the levels reaches a level below the top whose period is
/// zero: every level before it has a positive period and a summary due.
pub open spec fn reaches_zero_period(dimensions: Seq<HierDimension>, advances: int) -> bool {
    exists|k: int|
        0 <= k < dimensions.len() - 1 && #[trigger] dimensions[k].spec_period() == 0 && forall|j: int|
            0 <= j < k ==> dimensions[j].spec_period() > 0 && summary_due(dimensions, advances, j)
}

// Whether a count is a multiple of a positive number does not depend on
// the count's sign.
proof fn lemma_divides_count(x: int, p: int)
    requires
        p > 0,
    ensures
        (x % p == 0) <==> ((if x < 0 { -x } else { x }) % p == 0),
        x == 0 ==> x % p == 0,
{
    vstd::arithmetic::div_mod::lemma_fundamental_div_mod(x, p);
    vstd::arithmetic::div_mod::lemma_fundamental_div_mod(-x, p);
    if x % p == 0 {
        let q = x / p;
        assert(-x == (-q) * p + 0) by (nonlinear_arith)
            requires
                x == p * q + 0,
        ;
        vstd::arithmetic::div_mod::lemma_fundamental_div_mod_converse(-x, p, -q, 0);
    }
    if (-x) % p == 0 {
        let q = (-x) / p;
        assert(x == (-q) * p + 0) by (nonlinear_arith)
            requires
                -x == p * q + 0,
        ;
        vstd::arithmetic::div_mod::lemma_fundamental_div_mod_converse(x, p, -q, 0);
    }
    if x == 0 {
        vstd::arithmetic::div_mod::lemma_fundamental_div_mod_converse(0, p, 0, 0);
    }
}

// A walk that passes levels 0 through i - 1, each with a positive period,
// and stops at level i, which is the top or has a positive period and no
// summary due, never reaches a zero period.
proof fn lemma_walk_stops(dimensions: Seq<HierDimension>, advances: int, i: int)
    requires
        0 <= i < dimensions.len(),
        forall|k: int|
            #![trigger dimensions[k].spec_period()]
            #![trigger summary_due(dimensions, advances, k)]
            0 <= k < i ==> dimensions[k].spec_period() > 0 && summary_due(dimensions, advances, k),
        i < dimensions.len() - 1 ==> dimensions[i].spec_period() > 0 && !summary_due(dimensions, advances, i),
    ensures
        !reaches_zero_period(dimensions, advances),
{
    if reaches_zero_period(dimensions, advances) {
        let k = choose|k: int|
            0 <= k < dimensions.len() - 1 && #[trigger] dimensions[k].spec_period() == 0
                && forall|j: int| 0 <= j < k ==> dimensions[j].spec_period() > 0
                && summary_due(dimensions, advances, j);
        if k < i {
            assert(dimensions[k].spec_period() > 0);
        } else if k == i {
        } else {
            assert(summary_due(dimensions, advances, i));
        }
    }
}

/// Returns the number of levels that receive a new summary when the
/// `advances`-th level 0 instance is started: the summaries go up the
/// levels, below the top one, for as long as each is due.  A level below
/// the top with a zero period cannot be summed; reaching one gives
/// `None`.
pub fn levels_to_advance(dimensions: &Vec<HierDimension>, advances: i64) -> (r: Option<usize>)
    requires
        dimensions@.len() > 0,
    ensures
        r is None <==> reaches_zero_period(dimensions@, advances as int),
        r matches Some(n) ==> {
            &&& n < dimensions@.len()
            &&& forall|i: int| 0 <= i < n ==> dimensions@[i].spec_period() > 0
                && #[trigger] summary_due(dimensions@, advances as int, i)
            &&& n < dimensions@.len() - 1 ==> dimensions@[n as int].spec_period() > 0
                && !summary_due(dimensions@, advances as int, n as int)
        },
{
    // Divisibility does not depend on the sign of the count.
    let magnitude: u128 = if advances < 0 {
        (-(advances as i128)) as u128
    } else {
        advances as u128
    };
    let top = dimensions.len() - 1;
    if magnitude == 0 {
        // Every product of positive periods divides a count of zero.
        let mut i: usize = 0;
        while i < top
            invariant
                top == dimensions@.len() - 1,
                i <= top,
                advances == 0,
                forall|k: int|
                    #![trigger dimensions@[k].spec_period()]
                    #![trigger summary_due(dimensions@, advances as int, k)]
                    0 <= k < i ==> dimensions@[k].spec_period() > 0 && summary_due(dimensions@, advances as int, k),
            decreases top - i,
        {
            if dimensions[i].period() == 0 {
                proof {
                    assert(dimensions@[i as int].spec_period() == 0);
                    assert(forall|j: int| 0 <= j < i ==> dimensions@[j].spec_period() > 0
                        && summary_due(dimensions@, advances as int, j));
                    assert(reaches_zero_period(dimensions@, advances as int));
                }
                return None;
            }
            proof {
                lemma_product_positive(dimensions@, i as int);
                lemma_divides_count(0, period_product(dimensions@, i as int));
                assert(summary_due(dimensions@, advances as int, i as int));
            }
            i = i + 1;
        }
        proof {
            lemma_walk_stops(dimensions@, advances as int, i as int);
        }
        return Some(i);
    }
    let mut advance_point: u128 = 1;
    let mut i: usize = 0;
    while i < top
        invariant
            top == dimensions@.len() - 1,
            i <= top,
            magnitude == if advances < 0 { -(advances as int) } else { advances as int },
            advance_point == period_product(dimensions@, i - 1),
            advance_point > 0,
            magnitude > 0,
            advance_point <= magnitude,
            advance_point < 0x1_0000_0000_0000_0000,
            forall|k: int|
                #![trigger dimensions@[k].spec_period()]
                #![trigger summary_due(dimensions@, advances as int, k)]
                0 <= k < i ==> dimensions@[k].spec_period() > 0 && summary_due(dimensions@, advances as int, k),
        decreases top - i,
    {
        let period = dimensions[i].period();
        if period == 0 {
            proof {
                assert(dimensions@[i as int].spec_period() == 0);
                assert(forall|j: int| 0 <= j < i ==> dimensions@[j].spec_period() > 0
                    && summary_due(dimensions@, advances as int, j));
                assert(reaches_zero_period(dimensions@, advances as int));
            }
            return None;
        }
        proof {
            lemma_product_positive(dimensions@, i as int);
        }
        let pp = period as u128;
        assert(advance_point * pp < 0x1_0000_0000_0000_0000_0000_0000_0000_0000) by (nonlinear_arith)
            requires
                advance_point < 0x1_0000_0000_0000_0000,
                pp < 0x1_0000_0000_0000_0000,
        ;
        let product: u128 = advance_point * pp;
        assert(product == period_product(dimensions@, i as int));
        if product > magnitude {
            // The product exceeds the count, so the count is no multiple of it.
            proof {
                let p = period_product(dimensions@, i as int);
                let a = magnitude as int;
                assert(a % p == a) by (nonlinear_arith)
                    requires
                        0 < a < p,
                ;
                lemma_divides_count(advances as int, p);
                lemma_walk_stops(dimensions@, advances as int, i as int);
            }
            return Some(i);
        } else if magnitude % product != 0 {
            proof {
                lemma_divides_count(advances as int, product as int);
                lemma_walk_stops(dimensions@, advances as int, i as int);
            }
            return Some(i);
        } else {
            proof {
                lemma_divides_count(advances as int, product as int);
            }
            advance_point = product;
            i = i + 1;
        }
    }
    proof {
        lemma_walk_stops(dimensions@, advances as int, i as int);
    }
    Some(i)
}

/// Whether a new level 0 instance is due before recording the next
/// sample: automatic advancing is on, samples have been recorded, and
/// their number is a multiple of the configured count.
pub fn auto_advance_due(auto_next: i64, event_count: i64) -> (r: bool)
    requires
        auto_next >= 0,
    ensures
        r == (auto_next != 0 && event_count > 0 && event_count % auto_next == 0),
{
    auto_next != 0 && event_count > 0 && event_count % auto_next == 0
}

/// The number of members that level `l` holds after `k` advances since
/// the levels were made or cleared: level 0 has received `k + 1` members
/// and a level above it one summary per `P` advances, where `P` is the
/// product of the periods of the levels below it; each keeps at most its
/// retention count.
pub open spec fn level_len(dimensions: Seq<HierDimension>, k: int, l: int) -> int {
    let received = if l == 0 {
        k + 1
    } else {
        k / period_product(dimensions, l - 1)
    };
    let retention = dimensions[l].spec_retention() as int;
    if received < retention {
        received
    } else {
        retention
    }
}

// The product of the periods of the levels up to `j` divides the product
// up to `i`, for `j <= i`.
proof fn lemma_product_divides(dimensions: Seq<HierDimension>, j: int, i: int) -> (m: int)
    requires
        -1 <= j <= i,
        i < dimensions.len(),
    ensures
        period_product(dimensions, i) == period_product(dimensions, j) * m,
    decreases i - j,
{
    if j == i {
        assert(period_product(dimensions, i) == period_product(dimensions, j) * 1);
        1
    } else {
        let m0 = lemma_product_divides(dimensions, j, i - 1);
        let d = dimensions[i].spec_period() as int;
        let p = period_product(dimensions, j);
        assert(period_product(dimensions, i) == period_product(dimensions, i - 1) * d);
        assert((p * m0) * d == p * (m0 * d)) by (nonlinear_arith);
        m0 * d
    }
}

// One more advance: the count of advances reaches a multiple of `p` or it
// does not, and the number of multiples passed grows accordingly.
proof fn lemma_next_quotient(k: int, p: int)
    requires
        k >= 0,
        p > 0,
    ensures
        (k + 1) % p == 0 ==> (k + 1) / p == k / p + 1,
        (k + 1) % p != 0 ==> (k + 1) / p == k / p,
{
    vstd::arithmetic::div_mod::lemma_fundamental_div_mod(k, p);
    vstd::arithmetic::div_mod::lemma_mod_pos_bound(k, p);
    let q = k / p;
    let r = k % p;
    if r + 1 == p {
        assert(k + 1 == (q + 1) * p + 0) by (nonlinear_arith)
            requires
                k == p * q + r,
                r + 1 == p,
        ;
        vstd::arithmetic::div_mod::lemma_fundamental_div_mod_converse(k + 1, p, q + 1, 0);
    } else {
        assert(k + 1 == q * p + (r + 1)) by (nonlinear_arith)
            requires
                k == p * q + r,
        ;
        vstd::arithmetic::div_mod::lemma_fundamental_div_mod_converse(k + 1, p, q, r + 1);
    }
}

/// A complete advance keeps the member counts: when the `k + 1`-th
/// advance pushes one member into level 0 and one summary into each of
/// levels 1 through `levels`, where `levels` is the number of levels whose
/// summaries are due, every level then holds `level_len` members for
/// `k + 1` advances.  A push adds one member up to the retention count.
pub proof fn lemma_advance_level_len(dimensions: Seq<HierDimension>, k: int, levels: int, l: int)
    requires
        k >= 0,
        0 <= levels < dimensions.len(),
        forall|i: int| 0 <= i < dimensions.len() - 1 ==> #[trigger] dimensions[i].spec_period() >= 2,
        forall|i: int| 0 <= i < levels ==> #[trigger] summary_due(dimensions, k + 1, i),
        levels < dimensions.len() - 1 ==> !summary_due(dimensions, k + 1, levels),
        0 <= l < dimensions.len(),
    ensures
        level_len(dimensions, k + 1, l) == if l <= levels {
            let grown = level_len(dimensions, k, l) + 1;
            if grown < dimensions[l].spec_retention() {
                grown
            } else {
                dimensions[l].spec_retention() as int
            }
        } else {
            level_len(dimensions, k, l)
        },
{
    if l > 0 {
        assert forall|i: int| 0 <= i <= l - 1 implies #[trigger] dimensions[i].spec_period() > 0 by {
            assert(dimensions[i].spec_period() >= 2);
        }
        lemma_product_positive(dimensions, l - 1);
        let p = period_product(dimensions, l - 1);
        lemma_next_quotient(k, p);
        if l <= levels {
            assert(summary_due(dimensions, k + 1, l - 1));
        } else {
            // The level below the first one without a summary divides `p`.
            assert(!summary_due(dimensions, k + 1, levels));
            assert forall|i: int| 0 <= i <= levels implies #[trigger] dimensions[i].spec_period() > 0 by {
                assert(dimensions[i].spec_period() >= 2);
            }
            lemma_product_positive(dimensions, levels);
            let pl = period_product(dimensions, levels);
            let m = lemma_product_divides(dimensions, levels, l - 1);
            if (k + 1) % p == 0 {
                vstd::arithmetic::div_mod::lemma_fundamental_div_mod(k + 1, p);
                let q = (k + 1) / p;
                assert(k + 1 == pl * (m * q)) by (nonlinear_arith)
                    requires
                        k + 1 == p * q + 0,
                        p == pl * m,
                ;
                vstd::arithmetic::div_mod::lemma_fundamental_div_mod_converse(k + 1, pl, m * q, 0);
                assert(false);
            }
        }
    }
}

// Freshly made or cleared levels hold one member at level 0 and none
// above.
proof fn lemma_fresh_level_len(dimensions: Seq<HierDimension>)
    requires
        forall|i: int| 0 <= i < dimensions.len() ==> #[trigger] dimensions[i].spec_retention() > 0,
        forall|i: int| 0 <= i < dimensions.len() - 1 ==> #[trigger] dimensions[i].spec_period() >= 2,
    ensures
        forall|l: int| 0 <= l < dimensions.len() ==> #[trigger] level_len(dimensions, 0, l) == if l == 0 {
            1int
        } else {
            0int
        },
{
    assert forall|l: int| 0 <= l < dimensions.len() implies #[trigger] level_len(dimensions, 0, l) == if l
        == 0 {
        1int
    } else {
        0int
    } by {
        assert(dimensions[l].spec_retention() > 0);
        if l > 0 {
            assert forall|i: int| 0 <= i <= l - 1 implies #[trigger] dimensions[i].spec_period() > 0 by {
                assert(dimensions[i].spec_period() >= 2);
            }
            lemma_product_positive(dimensions, l - 1);
            let p = period_product(dimensions, l - 1);
            assert(0int / p == 0) by (nonlinear_arith)
                requires
                    p > 0,
            ;
        }
    }
}

/// The title under which the member named by `index` is printed: the
/// hierarchy's title, then the level, the set and the position, as in
/// `title[2].live[5]`.
pub open spec fn index_title(title: Seq<char>, index: HierIndex) -> Seq<char> {
    title + seq!['['] + decimal(index.spec_level()) + seq![']', '.'] + (match index.spec_set() {
        HierSet::Live => seq!['l', 'i', 'v', 'e'],
        HierSet::All => seq!['a', 'l', 'l'],
    }) + seq!['['] + decimal(index.spec_which()) + seq![']']
}

/// The lines printed for a request to print the member named by `index`
/// when there is no such member: the indexed title, then why.  The level
/// may be past the `level_count` levels, or the position may hold no
/// member (`present` is false).  A member that exists prints itself, so
/// there are no lines then.
pub open spec fn index_print_text(title: Seq<char>, index: HierIndex, level_count: nat, present: bool) -> Seq<Seq<char>> {
    if index.spec_level() >= level_count {
        seq![
            index_title(title, index),
            seq![' ', ' ', 'T', 'h', 'a', 't', ' ', 'l', 'e', 'v', 'e', 'l', ' ', '(']
                + decimal(index.spec_level())
                + seq![')', ' ', 'i', 's', ' ', 'i', 'n', 'v', 'a', 'l', 'i', 'd', ' ', '(']
                + decimal(level_count)
                + seq![' ', 'l', 'e', 'v', 'e', 'l', 's', ' ', 'c', 'o', 'n', 'f', 'i', 'g', 'u', 'r', 'e', 'd', ')', '.'],
        ]
    } else if !present {
        seq![
            index_title(title, index),
            seq![' ', ' ', 'T', 'h', 'a', 't', ' ', 'i', 'n', 'd', 'e', 'x', ' ', '(']
                + decimal(index.spec_which())
                + seq![')', ' ', 'i', 's', ' ', 'o', 'u', 't', ' ', 'o', 'f', ' ', 'b', 'o', 'u', 'n', 'd', 's', '.'],
        ]
    } else {
        Seq::empty()
    }
}

/// Returns the indexed title under which the member named by `index` is
/// printed.
pub fn index_title_text(title: &str, index: HierIndex) -> (r: String)
    ensures
        r@ == index_title(title@, index),
{
    let mut r = String::from_str(title);
    proof { reveal_strlit("["); reveal_strlit("]."); reveal_strlit("live"); reveal_strlit("all"); reveal_strlit("]"); }
    r.append("[");
    let level = decimal_u64(index.level() as u64);
    r.append(level.as_str());
    r.append("].");
    match index.set() {
        HierSet::Live => r.append("live"),
        HierSet::All => r.append("all"),
    }
    r.append("[");
    let which = decimal_u64(index.which() as u64);
    r.append(which.as_str());
    r.append("]");
    r
}

/// Returns the lines printed for a request to print the member named by
/// `index` in a hierarchy of `level_count` levels when there is no such
/// member; `present` tells whether the level holds a member at that
/// position.
pub fn index_print_lines(title: &str, index: HierIndex, level_count: usize, present: bool) -> (r: Vec<String>)
    ensures
        texts(r@) == index_print_text(title@, index, level_count as nat, present),
{
    let mut lines: Vec<String> = Vec::new();
    if index.level() >= level_count {
        let heading = index_title_text(title, index);
        let mut reason = String::new();
        proof {
            reveal_strlit("  That level (");
            reveal_strlit(") is invalid (");
            reveal_strlit(" levels configured).");
        }
        reason.append("  That level (");
        let level = decimal_u64(index.level() as u64);
        reason.append(level.as_str());
        reason.append(") is invalid (");
        let count = decimal_u64(level_count as u64);
        reason.append(count.as_str());
        reason.append(" levels configured).");
        assert(reason@ =~= index_print_text(title@, index, level_count as nat, present)[1]);
        lines.push(heading);
        lines.push(reason);
    } else if !present {
        let heading = index_title_text(title, index);
        let mut reason = String::new();
        proof {
            reveal_strlit("  That index (");
            reveal_strlit(") is out of bounds.");
        }
        reason.append("  That index (");
        let which = decimal_u64(index.which() as u64);
        reason.append(which.as_str());
        reason.append(") is out of bounds.");
        assert(reason@ =~= index_print_text(title@, index, level_count as nat, present)[1]);
        lines.push(heading);
        lines.push(reason);
    }
    assert(texts(lines@) =~= index_print_text(title@, index, level_count as nat, present));
    lines
}

/// The levels of a statistics hierarchy: one window of members per level,
/// with the counts that decide when a new level 0 member is started and
/// which levels then receive a summary.  The members themselves are made
/// and summed by the caller.
pub struct HierLevels<M> {
    dimensions: Vec<HierDimension>,
    stats: Vec<Window<M>>,
    auto_next: i64,
    advance_count: i64,
    event_count: i64,
}

impl<M> HierLevels<M> {
    /// The configuration of each level, lowest first.
    pub closed spec fn spec_dimensions(&self) -> Seq<HierDimension> {
        self.dimensions@
    }

    /// The window of members at a level.
    pub closed spec fn spec_level(&self, level: int) -> Window<M> {
        self.stats@[level]
    }

    /// The number of samples per level 0 member, or zero.
    pub closed spec fn spec_auto_next(&self) -> int {
        self.auto_next as int
    }

    /// The number of level 0 members started after the first one.
    pub closed spec fn spec_advance_count(&self) -> int {
        self.advance_count as int
    }

    /// The number of samples recorded.
    pub closed spec fn spec_event_count(&self) -> int {
        self.event_count as int
    }

    /// The members at each level, oldest first.
    pub open spec fn members(&self) -> Seq<Seq<M>> {
        Seq::new(self.spec_dimensions().len(), |i: int| self.spec_level(i)@)
    }

    /// Every level holds the number of members that `level_len` gives for
    /// the advances counted so far.
    pub open spec fn counts_hold(&self) -> bool {
        forall|l: int| 0 <= l < self.spec_dimensions().len() ==> #[trigger] self.members()[l].len()
            == level_len(self.spec_dimensions(), self.spec_advance_count(), l)
    }

    /// The internal consistency of the levels: one window per dimension,
    /// each holding its retention count with its period as live members,
    /// a period of at least two below the top, a member at level 0, and
    /// non-negative counts.
    pub closed spec fn well_formed(&self) -> bool {
        &&& self.stats@.len() == self.dimensions@.len()
        &&& self.dimensions@.len() > 0
        &&& forall|i: int| 0 <= i < self.stats@.len() ==> {
            &&& (#[trigger] self.stats@[i]).well_formed()
            &&& self.stats@[i].spec_size_limit() == self.dimensions@[i].spec_retention()
            &&& self.stats@[i].spec_live_limit() == self.dimensions@[i].spec_period()
        }
        &&& forall|i: int| 0 <= i < self.dimensions@.len() - 1 ==> #[trigger] self.dimensions@[i].spec_period() >= 2
        &&& self.stats@[0]@.len() > 0
        &&& self.auto_next >= 0
        &&& self.advance_count >= 0
        &&& self.event_count >= 0
    }

    /// Facts about well-formed levels that callers may rely on.
    pub proof fn lemma_well_formed(&self)
        requires
            self.well_formed(),
        ensures
            self.spec_dimensions().len() > 0,
            self.spec_level(0)@.len() > 0,
            forall|i: int| 0 <= i < self.spec_dimensions().len() ==> (#[trigger] self.spec_level(i)).well_formed()
                && self.spec_level(i).spec_size_limit() == self.spec_dimensions()[i].spec_retention()
                && self.spec_level(i).spec_live_limit() == self.spec_dimensions()[i].spec_period(),
            forall|i: int| 0 <= i < self.spec_dimensions().len() - 1 ==> #[trigger] self.spec_dimensions()[i].spec_period() >= 2,
            self.spec_auto_next() >= 0,
            self.spec_advance_count() >= 0,
            self.spec_event_count() >= 0,
    {
    }

    /// Creates the levels described by `descriptor`, with `first` as the
    /// member of level 0 that records samples.  There must be at least one
    /// level, every level must keep at least one member, and every level
    /// below the top must sum at least two.
    pub fn new(descriptor: &HierDescriptor, first: M) -> (h: HierLevels<M>)
        requires
            descriptor.spec_dimensions().len() > 0,
            descriptor.spec_auto_next() >= 0,
            forall|i: int| 0 <= i < descriptor.spec_dimensions().len() ==>
                #[trigger] descriptor.spec_dimensions()[i].spec_retention() > 0
                && descriptor.spec_dimensions()[i].spec_period() <= descriptor.spec_dimensions()[i].spec_retention(),
            forall|i: int| 0 <= i < descriptor.spec_dimensions().len() - 1 ==>
                #[trigger] descriptor.spec_dimensions()[i].spec_period() >= 2,
        ensures
            h.well_formed(),
            h.spec_dimensions() == descriptor.spec_dimensions(),
            h.spec_auto_next() == descriptor.spec_auto_next(),
            h.spec_advance_count() == 0,
            h.spec_event_count() == 0,
            h.members()[0] == seq![first],
            h.counts_hold(),
            forall|i: int| 1 <= i < h.members().len() ==> #[trigger] h.members()[i] == Seq::<M>::empty(),
    {
        let source = descriptor.dimensions();
        let mut dimensions: Vec<HierDimension> = Vec::new();
        let mut stats: Vec<Window<M>> = Vec::new();
        let mut i: usize = 0;
        while i < source.len()
            invariant
                i <= source@.len(),
                source@ == descriptor.spec_dimensions(),
                forall|k: int| 0 <= k < source@.len() ==>
                    #[trigger] source@[k].spec_retention() > 0
                    && source@[k].spec_period() <= source@[k].spec_retention(),
                dimensions@ == source@.subrange(0, i as int),
                stats@.len() == i,
                forall|k: int| 0 <= k < i ==> {
                    &&& (#[trigger] stats@[k]).well_formed()
                    &&& stats@[k].spec_size_limit() == source@[k].spec_retention()
                    &&& stats@[k].spec_live_limit() == source@[k].spec_period()
                    &&& stats@[k]@ == Seq::<M>::empty()
                },
            decreases source@.len() - i,
        {
            let dimension = source[i];
            let window: Window<M> = Window::new(dimension.retention(), dimension.period());
            dimensions.push(dimension);
            stats.push(window);
            i = i + 1;
            assert(dimensions@ =~= source@.subrange(0, i as int));
        }
        assert(dimensions@ =~= source@);
        let ghost before = stats@;
        stats[0].push(first);
        proof {
            assert forall|k: int| 1 <= k < stats@.len() implies stats@[k] == before[k] by {}
        }
        let h = HierLevels {
            dimensions,
            stats,
            auto_next: descriptor.auto_next(),
            advance_count: 0,
            event_count: 0,
        };
        assert(h.members()[0] =~= seq![first]);
        proof {
            lemma_fresh_level_len(h.spec_dimensions());
        }
        h
    }

    /// Returns the number of levels.
    pub fn level_count(&self) -> (r: usize)
        requires
            self.well_formed(),
        ensures
            r == self.spec_dimensions().len(),
    {
        self.stats.len()
    }

    /// Returns the window of members at a level.
    pub fn level(&self, level: usize) -> (r: &Window<M>)
        requires
            self.well_formed(),
            level < self.spec_dimensions().len(),
        ensures
            *r == self.spec_level(level as int),
    {
        &self.stats[level]
    }

    /// Returns the configuration of each level.
    pub fn dimensions(&self) -> (r: &Vec<HierDimension>)
        ensures
            r@ == self.spec_dimensions(),
    {
        &self.dimensions
    }

    /// Returns the member of level 0 that records samples: the newest one.
    pub fn current(&self) -> (r: &M)
        requires
            self.well_formed(),
        ensures
            *r == self.members()[0].last(),
    {
        proof {
            assert(self.stats@[0].well_formed());
        }
        self.stats[0].newest().unwrap()
    }

    /// Counts one more sample and reports whether a new level 0 member is
    /// due before it is recorded: automatic advancing is on and the
    /// samples counted so far fill a whole number of level 0 members.
    pub fn note_event(&mut self) -> (due: bool)
        requires
            old(self).well_formed(),
            old(self).spec_event_count() < i64::MAX,
        ensures
            final(self).well_formed(),
            due == (old(self).spec_auto_next() != 0 && old(self).spec_event_count() > 0
                && old(self).spec_event_count() % old(self).spec_auto_next() == 0),
            final(self).spec_event_count() == old(self).spec_event_count() + 1,
            final(self).spec_advance_count() == old(self).spec_advance_count(),
            final(self).spec_auto_next() == old(self).spec_auto_next(),
            final(self).spec_dimensions() == old(self).spec_dimensions(),
            final(self).members() == old(self).members(),
    {
        let due = auto_advance_due(self.auto_next, self.event_count);
        self.event_count = self.event_count + 1;
        due
    }

    /// Starts an advance: counts one more level 0 member and returns the
    /// number of levels, from level 0 up, whose live members are now to be
    /// summed into the level above.
    pub fn start_advance(&mut self) -> (levels: usize)
        requires
            old(self).well_formed(),
            old(self).spec_advance_count() < i64::MAX,
        ensures
            final(self).well_formed(),
            final(self).spec_advance_count() == old(self).spec_advance_count() + 1,
            levels < final(self).spec_dimensions().len(),
            forall|i: int| 0 <= i < levels ==> #[trigger] summary_due(
                final(self).spec_dimensions(),
                final(self).spec_advance_count(),
                i,
            ),
            levels < final(self).spec_dimensions().len() - 1 ==> !summary_due(
                final(self).spec_dimensions(),
                final(self).spec_advance_count(),
                levels as int,
            ),
            final(self).spec_event_count() == old(self).spec_event_count(),
            final(self).spec_auto_next() == old(self).spec_auto_next(),
            final(self).spec_dimensions() == old(self).spec_dimensions(),
            final(self).members() == old(self).members(),
            forall|j: int| 0 <= j < old(self).spec_dimensions().len() ==> #[trigger] final(self).spec_level(j)
                == old(self).spec_level(j),
    {
        self.advance_count = self.advance_count + 1;
        let r = levels_to_advance(&self.dimensions, self.advance_count);
        match r {
            Some(levels) => levels,
            None => {
                proof {
                    let dims = self.dimensions@;
                    let k = choose|k: int|
                        0 <= k < dims.len() - 1 && #[trigger] dims[k].spec_period() == 0
                            && forall|j: int| 0 <= j < k ==> dims[j].spec_period() > 0
                            && summary_due(dims, self.advance_count as int, j);
                    assert(dims[k].spec_period() >= 2);
                }
                0
            },
        }
    }

    /// Pushes a summary member into a level above level 0.
    pub fn push_summary(&mut self, level: usize, member: M)
        requires
            old(self).well_formed(),
            1 <= level < old(self).spec_dimensions().len(),
        ensures
            final(self).well_formed(),
            final(self).members() == old(self).members().update(
                level as int,
                crate::window::pushed(
                    old(self).members()[level as int],
                    member,
                    old(self).spec_dimensions()[level as int].spec_retention(),
                ),
            ),
            final(self).spec_event_count() == old(self).spec_event_count(),
            final(self).spec_advance_count() == old(self).spec_advance_count(),
            final(self).spec_auto_next() == old(self).spec_auto_next(),
            final(self).spec_dimensions() == old(self).spec_dimensions(),
            forall|j: int| 0 <= j < old(self).spec_dimensions().len() && j != level ==> #[trigger] final(self).spec_level(j)
                == old(self).spec_level(j),
    {
        let ghost before = self.members();
        proof {
            assert(self.stats@[level as int].well_formed());
        }
        self.stats[level].push(member);
        proof {
            assert(self.stats@[level as int].well_formed());
            assert(self.members() =~= before.update(
                level as int,
                crate::window::pushed(before[level as int], member, self.dimensions@[level as int].spec_retention()),
            ));
        }
    }

    /// Pushes a new member into level 0, where it becomes the member that
    /// records samples.
    pub fn push_current(&mut self, member: M)
        requires
            old(self).well_formed(),
        ensures
            final(self).well_formed(),
            final(self).members() == old(self).members().update(
                0,
                crate::window::pushed(
                    old(self).members()[0],
                    member,
                    old(self).spec_dimensions()[0].spec_retention(),
                ),
            ),
            final(self).members()[0].last() == member,
            final(self).spec_event_count() == old(self).spec_event_count(),
            final(self).spec_advance_count() == old(self).spec_advance_count(),
            final(self).spec_auto_next() == old(self).spec_auto_next(),
            final(self).spec_dimensions() == old(self).spec_dimensions(),
            forall|j: int| 1 <= j < old(self).spec_dimensions().len() ==> #[trigger] final(self).spec_level(j)
                == old(self).spec_level(j),
    {
        let ghost before = self.members();
        proof {
            assert(self.stats@[0].well_formed());
        }
        self.stats[0].push(member);
        proof {
            assert(self.stats@[0].well_formed());
            assert(self.members() =~= before.update(
                0,
                crate::window::pushed(before[0], member, self.dimensions@[0].spec_retention()),
            ));
        }
    }

    /// Performs a complete advance.  It counts one more level 0 member, then
    /// for each level whose summary is due, from level 0 up, pushes into
    /// the level above the summary that `summarize` makes of the level, and
    /// last pushes the member that `make_current` makes into level 0, where
    /// it records samples.  It returns the number of levels that were
    /// summed.  Member counts that follow `level_len` still do after it.
    pub fn advance<S: Fn(&Window<M>) -> M, C: Fn() -> M>(&mut self, summarize: S, make_current: C) -> (levels: usize)
        requires
            old(self).well_formed(),
            old(self).spec_advance_count() < i64::MAX,
            forall|w: &Window<M>| #[trigger] summarize.requires((w,)),
            make_current.requires(()),
        ensures
            final(self).well_formed(),
            old(self).counts_hold() ==> final(self).counts_hold(),
            final(self).spec_advance_count() == old(self).spec_advance_count() + 1,
            final(self).spec_event_count() == old(self).spec_event_count(),
            final(self).spec_auto_next() == old(self).spec_auto_next(),
            final(self).spec_dimensions() == old(self).spec_dimensions(),
            levels < final(self).spec_dimensions().len(),
            forall|i: int| 0 <= i < levels ==> #[trigger] summary_due(
                final(self).spec_dimensions(),
                final(self).spec_advance_count(),
                i,
            ),
            levels < final(self).spec_dimensions().len() - 1 ==> !summary_due(
                final(self).spec_dimensions(),
                final(self).spec_advance_count(),
                levels as int,
            ),
            final(self).members()[0] == crate::window::pushed(
                old(self).members()[0],
                final(self).members()[0].last(),
                old(self).spec_dimensions()[0].spec_retention(),
            ),
            make_current.ensures((), final(self).members()[0].last()),
            forall|l: int| 1 <= l <= levels ==> #[trigger] final(self).members()[l] == crate::window::pushed(
                old(self).members()[l],
                final(self).members()[l].last(),
                old(self).spec_dimensions()[l].spec_retention(),
            ),
            forall|l: int| levels < l < final(self).spec_dimensions().len() ==> #[trigger] final(self).members()[l]
                == old(self).members()[l],
            forall|l: int| 1 <= l <= levels ==> summarize.ensures(
                (&(if l == 1 { old(self).spec_level(0) } else { final(self).spec_level(l - 1) }),),
                #[trigger] final(self).members()[l].last(),
            ),
    {
        let ghost before = *self;
        let levels = self.start_advance();
        let count = self.level_count();
        let mut l: usize = 1;
        while l <= levels
            invariant
                self.well_formed(),
                levels < count,
                1 <= l <= levels + 1,
                levels < self.spec_dimensions().len(),
                self.spec_dimensions() == before.spec_dimensions(),
                self.spec_advance_count() == before.spec_advance_count() + 1,
                self.spec_event_count() == before.spec_event_count(),
                self.spec_auto_next() == before.spec_auto_next(),
                forall|i: int| 0 <= i < levels ==> #[trigger] summary_due(
                    self.spec_dimensions(),
                    self.spec_advance_count(),
                    i,
                ),
                levels < self.spec_dimensions().len() - 1 ==> !summary_due(
                    self.spec_dimensions(),
                    self.spec_advance_count(),
                    levels as int,
                ),
                forall|j: int| 1 <= j < l ==> #[trigger] self.members()[j] == crate::window::pushed(
                    before.members()[j],
                    self.members()[j].last(),
                    before.spec_dimensions()[j].spec_retention(),
                ),
                forall|j: int| 0 <= j < self.spec_dimensions().len() && (j == 0 || j >= l) ==>
                    #[trigger] self.members()[j] == before.members()[j],
                forall|w: &Window<M>| #[trigger] summarize.requires((w,)),
                self.spec_level(0) == before.spec_level(0),
                forall|j: int| 1 <= j < l ==> summarize.ensures(
                    (&(if j == 1 { before.spec_level(0) } else { self.spec_level(j - 1) }),),
                    #[trigger] self.members()[j].last(),
                ),
            decreases levels + 1 - l,
        {
            let ghost source = self.spec_level(l - 1);
            let ghost levels_before = *self;
            let summary = summarize(self.level(l - 1));
            let ghost mid = self.members();
            self.push_summary(l, summary);
            proof {
                assert(summarize.ensures((&source,), summary));
                if l == 1 {
                    assert(source == before.spec_level(0));
                } else {
                    assert(self.spec_level(l - 1) == levels_before.spec_level(l - 1));
                }
                assert forall|j: int| 1 <= j < l implies summarize.ensures(
                    (&(if j == 1 { before.spec_level(0) } else { self.spec_level(j - 1) }),),
                    #[trigger] self.members()[j].last(),
                ) by {
                    assert(self.members()[j] == mid[j]);
                    if j > 1 {
                        assert(self.spec_level(j - 1) == levels_before.spec_level(j - 1));
                    }
                }
                assert(self.members()[l as int] == crate::window::pushed(
                    mid[l as int],
                    summary,
                    before.spec_dimensions()[l as int].spec_retention(),
                ));
                assert(self.members()[l as int].last() == summary);
                assert forall|j: int| 0 <= j < self.spec_dimensions().len() && j != l implies #[trigger] self.members()[j]
                    == mid[j] by {}
            }
            l = l + 1;
        }
        let current = make_current();
        let ghost mid = self.members();
        let ghost levels_before = *self;
        self.push_current(current);
        proof {
            assert forall|j: int| 1 <= j <= levels implies summarize.ensures(
                (&(if j == 1 { before.spec_level(0) } else { self.spec_level(j - 1) }),),
                #[trigger] self.members()[j].last(),
            ) by {
                assert(self.members()[j] == mid[j]);
                if j > 1 {
                    assert(self.spec_level(j - 1) == levels_before.spec_level(j - 1));
                }
            }
            assert forall|j: int| 1 <= j < self.spec_dimensions().len() implies #[trigger] self.members()[j]
                == mid[j] by {}
            if before.counts_hold() {
                self.lemma_well_formed();
                before.lemma_well_formed();
                assert forall|j: int| 0 <= j < before.spec_dimensions().len() implies #[trigger] self.members()[j].len()
                    == if j <= levels && before.members()[j].len() < before.spec_dimensions()[j].spec_retention() {
                    before.members()[j].len() + 1int
                } else {
                    before.members()[j].len() as int
                } by {
                    assert(before.spec_level(j).well_formed());
                    before.spec_level(j).lemma_well_formed();
                    if j == 0 {
                        assert(before.members()[0].len() > 0);
                    } else if j <= levels {
                    }
                }
                lemma_advance_keeps_counts(before, *self, levels as int);
            }
        }
        levels
    }

    /// Empties every level and zeroes the counts, then makes `first` the
    /// member of level 0 that records samples.
    pub fn clear_all(&mut self, first: M)
        requires
            old(self).well_formed(),
        ensures
            final(self).well_formed(),
            final(self).spec_event_count() == 0,
            final(self).spec_advance_count() == 0,
            final(self).spec_auto_next() == old(self).spec_auto_next(),
            final(self).spec_dimensions() == old(self).spec_dimensions(),
            final(self).members()[0] == seq![first],
            final(self).counts_hold(),
            forall|i: int| 1 <= i < final(self).members().len() ==> #[trigger] final(self).members()[i]
                == Seq::<M>::empty(),
    {
        self.advance_count = 0;
        self.event_count = 0;
        let n = self.stats.len();
        let mut i: usize = 0;
        while i < n
            invariant
                n == self.stats@.len(),
                n == self.dimensions@.len(),
                n > 0,
                i <= n,
                self.dimensions@ == old(self).dimensions@,
                self.auto_next == old(self).auto_next,
                self.advance_count == 0,
                self.event_count == 0,
                self.auto_next >= 0,
                forall|k: int| 0 <= k < n ==> {
                    &&& (#[trigger] self.stats@[k]).well_formed()
                    &&& self.stats@[k].spec_size_limit() == self.dimensions@[k].spec_retention()
                    &&& self.stats@[k].spec_live_limit() == self.dimensions@[k].spec_period()
                },
                forall|k: int| 0 <= k < i ==> #[trigger] self.stats@[k]@ == Seq::<M>::empty(),
                forall|k: int| 0 <= k < self.dimensions@.len() - 1 ==> #[trigger] self.dimensions@[k].spec_period() >= 2,
            decreases n - i,
        {
            proof {
                assert(self.stats@[i as int].well_formed());
            }
            self.stats[i].clear();
            i = i + 1;
        }
        proof {
            assert(self.stats@[0].well_formed());
            assert(self.stats@[0]@ == Seq::<M>::empty());
            self.stats@[0].lemma_well_formed();
        }
        self.stats[0].push(first);
        proof {
            assert(self.stats@[0]@ == crate::window::pushed(Seq::<M>::empty(), first, self.dimensions@[0].spec_retention()));
            assert(self.members()[0] == self.stats@[0]@);
        }
        assert(self.members()[0] =~= seq![first]);
        proof {
            self.lemma_well_formed();
            assert forall|i: int| 0 <= i < self.spec_dimensions().len() implies #[trigger] self.spec_dimensions()[i].spec_retention() > 0 by {
                assert(self.spec_level(i).well_formed());
                self.spec_level(i).lemma_well_formed();
            }
            lemma_fresh_level_len(self.spec_dimensions());
        }
    }

    /// Returns the number of samples recorded.
    pub fn event_count(&self) -> (r: i64)
        ensures
            r == self.spec_event_count(),
    {
        self.event_count
    }

    /// Returns the number of level 0 members started after the first one.
    pub fn advance_count(&self) -> (r: i64)
        ensures
            r == self.spec_advance_count(),
    {
        self.advance_count
    }

    /// Returns the member named by `index`, if there is one.  A position
    /// among all the members of a level must be below the level's
    /// retention count.
    pub fn index(&self, index: HierIndex) -> (r: Option<&M>)
        requires
            self.well_formed(),
            index.spec_level() < self.spec_dimensions().len() && index.spec_set() is All ==>
                index.spec_which() < self.spec_dimensions()[index.spec_level() as int].spec_retention(),
        ensures
            index.spec_level() >= self.spec_dimensions().len() ==> r is None,
            index.spec_level() < self.spec_dimensions().len() && index.spec_set() is All ==> {
                &&& r is Some <==> index.spec_which() < self.members()[index.spec_level() as int].len()
                &&& r matches Some(m) ==> *m == self.members()[index.spec_level() as int][index.spec_which() as int]
            },
            index.spec_level() < self.spec_dimensions().len() && index.spec_set() is Live ==> {
                let live = self.spec_level(index.spec_level() as int).live_view();
                &&& r is Some <==> index.spec_which() < live.len()
                &&& r matches Some(m) ==> *m == live[index.spec_which() as int]
            },
    {
        let level = index.level();
        let which = index.which();
        if level >= self.stats.len() {
            return None;
        }
        proof {
            assert(self.stats@[level as int].well_formed());
        }
        match index.set() {
            HierSet::Live => self.stats[level].index_live(which),
            HierSet::All => self.stats[level].index_all(which),
        }
    }
}

/// A complete advance keeps the member counts of the levels.  The advance
/// counts one more level 0 member, as `start_advance` does, and then pushes
/// one member into each of levels 0 through `levels`, the levels whose
/// summaries are due, as `push_current` and `push_summary` do; a push adds
/// one member up to the level's retention count.  When every level held
/// `level_len` members before, every level holds `level_len` members for
/// the new advance count after.
pub proof fn lemma_advance_keeps_counts<M>(before: HierLevels<M>, after: HierLevels<M>, levels: int)
    requires
        before.well_formed(),
        before.counts_hold(),
        after.spec_dimensions() == before.spec_dimensions(),
        after.spec_advance_count() == before.spec_advance_count() + 1,
        0 <= levels < before.spec_dimensions().len(),
        forall|i: int| 0 <= i < levels ==> #[trigger] summary_due(
            before.spec_dimensions(),
            after.spec_advance_count(),
            i,
        ),
        levels < before.spec_dimensions().len() - 1 ==> !summary_due(
            before.spec_dimensions(),
            after.spec_advance_count(),
            levels,
        ),
        forall|l: int| 0 <= l < before.spec_dimensions().len() ==> #[trigger] after.members()[l].len()
            == if l <= levels && before.members()[l].len() < before.spec_dimensions()[l].spec_retention() {
            before.members()[l].len() + 1int
        } else {
            before.members()[l].len() as int
        },
    ensures
        after.counts_hold(),
{
    before.lemma_well_formed();
    let dims = before.spec_dimensions();
    let k = before.spec_advance_count();
    assert forall|l: int| 0 <= l < after.spec_dimensions().len() implies #[trigger] after.members()[l].len()
        == level_len(after.spec_dimensions(), after.spec_advance_count(), l) by {
        lemma_advance_level_len(dims, k, levels, l);
        assert(before.members()[l].len() == level_len(dims, k, l));
    }
}

/// The hierarchy keeps, at each level, exactly the newest summaries pushed
/// there: pushing the members of `s`, in order, into an empty level whose
/// retention count is `retention` leaves the last `retention` of them.
pub proof fn lemma_level_keeps_newest<M>(s: Seq<M>, retention: nat)
    requires
        retention > 0,
    ensures
        crate::window::pushed_all(Seq::<M>::empty(), s, retention) == crate::window::newest_n(s, retention),
{
    crate::window::lemma_window_keeps_newest(s, retention);
}

} // verus!
