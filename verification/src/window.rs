//! A fixed-capacity window over the most recent items pushed into it.
//!
//! A `Window<T>` keeps at most `size_limit` items.  When a new item is
//! pushed into a full window, the oldest item is dropped.  The newest
//! `live_limit` items form the "live" subset.  Items are addressed by age,
//! with index zero naming the oldest one.

use vstd::prelude::*;

verus! {

/// Wraps a physical position that may run one lap past the end of the
/// backing vector.
pub open spec fn wrap(pos: int, len: int) -> int {
    if pos < len {
        pos
    } else {
        pos - len
    }
}

/// The result of pushing `item` into a window whose contents are `items`
/// and whose capacity is `size`: the oldest item leaves when the window
/// is full.
pub open spec fn pushed<T>(items: Seq<T>, item: T, size: nat) -> Seq<T> {
    if items.len() < size {
        items.push(item)
    } else {
        items.skip(1).push(item)
    }
}

/// The contents of a window of capacity `size` after the items of `s` were
/// pushed into it, in order, starting from `start`.
pub open spec fn pushed_all<T>(start: Seq<T>, s: Seq<T>, size: nat) -> Seq<T>
    decreases s.len(),
{
    if s.len() == 0 {
        start
    } else {
        pushed(pushed_all(start, s.drop_last(), size), s.last(), size)
    }
}

/// The newest `n` items of `items` (all of them when there are fewer).
pub open spec fn newest_n<T>(items: Seq<T>, n: nat) -> Seq<T> {
    if items.len() <= n {
        items
    } else {
        items.skip(items.len() - n)
    }
}

/// Selects which members of a window an iteration visits.
pub enum ScanType {
    Live,
    All,
}

/// A window of the last `size_limit` items pushed, the newest
/// `live_limit` of which are live.
#[derive(Clone)]
pub struct Window<T> {
    size_limit: usize,
    live_limit: usize,
    current_index: usize,
    data: Vec<T>,
}

impl<T> View for Window<T> {
    type V = Seq<T>;

    /// The items in the window, oldest first.
    closed spec fn view(&self) -> Seq<T> {
        Seq::new(
            self.data@.len(),
            |j: int| self.data@[wrap(self.current_index + j, self.data@.len() as int)],
        )
    }
}

impl<T> Window<T> {
    /// The maximum number of items the window holds.
    pub closed spec fn spec_size_limit(&self) -> nat {
        self.size_limit as nat
    }

    /// The number of newest items that count as live.
    pub closed spec fn spec_live_limit(&self) -> nat {
        self.live_limit as nat
    }

    /// The live items, oldest first.
    pub open spec fn live_view(&self) -> Seq<T> {
        newest_n(self@, self.spec_live_limit())
    }

    /// The backing vector, in storage order.
    pub closed spec fn spec_data(&self) -> Seq<T> {
        self.data@
    }

    /// The internal consistency of a window.
    pub closed spec fn well_formed(&self) -> bool {
        &&& 0 < self.size_limit
        &&& self.live_limit <= self.size_limit
        &&& self.data@.len() <= self.size_limit
        &&& self.current_index < self.size_limit
        &&& self.data@.len() < self.size_limit ==> self.current_index == self.data@.len()
        &&& self.data@.len() == self.size_limit ==> self.current_index < self.data@.len()
    }

    /// Facts about a well-formed window that callers may rely on.
    pub proof fn lemma_well_formed(&self)
        requires
            self.well_formed(),
        ensures
            0 < self.spec_size_limit(),
            self.spec_live_limit() <= self.spec_size_limit(),
            self@.len() <= self.spec_size_limit(),
    {
    }

    /// Creates an empty window.  The size limit must be positive and the
    /// live limit may not exceed it.
    pub fn new(size_limit: usize, live_limit: usize) -> (w: Window<T>)
        requires
            size_limit > 0,
            live_limit <= size_limit,
        ensures
            w.well_formed(),
            w@ == Seq::<T>::empty(),
            w.spec_size_limit() == size_limit,
            w.spec_live_limit() == live_limit,
    {
        let data: Vec<T> = Vec::new();
        let w = Window { size_limit, live_limit, current_index: 0, data };
        assert(w@ =~= Seq::<T>::empty());
        w
    }

    /// Adds a new item as the newest one, dropping the oldest item when
    /// the window is full.
    pub fn push(&mut self, item: T)
        requires
            old(self).well_formed(),
        ensures
            final(self).well_formed(),
            final(self)@ == pushed(old(self)@, item, old(self).spec_size_limit()),
            final(self).spec_size_limit() == old(self).spec_size_limit(),
            final(self).spec_live_limit() == old(self).spec_live_limit(),
    {
        let ghost before = self@;
        let ghost old_data = self.data@;
        if self.data.len() < self.size_limit {
            self.data.push(item);
            self.current_index = self.current_index + 1;
            if self.current_index >= self.size_limit {
                self.current_index = 0;
            }
            assert(self@ =~= before.push(item)) by {
                assert forall|j: int| 0 <= j < self@.len() implies self@[j] == before.push(item)[j] by {
                    if j < old_data.len() {
                        assert(before[j] == old_data[j]);
                    }
                }
            }
        } else {
            let c = self.current_index;
            self.data.set(c, item);
            self.current_index = self.current_index + 1;
            if self.current_index >= self.size_limit {
                self.current_index = 0;
            }
            assert(self@ =~= before.skip(1).push(item)) by {
                let n = old_data.len() as int;
                assert forall|j: int| 0 <= j < self@.len() implies self@[j] == before.skip(1).push(item)[j] by {
                    if j < n - 1 {
                        assert(before.skip(1)[j] == before[j + 1]);
                        assert(before[j + 1] == old_data[wrap(c + j + 1, n)]);
                    }
                }
            }
        }
    }

    /// Returns the maximum number of items the window holds.
    pub fn size_limit(&self) -> (r: usize)
        ensures
            r == self.spec_size_limit(),
    {
        self.size_limit
    }

    /// Returns the number of newest items that count as live.
    pub fn live_limit(&self) -> (r: usize)
        ensures
            r == self.spec_live_limit(),
    {
        self.live_limit
    }

    /// Returns whether the window holds no items.
    pub fn is_empty(&self) -> (r: bool)
        requires
            self.well_formed(),
        ensures
            r == (self@.len() == 0),
    {
        self.data.len() == 0
    }

    // Returns the physical position of the newest item, if there is one.
    fn index_newest(&self) -> (r: Option<usize>)
        requires
            self.well_formed(),
        ensures
            r is Some <==> self@.len() > 0,
            r matches Some(i) ==> i < self.data@.len() && self.data@[i as int] == self@.last()
                && i == wrap(self.current_index + self.data@.len() - 1, self.data@.len() as int),
    {
        if self.data.len() == 0 {
            return None;
        }
        let result = if self.data.len() < self.size_limit {
            self.data.len() - 1
        } else if self.current_index > 0 {
            self.current_index - 1
        } else {
            self.data.len() - 1
        };
        Some(result)
    }

    /// Returns the newest item, if there is one.
    pub fn newest(&self) -> (r: Option<&T>)
        requires
            self.well_formed(),
        ensures
            r is Some <==> self@.len() > 0,
            r matches Some(x) ==> *x == self@.last(),
    {
        match self.index_newest() {
            Some(i) => Some(&self.data[i]),
            None => None,
        }
    }

    /// Returns the newest item for modification, if there is one.
    pub fn newest_mut(&mut self) -> (r: Option<&mut T>)
        requires
            old(self).well_formed(),
        ensures
            r is Some <==> old(self)@.len() > 0,
            r is None ==> *final(self) == *old(self),
            r matches Some(x) ==> {
                &&& *x == old(self)@.last()
                &&& final(self).well_formed()
                &&& final(self)@ == old(self)@.update(old(self)@.len() - 1, *final(x))
                &&& final(self).spec_size_limit() == old(self).spec_size_limit()
                &&& final(self).spec_live_limit() == old(self).spec_live_limit()
            },
    {
        match self.index_newest() {
            Some(i) => {
                let ghost before = self@;
                let ghost n = self.data@.len() as int;
                proof {
                    assert(before.len() > 0);
                    assert(wrap(self.current_index + n - 1, n) == i);
                }
                Some(&mut self.data[i])
            },
            None => None,
        }
    }

    /// Returns the number of items in the window.
    pub fn all_len(&self) -> (r: usize)
        requires
            self.well_formed(),
        ensures
            r == self@.len(),
    {
        self.data.len()
    }

    /// Returns the number of live items.
    pub fn live_len(&self) -> (r: usize)
        requires
            self.well_formed(),
        ensures
            r == self.live_view().len(),
            r == if self@.len() <= self.spec_live_limit() { self@.len() } else { self.spec_live_limit() },
    {
        let mut result = self.data.len();
        if result > self.live_limit {
            result = self.live_limit;
        }
        result
    }

    // Maps a logical position (oldest item at zero) to its place in the
    // backing vector.
    fn physical(&self, logical: usize) -> (r: usize)
        requires
            self.well_formed(),
            logical < self.data@.len(),
        ensures
            r == wrap(self.current_index + logical, self.data@.len() as int),
            r < self.data@.len(),
    {
        let len = self.data.len();
        if self.current_index < len - logical {
            self.current_index + logical
        } else {
            self.current_index - (len - logical)
        }
    }

    /// Returns the item at the given age position, with the oldest item
    /// at index zero.  The index must be below the size limit.
    pub fn index_all(&self, index: usize) -> (r: Option<&T>)
        requires
            self.well_formed(),
            index < self.spec_size_limit(),
        ensures
            r is Some <==> index < self@.len(),
            r matches Some(x) ==> *x == self@[index as int],
    {
        if index >= self.data.len() {
            return None;
        }
        let i = self.physical(index);
        Some(&self.data[i])
    }

    /// Returns the live item at the given position, with the oldest live
    /// item at index zero.
    pub fn index_live(&self, index: usize) -> (r: Option<&T>)
        requires
            self.well_formed(),
        ensures
            r is Some <==> index < self.live_view().len(),
            r matches Some(x) ==> *x == self.live_view()[index as int],
    {
        if index >= self.live_limit {
            return None;
        }
        if index >= self.data.len() {
            return None;
        }
        let live = self.live_len();
        let logical = self.data.len() - live + index;
        let i = self.physical(logical);
        proof {
            let v = self@;
            if v.len() > self.live_limit {
                assert(self.live_view()[index as int] == v[logical as int]);
            }
        }
        Some(&self.data[i])
    }

    /// Returns the backing vector, the position of the oldest item in it,
    /// and the position of the oldest live item.
    pub fn data(&self) -> (r: (&Vec<T>, usize, usize))
        requires
            self.well_formed(),
        ensures
            r.0@ == self.spec_data(),
            forall|j: int| 0 <= j < self@.len() ==> r.0@[wrap(r.1 + j, self@.len() as int)] == #[trigger] self@[j],
            self@.len() > 0 ==> r.1 < self@.len() && r.0@[r.1 as int] == self@[0],
            self.live_view().len() > 0 ==> r.2 < self@.len()
                && r.0@[r.2 as int] == self.live_view()[0],
            self@.len() == 0 ==> r.1 == 0 && r.2 == 0,
    {
        if self.data.len() == 0 {
            return (&self.data, 0, 0);
        }
        let oldest = self.physical(0);
        let live = self.live_len();
        let oldest_live = if live == 0 {
            oldest
        } else {
            self.physical(self.data.len() - live)
        };
        proof {
            if live > 0 {
                let v = self@;
                assert(self.live_view()[0] == v[v.len() - live]);
            }
        }
        (&self.data, oldest, oldest_live)
    }

    /// Removes every item, returning the window to its initial state.
    pub fn clear(&mut self)
        requires
            old(self).well_formed(),
        ensures
            final(self).well_formed(),
            final(self)@ == Seq::<T>::empty(),
            final(self).spec_size_limit() == old(self).spec_size_limit(),
            final(self).spec_live_limit() == old(self).spec_live_limit(),
    {
        self.current_index = 0;
        self.data.clear();
        assert(self@ =~= Seq::<T>::empty());
    }

    /// Returns an iterator over every item, oldest first.
    pub fn iter_all(&self) -> (it: WindowIterator<'_, T>)
        requires
            self.well_formed(),
        ensures
            it.well_formed(),
            it.remaining_items() == self@,
    {
        WindowIterator::new(self, ScanType::All)
    }

    /// Returns an iterator over the live items, oldest first.  A window
    /// whose live limit is zero has no live items to return.
    pub fn iter_live(&self) -> (it: WindowIterator<'_, T>)
        requires
            self.well_formed(),
        ensures
            it.well_formed(),
            it.remaining_items() == self.live_view(),
    {
        WindowIterator::new(self, ScanType::Live)
    }
}

impl Window<i64> {
    /// Returns the least item, or `None` when the window is empty.
    pub fn least(&self) -> (r: Option<i64>)
        requires
            self.well_formed(),
        ensures
            r is None <==> self@.len() == 0,
            r matches Some(m) ==> self@.contains(m) && forall|i: int| 0 <= i < self@.len() ==> m <= self@[i],
    {
        let n = self.all_len();
        if n == 0 {
            return None;
        }
        let mut best = *self.index_all(0).unwrap();
        let mut i: usize = 1;
        while i < n
            invariant
                self.well_formed(),
                n == self@.len(),
                n <= self.spec_size_limit(),
                1 <= i <= n,
                self@.contains(best),
                forall|j: int| 0 <= j < i ==> best <= self@[j],
            decreases n - i,
        {
            let item = *self.index_all(i).unwrap();
            if item < best {
                best = item;
            }
            i = i + 1;
        }
        Some(best)
    }

    /// Returns the greatest item, or `None` when the window is empty.
    pub fn greatest(&self) -> (r: Option<i64>)
        requires
            self.well_formed(),
        ensures
            r is None <==> self@.len() == 0,
            r matches Some(m) ==> self@.contains(m) && forall|i: int| 0 <= i < self@.len() ==> self@[i] <= m,
    {
        let n = self.all_len();
        if n == 0 {
            return None;
        }
        let mut best = *self.index_all(0).unwrap();
        let mut i: usize = 1;
        while i < n
            invariant
                self.well_formed(),
                n == self@.len(),
                n <= self.spec_size_limit(),
                1 <= i <= n,
                self@.contains(best),
                forall|j: int| 0 <= j < i ==> self@[j] <= best,
            decreases n - i,
        {
            let item = *self.index_all(i).unwrap();
            if item > best {
                best = item;
            }
            i = i + 1;
        }
        Some(best)
    }
}

/// A scan through the items of a window, oldest first.
pub struct WindowIterator<'a, T> {
    window: &'a Window<T>,
    index: usize,
    remaining: usize,
}

impl<'a, T> WindowIterator<'a, T> {
    /// The internal consistency of a scan.
    pub closed spec fn well_formed(&self) -> bool {
        &&& self.window.well_formed()
        &&& self.remaining <= self.window.data@.len()
        &&& self.remaining > 0 ==> self.index < self.window.data@.len()
    }

    /// The items that the scan has yet to return, in order.
    pub closed spec fn remaining_items(&self) -> Seq<T> {
        Seq::new(
            self.remaining as nat,
            |k: int| self.window.data@[wrap(self.index + k, self.window.data@.len() as int)],
        )
    }

    /// Starts a scan of the given kind over the window.
    pub fn new(window: &'a Window<T>, scan_type: ScanType) -> (it: WindowIterator<'a, T>)
        requires
            window.well_formed(),
        ensures
            it.well_formed(),
            scan_type is All ==> it.remaining_items() == window@,
            scan_type is Live ==> it.remaining_items() == window.live_view(),
    {
        let len = window.data.len();
        if len == 0 {
            let it = WindowIterator { window, index: 0, remaining: 0 };
            assert(it.remaining_items() =~= window@);
            assert(it.remaining_items() =~= window.live_view());
            return it;
        }
        let scan_limit = match scan_type {
            ScanType::All => window.size_limit,
            ScanType::Live => window.live_limit,
        };
        let window_not_full = len < window.size_limit;
        let partial_scan = scan_limit >= len;
        let remaining = if partial_scan {
            len
        } else {
            scan_limit
        };
        let index = match scan_type {
            ScanType::All => {
                if window_not_full {
                    0
                } else {
                    window.current_index
                }
            },
            ScanType::Live => {
                if partial_scan {
                    if window_not_full {
                        0
                    } else {
                        window.current_index
                    }
                } else if window_not_full {
                    len - scan_limit
                } else if scan_limit == 0 {
                    window.current_index
                } else {
                    window.physical(len - scan_limit)
                }
            },
        };
        let it = WindowIterator { window, index, remaining };
        proof {
            let v = window@;
            match scan_type {
                ScanType::All => {
                    assert(it.remaining_items() =~= v);
                },
                ScanType::Live => {
                    let lv = window.live_view();
                    assert forall|k: int| 0 <= k < remaining implies it.remaining_items()[k]
                        == lv[k] by {
                        if !partial_scan {
                            let lg = len - scan_limit + k;
                            assert(lv[k] == v[lg]);
                            assert(v[lg] == window.data@[wrap(window.current_index + lg, len as int)]);
                            assert(it.remaining_items()[k] == window.data@[wrap(index + k, len as int)]);
                        } else {
                            assert(lv[k] == v[k]);
                            assert(v[k] == window.data@[wrap(window.current_index + k, len as int)]);
                        }
                    }
                    assert(it.remaining_items() =~= lv);
                },
            }
        }
        it
    }

    // Returns the position of the next item and moves past it.
    fn find_next_index(&mut self) -> (r: usize)
        requires
            old(self).well_formed(),
            old(self).remaining > 0,
        ensures
            r < old(self).window.data@.len(),
            r == old(self).index,
            final(self).window == old(self).window,
            final(self).remaining == old(self).remaining,
            final(self).index == wrap(old(self).index + 1, old(self).window.data@.len() as int),
    {
        let result = self.index;
        self.index = self.index + 1;
        if self.index >= self.window.data.len() {
            self.index = 0;
        }
        result
    }

    /// Returns the next item of the scan, or `None` once every item has
    /// been returned.
    pub fn next(&mut self) -> (r: Option<&'a T>)
        requires
            old(self).well_formed(),
        ensures
            final(self).well_formed(),
            old(self).remaining_items().len() == 0 ==> r is None
                && final(self).remaining_items() == old(self).remaining_items(),
            old(self).remaining_items().len() > 0 ==> r == Some(&old(self).remaining_items()[0])
                && final(self).remaining_items() == old(self).remaining_items().skip(1),
    {
        if self.remaining == 0 {
            return None;
        }
        let ghost before = self.remaining_items();
        let index = self.find_next_index();
        let result = Some(&self.window.data[index]);
        self.remaining = self.remaining - 1;
        proof {
            let n = self.window.data@.len() as int;
            assert forall|k: int| 0 <= k < self.remaining implies self.remaining_items()[k]
                == before.skip(1)[k] by {
                assert(before.skip(1)[k] == before[k + 1]);
            }
            assert(self.remaining_items() =~= before.skip(1));
        }
        result
    }
}

/// A window holds exactly the newest `size` items pushed into it: pushing
/// the items of `s`, in order, into an empty window of capacity `size`
/// leaves the last `size` of them (all of them when there are fewer).
pub proof fn lemma_window_keeps_newest<T>(s: Seq<T>, size: nat)
    requires
        size > 0,
    ensures
        pushed_all(Seq::<T>::empty(), s, size) == newest_n(s, size),
    decreases s.len(),
{
    if s.len() > 0 {
        let prefix = s.drop_last();
        lemma_window_keeps_newest(prefix, size);
        let before = newest_n(prefix, size);
        if prefix.len() < size {
            assert(before.push(s.last()) =~= newest_n(s, size));
        } else {
            assert(before.skip(1).push(s.last()) =~= newest_n(s, size));
        }
    }
}

/// The live items of a window are the newest `live` items pushed into
/// it: taking the newest `live` of the newest `size` items is taking the
/// newest `live` items, since `live` does not exceed `size`.
pub proof fn lemma_live_items_are_newest<T>(s: Seq<T>, size: nat, live: nat)
    requires
        live <= size,
    ensures
        newest_n(newest_n(s, size), live) == newest_n(s, live),
{
    if s.len() > size {
        assert(newest_n(newest_n(s, size), live) =~= newest_n(s, live));
    }
}

/// Right after a push, the newest item is the one pushed and the window
/// holds one more item, up to its capacity.
pub proof fn lemma_push_then_newest<T>(items: Seq<T>, item: T, size: nat)
    requires
        items.len() <= size,
        size > 0,
    ensures
        pushed(items, item, size).last() == item,
        pushed(items, item, size).len() == if items.len() < size { items.len() + 1 } else { size },
{
}

} // verus!
