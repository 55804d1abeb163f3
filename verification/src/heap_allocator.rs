//! The core bookkeeping: one `Heap` owns a fixed-capacity address range and a
//! sorted, non-overlapping list of allocation records; a `HeapAllocator` owns
//! an ordered sequence of heaps and routes every request to the first one,
//! lazily creating a default-sized heap on first use.

use vstd::prelude::*;

verus! {

/// One live allocation inside a heap: where it starts (`ptr`), the size the
/// caller asked for (`real_size`), and the size actually reserved after
/// alignment (`alloc_size`).
#[derive(Debug, Clone, Copy)]
pub struct HeapAllocation {
    pub ptr: usize,
    pub real_size: usize,
    pub alloc_size: usize,
}

/// The address one past the last byte reserved for `a`.
pub open spec fn alloc_end(a: HeapAllocation) -> int {
    a.ptr + a.alloc_size
}

/// The historical alignment rule, preserved for compatibility: the reserved
/// size is the requested size plus its remainder modulo 4. (Note this is not
/// "round up to the next multiple of 4": 5 becomes 6.)
pub open spec fn spec_align(size: int) -> int {
    size + size % 4
}

impl HeapAllocation {
    /// The start address of the allocation.
    pub fn start(&self) -> (r: usize)
        ensures
            r == self.ptr,
    {
        self.ptr
    }

    /// The address one past the reserved range.
    pub fn end(&self) -> (r: usize)
        requires
            self.ptr + self.alloc_size <= usize::MAX,
        ensures
            r == alloc_end(*self),
    {
        self.ptr + self.alloc_size
    }

    /// The number of free bytes between the end of `self` and the start of
    /// `other`, for records that do not overlap and are in ascending order.
    pub fn distance_to(&self, other: &HeapAllocation) -> (r: usize)
        requires
            self.ptr + self.alloc_size <= other.ptr,
        ensures
            r == other.ptr - alloc_end(*self),
    {
        other.ptr - (self.ptr + self.alloc_size)
    }
}

/// Records are in ascending address order and no two reserved ranges overlap:
/// each record ends no later than the next one starts.
pub open spec fn sorted_disjoint(s: Seq<HeapAllocation>) -> bool {
    forall|i: int| 0 <= i < s.len() - 1 ==> #[trigger] alloc_end(s[i]) <= s[i + 1].ptr
}

/// Every record's reserved range lies within `[base, base + capacity)`.
pub open spec fn in_range(s: Seq<HeapAllocation>, base: int, capacity: int) -> bool {
    forall|i: int| 0 <= i < s.len() ==> base <= #[trigger] s[i].ptr && alloc_end(s[i]) <= base + capacity
}

/// Every record's reserved size is the aligned form of its requested size.
pub open spec fn aligned_records(s: Seq<HeapAllocation>) -> bool {
    forall|i: int| 0 <= i < s.len() ==> #[trigger] s[i].alloc_size == spec_align(s[i].real_size as int)
}

/// The records pack tightly against `base`: the first one starts at `base`
/// and each further one starts exactly where its predecessor ends.
pub open spec fn contiguous_from(s: Seq<HeapAllocation>, base: int) -> bool {
    &&& s.len() > 0 ==> s[0].ptr == base
    &&& forall|i: int| 0 <= i < s.len() - 1 ==> s[i + 1].ptr == #[trigger] alloc_end(s[i])
}

/// The total number of bytes reserved by the records of `s`.
pub open spec fn sum_alloc(s: Seq<HeapAllocation>) -> int
    decreases s.len(),
{
    if s.len() == 0 {
        0
    } else {
        sum_alloc(s.drop_last()) + s.last().alloc_size
    }
}

/// Ascending records each end no later than any later record starts; in
/// particular no two reserved ranges overlap, in any order of the pair.
pub proof fn lemma_sorted_disjoint_pairwise(s: Seq<HeapAllocation>)
    requires
        sorted_disjoint(s),
    ensures
        forall|i: int, j: int| 0 <= i < j < s.len() ==> #[trigger] alloc_end(s[i]) <= #[trigger] s[j].ptr,
{
    assert forall|i: int, j: int| 0 <= i < j < s.len() implies #[trigger] alloc_end(s[i]) <= #[trigger] s[j].ptr by {
        lemma_end_le_later_start(s, i, j);
    }
}

proof fn lemma_end_le_later_start(s: Seq<HeapAllocation>, i: int, j: int)
    requires
        sorted_disjoint(s),
        0 <= i < j < s.len(),
    ensures
        alloc_end(s[i]) <= s[j].ptr,
    decreases j - i,
{
    if j > i + 1 {
        lemma_end_le_later_start(s, i, j - 1);
        assert(alloc_end(s[j - 1]) <= s[j].ptr);
    }
}

/// Sorted, disjoint records that all lie within `[lo, hi)` reserve at most
/// `hi - lo` bytes in total.
proof fn lemma_sum_bounded(s: Seq<HeapAllocation>, lo: int, hi: int)
    requires
        sorted_disjoint(s),
        forall|i: int| 0 <= i < s.len() ==> lo <= #[trigger] s[i].ptr && alloc_end(s[i]) <= hi,
        lo <= hi,
    ensures
        0 <= sum_alloc(s) <= hi - lo,
    decreases s.len(),
{
    if s.len() > 0 {
        let t = s.drop_last();
        let last = s.last();
        lemma_sorted_disjoint_pairwise(s);
        assert forall|i: int| 0 <= i < t.len() implies lo <= #[trigger] t[i].ptr && alloc_end(t[i]) <= last.ptr by {
            assert(t[i] == s[i]);
            assert(alloc_end(s[i]) <= s[s.len() - 1].ptr);
        }
        lemma_sum_bounded(t, lo, last.ptr as int);
    }
}

/// The first-fit scan over internal gaps, starting at pair index `i`: the
/// least index `k >= i` such that the gap between records `k - 1` and `k`
/// holds `n` bytes, or `s.len()` when no such gap exists.
pub open spec fn fit_from(s: Seq<HeapAllocation>, n: int, i: int) -> int
    decreases s.len() - i,
{
    if i < 1 || i >= s.len() {
        s.len() as int
    } else if alloc_end(s[i - 1]) + n <= s[i].ptr {
        i
    } else {
        fit_from(s, n, i + 1)
    }
}

/// The insertion index chosen for a reserved size of `n` bytes: the index of
/// the first internal gap that holds `n` bytes, or `s.len()` when the new
/// record goes after all existing ones.
pub open spec fn fit_index(s: Seq<HeapAllocation>, n: int) -> int {
    fit_from(s, n, 1)
}

/// The start address chosen for a reserved size of `n` bytes: the end of the
/// record before the first fitting internal gap, or past the last record when
/// no internal gap fits, or `base` when there are no records at all.
pub open spec fn fit_addr(s: Seq<HeapAllocation>, base: int, n: int) -> int {
    if fit_index(s, n) < s.len() {
        alloc_end(s[fit_index(s, n) - 1])
    } else if s.len() == 0 {
        base
    } else {
        alloc_end(s.last())
    }
}

/// Whether an allocation of requested size `size` succeeds against records
/// `s` in a heap at `base` with the given `capacity`: the chosen placement
/// must end within the heap.
pub open spec fn alloc_fits(s: Seq<HeapAllocation>, base: int, capacity: int, size: int) -> bool {
    fit_addr(s, base, spec_align(size)) + spec_align(size) <= base + capacity
}

/// The record list after a successful allocation of requested size `size`:
/// the new record sits at the chosen address, at the chosen index.
pub open spec fn alloc_insert(s: Seq<HeapAllocation>, base: int, size: int) -> Seq<HeapAllocation> {
    s.insert(
        fit_index(s, spec_align(size)),
        HeapAllocation {
            ptr: fit_addr(s, base, spec_align(size)) as usize,
            real_size: size as usize,
            alloc_size: spec_align(size) as usize,
        },
    )
}

/// The least index `k >= i` whose record starts at `addr`, or `s.len()` when
/// no record at or after `i` does.
pub open spec fn find_from(s: Seq<HeapAllocation>, addr: int, i: int) -> int
    decreases s.len() - i,
{
    if i < 0 || i >= s.len() {
        s.len() as int
    } else if s[i].ptr == addr {
        i
    } else {
        find_from(s, addr, i + 1)
    }
}

/// The index of the first record that starts at `addr`, or `s.len()` when
/// none does.
pub open spec fn find_index(s: Seq<HeapAllocation>, addr: int) -> int {
    find_from(s, addr, 0)
}

/// The record list after freeing `addr`: the first record starting at `addr`
/// is removed; when none starts there the list is unchanged.
pub open spec fn free_result(s: Seq<HeapAllocation>, addr: int) -> Seq<HeapAllocation> {
    if find_index(s, addr) < s.len() {
        s.remove(find_index(s, addr))
    } else {
        s
    }
}

/// Taking one more record adds its reserved size to the running total.
proof fn lemma_sum_take_succ(s: Seq<HeapAllocation>, i: int)
    requires
        0 <= i < s.len(),
    ensures
        sum_alloc(s.take(i + 1)) == sum_alloc(s.take(i)) + s[i].alloc_size,
{
    assert(s.take(i + 1).drop_last() =~= s.take(i));
    assert(s.take(i + 1).last() == s[i]);
}

/// One fixed-capacity memory region: a base address, a capacity in bytes, and
/// the sorted, non-overlapping records of the allocations placed inside it.
#[derive(Debug)]
pub struct Heap {
    pub ptr: usize,
    pub size: usize,
    pub allocations: Vec<HeapAllocation>,
}

impl Heap {
    /// The region invariant: the address range does not wrap, and the records
    /// are sorted, pairwise disjoint, within the region, and aligned.
    pub open spec fn wf(self) -> bool {
        &&& self.ptr + self.size <= usize::MAX
        &&& sorted_disjoint(self.allocations@)
        &&& in_range(self.allocations@, self.ptr as int, self.size as int)
        &&& aligned_records(self.allocations@)
    }

    /// The total number of bytes currently reserved.
    pub open spec fn spec_used_space(self) -> int {
        sum_alloc(self.allocations@)
    }

    /// The number of bytes not currently reserved.
    pub open spec fn spec_free_space(self) -> int {
        self.size - sum_alloc(self.allocations@)
    }

    /// The records pack tightly against the base address, with no gaps. This
    /// holds in a fresh heap and is preserved by every allocation; only a
    /// free can break it.
    pub open spec fn contiguous(self) -> bool {
        contiguous_from(self.allocations@, self.ptr as int)
    }

    /// A fresh heap over `[base_address, base_address + size)` with no
    /// allocations.
    pub fn new(base_address: usize, size: usize) -> (r: Heap)
        requires
            base_address + size <= usize::MAX,
        ensures
            r.wf(),
            r.contiguous(),
            r.ptr == base_address,
            r.size == size,
            r.allocations@ == Seq::<HeapAllocation>::empty(),
    {
        let r = Heap { ptr: base_address, size, allocations: Vec::new() };
        proof {
            assert(r.allocations@ =~= Seq::<HeapAllocation>::empty());
        }
        r
    }

    /// The address one past the last byte of the region.
    fn end(&self) -> (r: usize)
        requires
            self.ptr + self.size <= usize::MAX,
        ensures
            r == self.ptr + self.size,
    {
        self.ptr + self.size
    }

    /// The historical alignment rule: the reserved size is the requested size
    /// plus its remainder modulo 4, preserved as-is for compatibility (it is
    /// not a round-up to a multiple of 4).
    pub fn align(size: usize) -> (r: usize)
        requires
            size <= usize::MAX - 3,
        ensures
            r == spec_align(size as int),
    {
        size + size % 4
    }

    /// The total number of bytes currently reserved; never more than the
    /// capacity.
    pub fn used_space(&self) -> (r: usize)
        requires
            self.wf(),
        ensures
            r == self.spec_used_space(),
            r <= self.size,
    {
        let ghost s = self.allocations@;
        let mut space: usize = 0;
        let mut i: usize = 0;
        while i < self.allocations.len()
            invariant
                self.wf(),
                s == self.allocations@,
                i <= s.len(),
                space == sum_alloc(s.take(i as int)),
                space <= self.size,
            decreases s.len() - i,
        {
            proof {
                lemma_sum_take_succ(s, i as int);
                let t = s.take(i as int + 1);
                assert forall|k: int| 0 <= k < t.len() - 1 implies #[trigger] alloc_end(t[k]) <= t[k + 1].ptr by {
                    assert(t[k] == s[k] && t[k + 1] == s[k + 1]);
                }
                assert forall|k: int| 0 <= k < t.len() implies self.ptr <= #[trigger] t[k].ptr
                    && alloc_end(t[k]) <= self.ptr + self.size by {
                    assert(t[k] == s[k]);
                }
                lemma_sum_bounded(t, self.ptr as int, self.ptr + self.size);
            }
            space = space + self.allocations[i].alloc_size;
            i = i + 1;
        }
        proof {
            assert(s.take(s.len() as int) =~= s);
        }
        space
    }

    /// The number of bytes not currently reserved.
    pub fn free_space(&self) -> (r: usize)
        requires
            self.wf(),
        ensures
            r == self.spec_free_space(),
    {
        self.size - self.used_space()
    }
}

/// What the first-fit scan returns: an index within bounds; when it names an
/// internal gap, that gap holds `n` bytes and no earlier gap does.
proof fn lemma_fit_from_props(s: Seq<HeapAllocation>, n: int, i: int)
    requires
        1 <= i,
    ensures
        ({
            let k = fit_from(s, n, i);
            &&& k <= s.len()
            &&& k < s.len() ==> i <= k && alloc_end(s[k - 1]) + n <= s[k].ptr
            &&& forall|j: int| i <= j < k ==> #[trigger] alloc_end(s[j - 1]) + n > s[j].ptr
        }),
    decreases s.len() - i,
{
    if 1 <= i < s.len() && !(alloc_end(s[i - 1]) + n <= s[i].ptr) {
        lemma_fit_from_props(s, n, i + 1);
    }
}

/// When no gap at or after pair index `i` holds `n` bytes, the scan runs off
/// the end.
proof fn lemma_fit_from_none(s: Seq<HeapAllocation>, n: int, i: int)
    requires
        1 <= i,
        forall|j: int| i <= j < s.len() ==> alloc_end(s[j - 1]) + n > #[trigger] s[j].ptr,
    ensures
        fit_from(s, n, i) == s.len(),
    decreases s.len() - i,
{
    if i < s.len() {
        lemma_fit_from_none(s, n, i + 1);
    }
}

impl Heap {
    /// The first-fit search: the address and insertion index for a new record
    /// of reserved size `size`, per `fit_addr` and `fit_index`. The placement
    /// may still exceed the capacity; `allocate` checks that.
    fn next_for_size(&self, size: usize) -> (r: (usize, usize))
        requires
            self.wf(),
        ensures
            r.1 == fit_index(self.allocations@, size as int),
            r.0 == fit_addr(self.allocations@, self.ptr as int, size as int),
    {
        let ghost s = self.allocations@;
        let ghost n = size as int;
        let len = self.allocations.len();
        if len == 0 {
            return (self.ptr, 0);
        }
        let mut i: usize = 1;
        while i < len
            invariant
                self.wf(),
                s == self.allocations@,
                n == size as int,
                len == s.len(),
                1 <= i <= len,
                fit_from(s, n, 1) == fit_from(s, n, i as int),
            decreases len - i,
        {
            proof {
                assert(alloc_end(s[i - 1]) <= s[i as int].ptr);
                assert(self.ptr <= s[i - 1].ptr && alloc_end(s[i - 1]) <= self.ptr + self.size);
            }
            let prev_end = self.allocations[i - 1].ptr + self.allocations[i - 1].alloc_size;
            let cur_ptr = self.allocations[i].ptr;
            if size <= cur_ptr - prev_end {
                proof {
                    assert(alloc_end(s[i as int - 1]) + n <= s[i as int].ptr);
                    assert(fit_from(s, n, i as int) == i);
                }
                return (prev_end, i);
            }
            proof {
                assert(fit_from(s, n, i as int) == fit_from(s, n, i as int + 1));
            }
            i = i + 1;
        }
        proof {
            assert(fit_from(s, n, len as int) == len);
            assert(self.ptr <= s[len - 1].ptr && alloc_end(s[len - 1]) <= self.ptr + self.size);
        }
        let last_end = self.allocations[len - 1].ptr + self.allocations[len - 1].alloc_size;
        (last_end, len)
    }
}

/// Inserting a record that fits between its neighbours and lies within the
/// region keeps the record list sorted, disjoint, in range and aligned.
proof fn lemma_insert_preserves(
    s: Seq<HeapAllocation>,
    i: int,
    x: HeapAllocation,
    base: int,
    capacity: int,
)
    requires
        sorted_disjoint(s),
        in_range(s, base, capacity),
        aligned_records(s),
        0 <= i <= s.len(),
        i > 0 ==> alloc_end(s[i - 1]) <= x.ptr,
        i < s.len() ==> alloc_end(x) <= s[i].ptr,
        base <= x.ptr,
        alloc_end(x) <= base + capacity,
        x.alloc_size == spec_align(x.real_size as int),
    ensures
        sorted_disjoint(s.insert(i, x)),
        in_range(s.insert(i, x), base, capacity),
        aligned_records(s.insert(i, x)),
{
    let t = s.insert(i, x);
    assert forall|k: int| 0 <= k < t.len() - 1 implies #[trigger] alloc_end(t[k]) <= t[k + 1].ptr by {
        if k < i - 1 {
            assert(t[k] == s[k] && t[k + 1] == s[k + 1]);
        } else if k == i - 1 {
            assert(t[k] == s[k] && t[k + 1] == x);
        } else if k == i {
            assert(t[k] == x && t[k + 1] == s[k]);
        } else {
            assert(t[k] == s[k - 1] && t[k + 1] == s[k]);
        }
    }
    assert forall|k: int| 0 <= k < t.len() implies base <= #[trigger] t[k].ptr && alloc_end(t[k])
        <= base + capacity by {
        if k < i {
            assert(t[k] == s[k]);
        } else if k == i {
            assert(t[k] == x);
        } else {
            assert(t[k] == s[k - 1]);
        }
    }
    assert forall|k: int| 0 <= k < t.len() implies #[trigger] t[k].alloc_size == spec_align(
        t[k].real_size as int,
    ) by {
        if k < i {
            assert(t[k] == s[k]);
        } else if k == i {
            assert(t[k] == x);
        } else {
            assert(t[k] == s[k - 1]);
        }
    }
}

/// An allocation never tears a hole: when the records pack tightly from the
/// base, the chosen placement keeps them packing tightly.
proof fn lemma_alloc_insert_contiguous(s: Seq<HeapAllocation>, base: int, capacity: int, size: int)
    requires
        contiguous_from(s, base),
        in_range(s, base, capacity),
        0 <= base,
        0 <= capacity,
        base + capacity <= usize::MAX,
        0 <= size,
        spec_align(size) <= usize::MAX,
    ensures
        contiguous_from(alloc_insert(s, base, size), base),
{
    let n = spec_align(size);
    let k = fit_index(s, n);
    let t = alloc_insert(s, base, size);
    let x = HeapAllocation {
        ptr: fit_addr(s, base, n) as usize,
        real_size: size as usize,
        alloc_size: n as usize,
    };
    lemma_fit_from_props(s, n, 1);
    assert(0 <= fit_addr(s, base, n) <= usize::MAX) by {
        if k < s.len() {
            assert(base <= s[k - 1].ptr && alloc_end(s[k - 1]) <= base + capacity);
        } else if s.len() > 0 {
            assert(base <= s[s.len() - 1].ptr && alloc_end(s[s.len() - 1]) <= base + capacity);
        }
    }
    assert(x.ptr == fit_addr(s, base, n));
    assert(x.alloc_size == n);
    if k < s.len() {
        // An internal gap was chosen; in a packed heap every gap is empty, so
        // only a zero-size request can land here, between records k-1 and k.
        assert(s[k].ptr == alloc_end(s[k - 1]));
        assert(n == 0);
        assert(x.ptr == s[k].ptr);
    } else {
        // The record goes after all others (or at the base when empty).
    }
    assert forall|j: int| 0 <= j < t.len() - 1 implies t[j + 1].ptr == #[trigger] alloc_end(
        t[j],
    ) by {
        if j < k - 1 {
            assert(t[j] == s[j] && t[j + 1] == s[j + 1]);
            assert(s[j + 1].ptr == alloc_end(s[j]));
        } else if j == k - 1 {
            assert(t[j] == s[j] && t[j + 1] == x);
            if k < s.len() {
                assert(x.ptr == s[k].ptr);
                assert(s[k].ptr == alloc_end(s[k - 1]));
            } else {
                assert(x.ptr == alloc_end(s[s.len() - 1]));
            }
        } else if j == k {
            assert(t[j] == x && t[j + 1] == s[j]);
            assert(alloc_end(x) == x.ptr + n);
        } else {
            assert(t[j] == s[j - 1] && t[j + 1] == s[j]);
            assert(s[j].ptr == alloc_end(s[j - 1]));
        }
    }
    if t.len() > 0 {
        if k == 0 {
            assert(s.len() == 0);
            assert(t[0] == x);
        } else {
            assert(t[0] == s[0]);
        }
    }
}

impl Heap {
    /// Reserve `spec_align(size)` bytes at the first-fit placement and record
    /// the allocation, keeping the records sorted and disjoint. Returns the
    /// start address, or `None` exactly when the chosen placement would end
    /// past the region's capacity. An allocation never tears a hole: a heap
    /// whose records pack tightly from the base stays that way.
    pub fn allocate(&mut self, size: usize) -> (r: Option<usize>)
        requires
            old(self).wf(),
            size <= usize::MAX - 3,
        ensures
            final(self).wf(),
            final(self).ptr == old(self).ptr,
            final(self).size == old(self).size,
            alloc_fits(
                old(self).allocations@,
                old(self).ptr as int,
                old(self).size as int,
                size as int,
            ) ==> {
                &&& r == Some(
                    fit_addr(
                        old(self).allocations@,
                        old(self).ptr as int,
                        spec_align(size as int),
                    ) as usize,
                )
                &&& final(self).allocations@ == alloc_insert(
                    old(self).allocations@,
                    old(self).ptr as int,
                    size as int,
                )
            },
            !alloc_fits(
                old(self).allocations@,
                old(self).ptr as int,
                old(self).size as int,
                size as int,
            ) ==> r is None && final(self).allocations@ == old(self).allocations@,
            old(self).contiguous() ==> final(self).contiguous(),
    {
        let ghost s = self.allocations@;
        let ghost base = self.ptr as int;
        let ghost capacity = self.size as int;
        let alloc_size = Self::align(size);
        let ghost n = alloc_size as int;
        let (ptr, index) = self.next_for_size(alloc_size);
        proof {
            lemma_fit_from_props(s, n, 1);
            if index < self.allocations.len() {
                assert(base <= s[index - 1].ptr && alloc_end(s[index - 1]) <= base + capacity);
            } else if self.allocations.len() > 0 {
                assert(base <= s[s.len() - 1].ptr && alloc_end(s[s.len() - 1]) <= base + capacity);
            }
            assert(base <= ptr <= base + capacity);
        }
        let end = self.end();
        if alloc_size > end - ptr {
            proof {
                assert(!alloc_fits(s, base, capacity, size as int));
            }
            return None;
        }
        let record = HeapAllocation { ptr, real_size: size, alloc_size };
        self.allocations.insert(index, record);
        proof {
            assert(alloc_fits(s, base, capacity, size as int));
            if index < s.len() {
                assert(alloc_end(s[index - 1]) <= record.ptr);
                assert(alloc_end(record) <= s[index as int].ptr);
            } else if s.len() > 0 {
                assert(alloc_end(s[index - 1]) <= record.ptr);
            }
            lemma_insert_preserves(s, index as int, record, base, capacity);
            assert(self.allocations@ == alloc_insert(s, base, size as int));
            if contiguous_from(s, base) {
                lemma_alloc_insert_contiguous(s, base, capacity, size as int);
            }
        }
        Some(ptr)
    }
}

/// What the find scan returns: an index within bounds; when it names a
/// record, that record starts at `addr` and no earlier one at or after `i`
/// does.
proof fn lemma_find_from_props(s: Seq<HeapAllocation>, addr: int, i: int)
    requires
        0 <= i,
    ensures
        ({
            let k = find_from(s, addr, i);
            &&& k <= s.len()
            &&& k < s.len() ==> i <= k && s[k].ptr == addr
            &&& forall|j: int| i <= j < k ==> #[trigger] s[j].ptr != addr
        }),
    decreases s.len() - i,
{
    if 0 <= i < s.len() && s[i].ptr != addr {
        lemma_find_from_props(s, addr, i + 1);
    }
}

/// When no record at or after index `i` starts at `addr`, the find scan runs
/// off the end.
proof fn lemma_find_from_none(s: Seq<HeapAllocation>, addr: int, i: int)
    requires
        0 <= i,
        forall|j: int| i <= j < s.len() ==> #[trigger] s[j].ptr != addr,
    ensures
        find_from(s, addr, i) == s.len(),
    decreases s.len() - i,
{
    if i < s.len() {
        lemma_find_from_none(s, addr, i + 1);
    }
}

/// Removing one record keeps the rest sorted, disjoint, in range and aligned.
proof fn lemma_remove_preserves(s: Seq<HeapAllocation>, i: int, base: int, capacity: int)
    requires
        sorted_disjoint(s),
        in_range(s, base, capacity),
        aligned_records(s),
        0 <= i < s.len(),
    ensures
        sorted_disjoint(s.remove(i)),
        in_range(s.remove(i), base, capacity),
        aligned_records(s.remove(i)),
{
    let t = s.remove(i);
    lemma_sorted_disjoint_pairwise(s);
    assert forall|k: int| 0 <= k < t.len() - 1 implies #[trigger] alloc_end(t[k]) <= t[k + 1].ptr by {
        if k < i - 1 {
            assert(t[k] == s[k] && t[k + 1] == s[k + 1]);
        } else if k == i - 1 {
            assert(t[k] == s[k] && t[k + 1] == s[k + 2]);
            assert(alloc_end(s[k]) <= s[k + 2].ptr);
        } else {
            assert(t[k] == s[k + 1] && t[k + 1] == s[k + 2]);
        }
    }
    assert forall|k: int| 0 <= k < t.len() implies base <= #[trigger] t[k].ptr && alloc_end(t[k])
        <= base + capacity by {
        if k < i {
            assert(t[k] == s[k]);
        } else {
            assert(t[k] == s[k + 1]);
        }
    }
    assert forall|k: int| 0 <= k < t.len() implies #[trigger] t[k].alloc_size == spec_align(
        t[k].real_size as int,
    ) by {
        if k < i {
            assert(t[k] == s[k]);
        } else {
            assert(t[k] == s[k + 1]);
        }
    }
}

impl Heap {
    /// The index of the first record that starts at `ptr`, if any. The scan
    /// stops early once a record starts past `ptr`: the records being sorted,
    /// no match is possible beyond that point.
    fn find(&self, ptr: usize) -> (r: Option<usize>)
        requires
            self.wf(),
        ensures
            ({
                let k = find_index(self.allocations@, ptr as int);
                match r {
                    Some(idx) => idx == k && k < self.allocations@.len(),
                    None => k == self.allocations@.len(),
                }
            }),
    {
        let ghost s = self.allocations@;
        let ghost addr = ptr as int;
        let len = self.allocations.len();
        let mut i: usize = 0;
        while i < len
            invariant
                self.wf(),
                s == self.allocations@,
                addr == ptr as int,
                len == s.len(),
                i <= len,
                find_from(s, addr, 0) == find_from(s, addr, i as int),
            decreases len - i,
        {
            let a_ptr = self.allocations[i].ptr;
            if a_ptr == ptr {
                proof {
                    assert(find_from(s, addr, i as int) == i);
                }
                return Some(i);
            }
            if a_ptr > ptr {
                proof {
                    lemma_sorted_disjoint_pairwise(s);
                    assert forall|j: int| i <= j < s.len() implies #[trigger] s[j].ptr != addr by {
                        if j > i {
                            assert(alloc_end(s[i as int]) <= s[j].ptr);
                        }
                    }
                    lemma_find_from_none(s, addr, i as int);
                }
                return None;
            }
            proof {
                assert(find_from(s, addr, i as int) == find_from(s, addr, i as int + 1));
            }
            i = i + 1;
        }
        proof {
            assert(find_from(s, addr, len as int) == len);
        }
        None
    }

    /// Remove the first record that starts at `ptr`, making its space
    /// available again. Freeing an address at which no record starts is a
    /// silent no-op.
    pub fn free(&mut self, ptr: usize)
        requires
            old(self).wf(),
        ensures
            final(self).wf(),
            final(self).ptr == old(self).ptr,
            final(self).size == old(self).size,
            final(self).allocations@ == free_result(old(self).allocations@, ptr as int),
    {
        let ghost s = self.allocations@;
        if let Some(idx) = self.find(ptr) {
            self.allocations.remove(idx);
            proof {
                lemma_remove_preserves(s, idx as int, self.ptr as int, self.size as int);
            }
        }
    }
}

/// Space accounting: the used and the free space of a well-formed heap always
/// add up to its capacity, and neither is negative.
pub proof fn lemma_space_accounting(h: Heap)
    requires
        h.wf(),
    ensures
        h.spec_used_space() + h.spec_free_space() == h.size,
        0 <= h.spec_used_space(),
        0 <= h.spec_free_space(),
{
    lemma_sum_bounded(h.allocations@, h.ptr as int, h.ptr + h.size);
}

/// Inserting a record anywhere adds its reserved size to the total.
proof fn lemma_sum_insert(s: Seq<HeapAllocation>, i: int, x: HeapAllocation)
    requires
        0 <= i <= s.len(),
    ensures
        sum_alloc(s.insert(i, x)) == sum_alloc(s) + x.alloc_size,
    decreases s.len(),
{
    let t = s.insert(i, x);
    if i == s.len() {
        assert(t.drop_last() =~= s);
        assert(t.last() == x);
    } else {
        assert(t.drop_last() =~= s.drop_last().insert(i, x));
        assert(t.last() == s.last());
        lemma_sum_insert(s.drop_last(), i, x);
    }
}

/// Removing a record anywhere subtracts its reserved size from the total.
proof fn lemma_sum_remove(s: Seq<HeapAllocation>, i: int)
    requires
        0 <= i < s.len(),
    ensures
        sum_alloc(s.remove(i)) == sum_alloc(s) - s[i].alloc_size,
    decreases s.len(),
{
    let t = s.remove(i);
    if i == s.len() - 1 {
        assert(t =~= s.drop_last());
    } else {
        assert(t.drop_last() =~= s.drop_last().remove(i));
        assert(t.last() == s.last());
        lemma_sum_remove(s.drop_last(), i);
    }
}

/// A successful allocation reserves exactly the aligned size more: the used
/// space grows by `spec_align(size)` and, the capacity being fixed, the free
/// space shrinks by the same amount.
pub proof fn lemma_allocate_space(s: Seq<HeapAllocation>, base: int, size: int)
    requires
        0 <= size,
        spec_align(size) <= usize::MAX,
    ensures
        sum_alloc(alloc_insert(s, base, size)) == sum_alloc(s) + spec_align(size),
{
    let n = spec_align(size);
    lemma_fit_from_props(s, n, 1);
    let x = HeapAllocation {
        ptr: fit_addr(s, base, n) as usize,
        real_size: size as usize,
        alloc_size: n as usize,
    };
    lemma_sum_insert(s, fit_index(s, n), x);
}

/// A free releases exactly the removed record's reserved size; freeing an
/// address at which no record starts releases nothing.
pub proof fn lemma_free_space(s: Seq<HeapAllocation>, addr: int)
    ensures
        ({
            let k = find_index(s, addr);
            if k < s.len() {
                sum_alloc(free_result(s, addr)) == sum_alloc(s) - s[k].alloc_size
            } else {
                free_result(s, addr) == s
            }
        }),
{
    lemma_find_from_props(s, addr, 0);
    let k = find_index(s, addr);
    if k < s.len() {
        lemma_sum_remove(s, k);
    }
}

/// Contiguity from the base: while the records pack tightly (no free has torn
/// a hole), the i-th record starts exactly at the base address plus the sum
/// of the reserved sizes of the records before it.
pub proof fn lemma_contiguous_addresses(s: Seq<HeapAllocation>, base: int, i: int)
    requires
        contiguous_from(s, base),
        0 <= i < s.len(),
    ensures
        s[i].ptr == base + sum_alloc(s.take(i)),
    decreases i,
{
    if i == 0 {
        assert(s.take(0) =~= Seq::<HeapAllocation>::empty());
    } else {
        lemma_contiguous_addresses(s, base, i - 1);
        lemma_sum_take_succ(s, i - 1);
        assert(s[i].ptr == alloc_end(s[i - 1]));
    }
}

/// Exhaustion boundary: in a heap whose records pack tightly from the base,
/// an allocation with a positive requested size is placed right after the
/// used space, and so succeeds exactly when the aligned size still fits in
/// the free space.
pub proof fn lemma_exhaustion_boundary(s: Seq<HeapAllocation>, base: int, capacity: int, size: int)
    requires
        contiguous_from(s, base),
        1 <= size,
    ensures
        fit_addr(s, base, spec_align(size)) == base + sum_alloc(s),
        alloc_fits(s, base, capacity, size) <==> sum_alloc(s) + spec_align(size) <= capacity,
{
    let n = spec_align(size);
    assert(n >= 1);
    assert forall|j: int| 1 <= j < s.len() implies alloc_end(s[j - 1]) + n > #[trigger] s[j].ptr by {
        assert(s[j].ptr == alloc_end(s[j - 1]));
    }
    lemma_fit_from_none(s, n, 1);
    if s.len() == 0 {
        assert(sum_alloc(s) == 0);
    } else {
        lemma_contiguous_addresses(s, base, s.len() - 1);
        lemma_sum_take_succ(s, s.len() - 1);
        assert(s.take(s.len() as int) =~= s);
    }
}

/// The record list after `k` back-to-back allocations of one requested size
/// into a heap that started empty.
pub open spec fn repeated_alloc(base: int, size: int, k: nat) -> Seq<HeapAllocation>
    decreases k,
{
    if k == 0 {
        Seq::<HeapAllocation>::empty()
    } else {
        alloc_insert(repeated_alloc(base, size, (k - 1) as nat), base, size)
    }
}

/// Exhaustion boundary, counted: while `k` aligned chunks fit in the
/// capacity, `k` allocations of one size from an empty heap all succeed, pack
/// tightly from the base, and use exactly `k * spec_align(size)` bytes; one
/// more succeeds exactly when `k + 1` chunks still fit. So an empty heap
/// serves exactly `capacity / spec_align(size)` such allocations, and the
/// next call fails.
#[verifier::rlimit(50)]
pub proof fn lemma_exhaustion_count(base: int, capacity: int, size: int, k: nat)
    requires
        1 <= size,
        spec_align(size) <= usize::MAX,
        0 <= base,
        0 <= capacity,
        base + capacity <= usize::MAX,
        k * spec_align(size) <= capacity,
    ensures
        sum_alloc(repeated_alloc(base, size, k)) == k * spec_align(size),
        contiguous_from(repeated_alloc(base, size, k), base),
        in_range(repeated_alloc(base, size, k), base, capacity),
        aligned_records(repeated_alloc(base, size, k)),
        alloc_fits(repeated_alloc(base, size, k), base, capacity, size) <==> (k + 1) * spec_align(
            size,
        ) <= capacity,
    decreases k,
{
    let n = spec_align(size);
    if k == 0 {
        let s = repeated_alloc(base, size, 0);
        assert(sum_alloc(s) == 0);
        assert(k * n == 0 && (k + 1) * n == n) by (nonlinear_arith)
            requires
                k == 0,
        ;
        lemma_exhaustion_boundary(s, base, capacity, size);
    } else {
        let km1 = (k - 1) as nat;
        let s = repeated_alloc(base, size, km1);
        assert(km1 * n + n == k * n) by (nonlinear_arith)
            requires
                km1 == k - 1,
        ;
        lemma_exhaustion_count(base, capacity, size, km1);
        lemma_exhaustion_boundary(s, base, capacity, size);
        lemma_allocate_space(s, base, size);
        lemma_alloc_insert_contiguous(s, base, capacity, size);
        // The records being packed, the new one lands past the last record.
        assert forall|j: int| 1 <= j < s.len() implies alloc_end(s[j - 1]) + n
            > #[trigger] s[j].ptr by {
            assert(s[j].ptr == alloc_end(s[j - 1]));
        }
        lemma_fit_from_none(s, n, 1);
        assert(fit_index(s, n) == s.len());
        let x = HeapAllocation {
            ptr: fit_addr(s, base, n) as usize,
            real_size: size as usize,
            alloc_size: n as usize,
        };
        assert(fit_addr(s, base, n) == base + sum_alloc(s));
        assert(x.ptr == fit_addr(s, base, n));
        // The records stay sorted: packed records are trivially so.
        assert forall|j: int| 0 <= j < s.len() - 1 implies #[trigger] alloc_end(s[j])
            <= s[j + 1].ptr by {
            assert(s[j + 1].ptr == alloc_end(s[j]));
        }
        if s.len() > 0 {
            assert(alloc_end(s[s.len() - 1]) == fit_addr(s, base, n));
        }
        lemma_insert_preserves(s, s.len() as int, x, base, capacity);
        let t = repeated_alloc(base, size, k);
        assert(t == s.insert(s.len() as int, x));
        lemma_exhaustion_boundary(t, base, capacity, size);
        assert(k * n + n == (k + 1) * n) by (nonlinear_arith);
    }
}

/// First-fit: the chosen insertion index names the earliest internal gap that
/// holds `n` bytes; when it equals `s.len()`, no internal gap holds them and
/// the placement falls past the last record.
pub proof fn lemma_first_fit(s: Seq<HeapAllocation>, n: int)
    ensures
        ({
            let k = fit_index(s, n);
            &&& k <= s.len()
            &&& k < s.len() ==> 1 <= k && alloc_end(s[k - 1]) + n <= s[k].ptr
            &&& forall|j: int| 1 <= j < k ==> #[trigger] alloc_end(s[j - 1]) + n > s[j].ptr
        }),
{
    lemma_fit_from_props(s, n, 1);
}

/// Idempotent double-free: when at most one record starts at `addr`, freeing
/// `addr` twice in a row changes nothing the second time.
pub proof fn lemma_double_free_idempotent(s: Seq<HeapAllocation>, addr: int)
    requires
        forall|i: int, j: int|
            #![trigger s[i].ptr, s[j].ptr]
            0 <= i < j < s.len() ==> !(s[i].ptr == addr && s[j].ptr == addr),
    ensures
        free_result(free_result(s, addr), addr) == free_result(s, addr),
{
    lemma_find_from_props(s, addr, 0);
    let k = find_index(s, addr);
    if k < s.len() {
        let t = s.remove(k);
        assert forall|j: int| 0 <= j < t.len() implies #[trigger] t[j].ptr != addr by {
            if j < k {
                assert(t[j] == s[j]);
            } else {
                assert(t[j] == s[j + 1]);
                assert(!(s[k].ptr == addr && s[j + 1].ptr == addr));
            }
        }
        lemma_find_from_none(t, addr, 0);
    }
}

/// The capacity, in bytes, of the heap created automatically the first time
/// an allocator with no heaps is asked to allocate or free.
pub const DEFAULT_HEAP_SIZE: usize = 32768;

/// An ordered sequence of heaps behind a single allocation surface. Every
/// request is routed to the first heap; heaps added beyond it are kept but
/// never consulted — a preserved limitation of this design, not a dispatch
/// policy. An allocator with no heaps provisions one of `DEFAULT_HEAP_SIZE`
/// bytes on first use.
#[derive(Debug)]
pub struct HeapAllocator {
    pub heaps: Vec<Heap>,
}

impl HeapAllocator {
    /// Every heap is well-formed.
    pub open spec fn wf(self) -> bool {
        forall|i: int| 0 <= i < self.heaps@.len() ==> #[trigger] self.heaps@[i].wf()
    }

    /// The record list a request works against: that of the first heap, or an
    /// empty one when the default heap is yet to be provisioned.
    pub open spec fn spec_first_records(self) -> Seq<HeapAllocation> {
        if self.heaps@.len() == 0 {
            Seq::<HeapAllocation>::empty()
        } else {
            self.heaps@[0].allocations@
        }
    }

    /// The base address a request works against.
    pub open spec fn spec_first_base(self) -> int {
        if self.heaps@.len() == 0 {
            0
        } else {
            self.heaps@[0].ptr as int
        }
    }

    /// The capacity a request works against.
    pub open spec fn spec_first_capacity(self) -> int {
        if self.heaps@.len() == 0 {
            DEFAULT_HEAP_SIZE as int
        } else {
            self.heaps@[0].size as int
        }
    }

    /// Append a new heap of the given capacity, based at address zero. It
    /// does not replace or remove existing heaps, and when one already
    /// exists, the new heap is never consulted.
    pub fn init_heap(&mut self, size: usize)
        requires
            old(self).wf(),
        ensures
            final(self).wf(),
            final(self).heaps@.len() == old(self).heaps@.len() + 1,
            forall|i: int| 0 <= i < old(self).heaps@.len() ==> final(self).heaps@[i] == old(
                self,
            ).heaps@[i],
            final(self).heaps@.last().ptr == 0,
            final(self).heaps@.last().size == size,
            final(self).heaps@.last().allocations@ == Seq::<HeapAllocation>::empty(),
            final(self).heaps@.last().contiguous(),
    {
        let heap = Heap::new(0, size);
        self.heaps.push(heap);
    }

    /// Route an allocation to the first heap, provisioning the default heap
    /// first when none exists. Exactly one heap appears on that first use;
    /// afterwards the heap count never changes.
    pub fn allocate(&mut self, size: usize) -> (r: Option<usize>)
        requires
            old(self).wf(),
            size <= usize::MAX - 3,
        ensures
            final(self).wf(),
            final(self).heaps@.len() == if old(self).heaps@.len() == 0 {
                1int
            } else {
                old(self).heaps@.len() as int
            },
            forall|i: int| 1 <= i < final(self).heaps@.len() ==> final(self).heaps@[i] == old(
                self,
            ).heaps@[i],
            final(self).heaps@[0].ptr as int == old(self).spec_first_base(),
            final(self).heaps@[0].size as int == old(self).spec_first_capacity(),
            alloc_fits(
                old(self).spec_first_records(),
                old(self).spec_first_base(),
                old(self).spec_first_capacity(),
                size as int,
            ) ==> {
                &&& r == Some(
                    fit_addr(
                        old(self).spec_first_records(),
                        old(self).spec_first_base(),
                        spec_align(size as int),
                    ) as usize,
                )
                &&& final(self).heaps@[0].allocations@ == alloc_insert(
                    old(self).spec_first_records(),
                    old(self).spec_first_base(),
                    size as int,
                )
            },
            !alloc_fits(
                old(self).spec_first_records(),
                old(self).spec_first_base(),
                old(self).spec_first_capacity(),
                size as int,
            ) ==> r is None && final(self).heaps@[0].allocations@ == old(
                self,
            ).spec_first_records(),
            (old(self).heaps@.len() == 0 || old(self).heaps@[0].contiguous())
                ==> final(self).heaps@[0].contiguous(),
    {
        if self.heaps.len() == 0 {
            self.init_heap(DEFAULT_HEAP_SIZE);
        }
        let ghost pre = self.heaps@;
        let mut heap = self.heaps.remove(0);
        let r = heap.allocate(size);
        self.heaps.insert(0, heap);
        proof {
            assert(self.heaps@ == pre.remove(0).insert(0, heap));
            assert forall|i: int| 1 <= i < self.heaps@.len() implies self.heaps@[i] == pre[i] by {
                assert(self.heaps@[i] == pre.remove(0)[i - 1]);
            }
            assert(self.heaps@[0] == heap);
        }
        r
    }

    /// Route a free to the first heap, provisioning the default heap first
    /// when none exists (in which case the free finds nothing to remove).
    pub fn free(&mut self, ptr: usize)
        requires
            old(self).wf(),
        ensures
            final(self).wf(),
            final(self).heaps@.len() == if old(self).heaps@.len() == 0 {
                1int
            } else {
                old(self).heaps@.len() as int
            },
            forall|i: int| 1 <= i < final(self).heaps@.len() ==> final(self).heaps@[i] == old(
                self,
            ).heaps@[i],
            final(self).heaps@[0].ptr as int == old(self).spec_first_base(),
            final(self).heaps@[0].size as int == old(self).spec_first_capacity(),
            final(self).heaps@[0].allocations@ == free_result(
                old(self).spec_first_records(),
                ptr as int,
            ),
    {
        if self.heaps.len() == 0 {
            self.init_heap(DEFAULT_HEAP_SIZE);
        }
        let ghost pre = self.heaps@;
        let mut heap = self.heaps.remove(0);
        heap.free(ptr);
        self.heaps.insert(0, heap);
        proof {
            assert(self.heaps@ == pre.remove(0).insert(0, heap));
            assert forall|i: int| 1 <= i < self.heaps@.len() implies self.heaps@[i] == pre[i] by {
                assert(self.heaps@[i] == pre.remove(0)[i - 1]);
            }
            assert(self.heaps@[0] == heap);
        }
    }
}

} // verus!
