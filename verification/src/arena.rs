//! Arena of a partition: a bump allocator with a free list that is rebuilt by every sweep.

use vstd::layout::valid_layout;
use vstd::prelude::*;

use crate::gctype::{align_up, layout_is_valid, lemma_pow2_bound, spec_align_up};

verus! {

/// Every allocation takes at least this many bytes.
pub const MIN_ALLOC_SIZE: usize = (usize::BITS / 4) as usize;

/// Capacity of the arena that a partition gets by default.
pub const ARENA_CAPACITY: usize = 65536;

/// Nodes larger than this do not go to the arena of a default partition.
pub const MAX_ARENA_ALLOC: usize = 16384;

/// A range of arena offsets.
pub struct Span {
    pub start: int,
    pub len: int,
}

impl Span {
    /// The offset behind the range.
    pub open spec fn end(self) -> int {
        self.start + self.len
    }

    /// No offset lies in both ranges.
    pub open spec fn apart(self, other: Span) -> bool {
        self.end() <= other.start || other.end() <= self.start
    }
}

/// A range of arena offsets that a dead node has left.
#[derive(Debug, Clone, Copy)]
pub struct Hole {
    pub offset: usize,
    pub size: usize,
}

impl View for Hole {
    type V = Span;

    open spec fn view(&self) -> Span {
        Span { start: self.offset as int, len: self.size as int }
    }
}

/// The ranges of a list of holes.
pub open spec fn spans(holes: Seq<Hole>) -> Seq<Span> {
    Seq::new(holes.len(), |i: int| holes[i]@)
}

/// The number of bytes taken by an allocation of `size` bytes.
pub open spec fn taken(size: int) -> int {
    if size < MIN_ALLOC_SIZE {
        MIN_ALLOC_SIZE as int
    } else {
        size
    }
}

/// Position of the first range that holds `need` bytes; the length of the list if none does.
pub open spec fn first_fit(free: Seq<Span>, need: int) -> int
    decreases free.len(),
{
    if free.len() == 0 {
        0
    } else if free[0].len >= need {
        0
    } else {
        1 + first_fit(free.drop_first(), need)
    }
}

/// The sorted list `s` with `h` put behind every range that does not start after it.
pub open spec fn insert_span(s: Seq<Span>, h: Span) -> Seq<Span>
    decreases s.len(),
{
    if s.len() == 0 || s.last().start <= h.start {
        s.push(h)
    } else {
        insert_span(s.drop_last(), h).push(s.last())
    }
}

/// The list sorted by start; ranges with the same start keep their order.
pub open spec fn sort_spans(s: Seq<Span>) -> Seq<Span>
    decreases s.len(),
{
    if s.len() == 0 {
        s
    } else {
        insert_span(sort_spans(s.drop_last()), s.last())
    }
}

/// The list with every range joined to its predecessor where that one ends right before it.
pub open spec fn merge_spans(s: Seq<Span>) -> Seq<Span>
    decreases s.len(),
{
    if s.len() <= 1 {
        s
    } else {
        let m = merge_spans(s.drop_last());
        if m.last().end() == s.last().start {
            m.drop_last().push(Span { start: m.last().start, len: m.last().len + s.last().len })
        } else {
            m.push(s.last())
        }
    }
}

/// State of an arena.
#[verifier::ext_equal]
pub struct ArenaView {
    pub capacity: int,
    /// Everything at and above this offset is unused.
    pub bump: int,
    /// Ranges to be used again, in the order in which they are tried.
    pub free: Seq<Span>,
    /// Number of allocations that were not given back.
    pub live: int,
}

impl ArenaView {
    /// Where a bump allocation with this alignment would start.
    pub open spec fn bump_offset(self, align: int) -> int {
        spec_align_up(self.bump, align)
    }

    /// There is room for the allocation above the bump offset.
    pub open spec fn bump_fits(self, size: int, align: int) -> bool {
        self.bump_offset(align) + taken(size) <= self.capacity
    }

    /// The offset that an allocation gets.
    pub open spec fn alloc_offset(self, size: int, align: int) -> Option<int> {
        let i = first_fit(self.free, taken(size));
        if self.bump_fits(size, align) {
            Some(self.bump_offset(align))
        } else if i < self.free.len() {
            Some(self.free[i].start)
        } else {
            None
        }
    }

    /// The arena after an allocation was tried.
    pub open spec fn after_alloc(self, size: int, align: int) -> ArenaView {
        let i = first_fit(self.free, taken(size));
        if self.bump_fits(size, align) {
            ArenaView {
                bump: self.bump_offset(align) + taken(size),
                live: self.live + 1,
                ..self
            }
        } else if i < self.free.len() {
            ArenaView { free: self.free.remove(i), live: self.live + 1, ..self }
        } else {
            self
        }
    }

    /// An allocation at `offset` ends where the unused part begins.
    pub open spec fn at_frontier(self, offset: int, size: int) -> bool {
        offset + taken(size) == self.bump
    }

    /// The arena after the allocation at `offset` was given back.
    pub open spec fn after_collect(self, offset: int, size: int) -> ArenaView {
        ArenaView {
            bump: if self.at_frontier(offset, size) {
                offset
            } else {
                self.bump
            },
            live: if self.live > 0 {
                self.live - 1
            } else {
                0
            },
            ..self
        }
    }

    /// The holes collected so far, after the allocation at `offset` was given back.
    pub open spec fn holes_after(self, holes: Seq<Span>, offset: int, size: int) -> Seq<Span> {
        if self.at_frontier(offset, size) {
            holes
        } else {
            holes.push(Span { start: offset, len: taken(size) })
        }
    }

    /// The arena after a sweep that collected `holes`.
    pub open spec fn after_sweep(self, holes: Seq<Span>) -> ArenaView {
        if self.live == 0 {
            ArenaView { bump: 0, free: Seq::empty(), ..self }
        } else {
            ArenaView { free: merge_spans(sort_spans(holes)), ..self }
        }
    }

    /// The allocations `live`, the collected `holes` and the free ranges lie below the bump
    /// offset and do not overlap.
    pub open spec fn disjoint(self, live: Seq<Span>, holes: Seq<Span>) -> bool {
        &&& 0 <= self.bump <= self.capacity
        &&& self.live == live.len()
        &&& below(live, self.bump)
        &&& below(holes, self.bump)
        &&& below(self.free, self.bump)
        &&& all_apart(live)
        &&& all_apart(holes)
        &&& all_apart(self.free)
        &&& apart_lists(live, holes)
        &&& apart_lists(live, self.free)
        &&& apart_lists(holes, self.free)
    }
}

/// Every range is nonempty and lies between zero and `top`.
pub open spec fn below(s: Seq<Span>, top: int) -> bool {
    forall|i: int|
        0 <= i < s.len() ==> 0 <= (#[trigger] s[i]).start && s[i].len > 0 && s[i].end() <= top
}

/// No two ranges of the list overlap.
pub open spec fn all_apart(s: Seq<Span>) -> bool {
    forall|i: int, j: int|
        0 <= i < s.len() && 0 <= j < s.len() && i != j ==> (#[trigger] s[i]).apart(#[trigger] s[j])
}

/// No range of the one list overlaps a range of the other.
pub open spec fn apart_lists(s: Seq<Span>, t: Seq<Span>) -> bool {
    forall|i: int, j: int|
        0 <= i < s.len() && 0 <= j < t.len() ==> (#[trigger] s[i]).apart(#[trigger] t[j])
}

/// Arena of a partition.
#[derive(Debug)]
pub struct GcArena {
    capacity: usize,
    bump: usize,
    free: Vec<Hole>,
    live_count: usize,
}

impl View for GcArena {
    type V = ArenaView;

    closed spec fn view(&self) -> ArenaView {
        ArenaView {
            capacity: self.capacity as int,
            bump: self.bump as int,
            free: spans(self.free@),
            live: self.live_count as int,
        }
    }
}

proof fn lemma_first_fit_skip(free: Seq<Span>, need: int, i: int)
    requires
        0 <= i <= free.len(),
        forall|j: int| 0 <= j < i ==> (#[trigger] free[j]).len < need,
    ensures
        first_fit(free, need) == i + first_fit(free.skip(i), need),
    decreases i,
{
    if i == 0 {
        assert(free.skip(0) =~= free);
    } else {
        lemma_first_fit_skip(free, need, i - 1);
        assert(free[i - 1].len < need);
        assert(free.skip(i - 1)[0] == free[i - 1]);
        assert(free.skip(i - 1).drop_first() =~= free.skip(i));
    }
}

proof fn lemma_insert_at(s: Seq<Span>, h: Span, pos: int)
    requires
        0 <= pos <= s.len(),
        forall|j: int| pos <= j < s.len() ==> (#[trigger] s[j]).start > h.start,
        pos > 0 ==> s[pos - 1].start <= h.start,
    ensures
        insert_span(s, h) == s.insert(pos, h),
    decreases s.len() - pos,
{
    if pos == s.len() {
        assert(s.insert(pos, h) =~= s.push(h));
    } else {
        assert(s[s.len() - 1].start > h.start);
        lemma_insert_at(s.drop_last(), h, pos);
        assert(s.insert(pos, h) =~= s.drop_last().insert(pos, h).push(s.last()));
    }
}

/// The ranges behind `end` can be merged without leaving `0..=max`.
spec fn bounded(s: Seq<Span>, max: int) -> bool {
    forall|i: int|
        0 <= i < s.len() ==> 0 <= (#[trigger] s[i]).start && 0 <= s[i].len && s[i].end() <= max
}

proof fn lemma_insert_bounded(s: Seq<Span>, h: Span, max: int)
    requires
        bounded(s, max),
        0 <= h.start,
        0 <= h.len,
        h.end() <= max,
    ensures
        bounded(insert_span(s, h), max),
    decreases s.len(),
{
    if s.len() > 0 && s.last().start > h.start {
        lemma_insert_bounded(s.drop_last(), h, max);
    }
}

proof fn lemma_sort_bounded(s: Seq<Span>, max: int)
    requires
        bounded(s, max),
    ensures
        bounded(sort_spans(s), max),
        sort_spans(s).len() == s.len(),
    decreases s.len(),
{
    if s.len() > 0 {
        lemma_sort_bounded(s.drop_last(), max);
        lemma_insert_bounded(sort_spans(s.drop_last()), s.last(), max);
        lemma_insert_len(sort_spans(s.drop_last()), s.last());
    }
}

proof fn lemma_insert_len(s: Seq<Span>, h: Span)
    ensures
        insert_span(s, h).len() == s.len() + 1,
    decreases s.len(),
{
    if s.len() > 0 && s.last().start > h.start {
        lemma_insert_len(s.drop_last(), h);
    }
}

proof fn lemma_merge_bounded(s: Seq<Span>, max: int)
    requires
        bounded(s, max),
    ensures
        bounded(merge_spans(s), max),
        s.len() > 0 ==> merge_spans(s).len() > 0,
    decreases s.len(),
{
    if s.len() > 1 {
        lemma_merge_bounded(s.drop_last(), max);
    }
}

/// Sorts holes by offset; holes with the same offset keep their order.
fn sort_holes(holes: &Vec<Hole>) -> (r: Vec<Hole>)
    ensures
        spans(r@) == sort_spans(spans(holes@)),
{
    let mut out: Vec<Hole> = Vec::new();
    let mut i: usize = 0;
    assert(spans(holes@).take(0) =~= Seq::<Span>::empty());
    assert(spans(out@) =~= Seq::<Span>::empty());
    while i < holes.len()
        invariant
            i <= holes@.len(),
            spans(out@) == sort_spans(spans(holes@).take(i as int)),
        decreases holes@.len() - i,
    {
        let h: Hole = holes[i];
        let mut pos: usize = out.len();
        while pos > 0 && out[pos - 1].offset > h.offset
            invariant
                pos <= out@.len(),
                forall|j: int| pos <= j < out@.len() ==> (#[trigger] out@[j]).offset > h.offset,
            decreases pos,
        {
            pos = pos - 1;
        }
        proof {
            let s = spans(holes@);
            assert(s.take(i + 1).drop_last() =~= s.take(i as int));
            assert(s.take(i + 1).last() == h@);
            assert forall|j: int| pos <= j < spans(out@).len() implies (#[trigger] spans(
                out@,
            )[j]).start > h@.start by {
                assert(out@[j].offset > h.offset);
            }
            lemma_insert_at(spans(out@), h@, pos as int);
            assert(spans(out@.insert(pos as int, h)) =~= spans(out@).insert(pos as int, h@));
        }
        out.insert(pos, h);
        i = i + 1;
    }
    assert(spans(holes@).take(i as int) =~= spans(holes@));
    out
}

/// Joins each hole to its predecessor where that one ends right before it.
fn merge_holes(holes: &Vec<Hole>) -> (r: Vec<Hole>)
    requires
        bounded(spans(holes@), usize::MAX as int),
    ensures
        spans(r@) == merge_spans(spans(holes@)),
{
    let mut out: Vec<Hole> = Vec::new();
    let mut i: usize = 0;
    let ghost s = spans(holes@);
    assert(s.take(0) =~= Seq::<Span>::empty());
    assert(spans(out@) =~= Seq::<Span>::empty());
    while i < holes.len()
        invariant
            i <= holes@.len(),
            s == spans(holes@),
            bounded(s, usize::MAX as int),
            spans(out@) == merge_spans(s.take(i as int)),
        decreases holes@.len() - i,
    {
        let h: Hole = holes[i];
        proof {
            assert(bounded(s.take(i as int), usize::MAX as int));
            lemma_merge_bounded(s.take(i as int), usize::MAX as int);
            assert(s.take(i + 1).drop_last() =~= s.take(i as int));
            assert(s.take(i + 1).last() == h@);
            assert(s[i as int].end() <= usize::MAX);
            assert(spans(out@).len() == out@.len());
        }
        let n: usize = out.len();
        if n > 0 {
            let last: Hole = out[n - 1];
            assert(spans(out@)[n - 1] == last@);
            assert(spans(out@).last() == last@);
            assert(last@.end() <= usize::MAX);
            if last.offset + last.size == h.offset {
                assert(i > 0);
                let joined: Hole = Hole { offset: last.offset, size: last.size + h.size };
                let ghost before = out@;
                out.pop();
                out.push(joined);
                assert(spans(out@) =~= spans(before).drop_last().push(joined@));
            } else {
                let ghost before = out@;
                out.push(h);
                assert(spans(out@) =~= spans(before).push(h@));
            }
        } else {
            assert(i == 0);
            out.push(h);
            assert(spans(out@) =~= s.take(i + 1));
        }
        i = i + 1;
    }
    assert(s.take(i as int) =~= s);
    out
}

impl GcArena {
    /// The offsets in use lie inside the arena, and the arena inside the address space.
    pub closed spec fn wf(&self) -> bool {
        &&& self.bump <= self.capacity
        &&& self.capacity <= isize::MAX
        &&& bounded(spans(self.free@), self.capacity as int)
    }

    /// An arena of `capacity` bytes; `None` if that many bytes, aligned to 16, cannot be laid
    /// out.
    pub fn new(capacity: usize) -> (r: Option<Self>)
        ensures
            r is Some <==> valid_layout(capacity, 16),
            r matches Some(a) ==> a.wf() && a@ == (ArenaView {
                capacity: capacity as int,
                bump: 0,
                free: Seq::empty(),
                live: 0,
            }),
    {
        if !layout_is_valid(capacity, 16) {
            return None;
        }
        let r = GcArena { capacity, bump: 0, free: Vec::new(), live_count: 0 };
        proof {
            vstd::arithmetic::div_mod::lemma_mod_bound(isize::MAX as int, 16);
            assert(r@.free =~= Seq::<Span>::empty());
        }
        Some(r)
    }

    /// Total number of bytes.
    pub fn capacity(&self) -> (r: usize)
        ensures
            r == self@.capacity,
    {
        self.capacity
    }

    /// Everything at and above this offset is unused.
    pub fn bump(&self) -> (r: usize)
        ensures
            r == self@.bump,
    {
        self.bump
    }

    /// Number of allocations that were not given back.
    pub fn live_count(&self) -> (r: usize)
        ensures
            r == self@.live,
    {
        self.live_count
    }

    /// Start of the free range that is tried first.
    pub fn free_head(&self) -> (r: Option<usize>)
        ensures
            r is Some <==> self@.free.len() > 0,
            r matches Some(o) ==> o == self@.free[0].start,
    {
        if self.free.len() > 0 {
            Some(self.free[0].offset)
        } else {
            None
        }
    }

    /// Allocates `size` bytes and returns their offset: above the bump offset if they fit
    /// there, else in the first free range that is large enough. A free range is given away
    /// whole, whatever its alignment.
    pub fn allocate(&mut self, size: usize, align: usize) -> (r: Option<usize>)
        requires
            old(self).wf(),
            valid_layout(size, align),
            old(self)@.live < usize::MAX,
        ensures
            final(self).wf(),
            final(self)@ == old(self)@.after_alloc(size as int, align as int),
            r is Some <==> old(self)@.alloc_offset(size as int, align as int) is Some,
            r matches Some(o) ==> old(self)@.alloc_offset(size as int, align as int) == Some(
                o as int,
            ) && o + taken(size as int) <= old(self)@.capacity,
    {
        let needed: usize = if size < MIN_ALLOC_SIZE {
            MIN_ALLOC_SIZE
        } else {
            size
        };
        proof {
            lemma_pow2_bound(align);
        }
        let offset: usize = align_up(self.bump, align);
        if offset <= self.capacity && needed <= self.capacity - offset {
            self.bump = offset + needed;
            self.live_count = self.live_count + 1;
            return Some(offset);
        }
        match self.alloc_from_free_list(needed) {
            Some(o) => {
                self.live_count = self.live_count + 1;
                Some(o)
            },
            None => None,
        }
    }

    /// Takes the first free range of at least `needed` bytes off the free list.
    fn alloc_from_free_list(&mut self, needed: usize) -> (r: Option<usize>)
        requires
            old(self).wf(),
        ensures
            final(self).wf(),
            r is Some <==> first_fit(old(self)@.free, needed as int) < old(self)@.free.len(),
            r matches Some(o) ==> {
                let i = first_fit(old(self)@.free, needed as int);
                &&& 0 <= i
                &&& o == old(self)@.free[i].start
                &&& o + needed <= old(self)@.capacity
                &&& final(self)@ == (ArenaView { free: old(self)@.free.remove(i), ..old(self)@ })
            },
            r is None ==> final(self)@ == old(self)@,
    {
        let mut i: usize = 0;
        while i < self.free.len()
            invariant
                i <= self.free@.len(),
                *self == *old(self),
                self.wf(),
                forall|j: int| 0 <= j < i ==> (#[trigger] self@.free[j]).len < needed,
            decreases self.free@.len() - i,
        {
            if self.free[i].size >= needed {
                proof {
                    lemma_first_fit_skip(self@.free, needed as int, i as int);
                    assert(self@.free.skip(i as int)[0] == self.free@[i as int]@);
                    assert(spans(self.free@.remove(i as int)) =~= spans(self.free@).remove(i as int));
                    assert(self@.free[i as int].end() <= self@.capacity);
                }
                let hole: Hole = self.free.remove(i);
                return Some(hole.offset);
            }
            i = i + 1;
        }
        proof {
            lemma_first_fit_skip(self@.free, needed as int, i as int);
            assert(self@.free.skip(i as int).len() == 0);
        }
        None
    }

    /// Takes back the allocation of `size` bytes at `offset`. If it ends where the unused part
    /// begins, the bump offset is moved back; else it is added to `holes`.
    pub fn collect_hole(&mut self, holes: &mut Vec<Hole>, offset: usize, size: usize)
        requires
            old(self).wf(),
            offset + taken(size as int) <= old(self)@.capacity,
        ensures
            final(self).wf(),
            final(self)@ == old(self)@.after_collect(offset as int, size as int),
            spans(final(holes)@) == old(self)@.holes_after(
                spans(old(holes)@),
                offset as int,
                size as int,
            ),
    {
        let actual: usize = if size < MIN_ALLOC_SIZE {
            MIN_ALLOC_SIZE
        } else {
            size
        };
        if offset + actual == self.bump {
            self.bump = offset;
        } else {
            let ghost before = holes@;
            let hole: Hole = Hole { offset, size: actual };
            holes.push(hole);
            assert(spans(holes@) =~= spans(before).push(hole@));
        }
        if self.live_count > 0 {
            self.live_count = self.live_count - 1;
        }
    }

    /// Ends a sweep: an arena without allocations starts over, any other gets the sorted and
    /// merged `holes` as its free list.
    pub fn finish_sweep(&mut self, holes: &mut Vec<Hole>)
        requires
            old(self).wf(),
            forall|i: int|
                0 <= i < old(holes)@.len() ==> (#[trigger] old(holes)@[i])@.end()
                    <= old(self)@.capacity,
        ensures
            final(self).wf(),
            final(self)@ == old(self)@.after_sweep(spans(old(holes)@)),
            final(holes)@ == Seq::<Hole>::empty(),
    {
        if self.live_count == 0 {
            self.bump = 0;
            self.free = Vec::new();
            assert(self@.free =~= Seq::<Span>::empty());
            holes.clear();
            return;
        }
        let sorted: Vec<Hole> = sort_holes(holes);
        proof {
            let s = spans(holes@);
            let top = self.capacity as int;
            assert forall|i: int| 0 <= i < s.len() implies 0 <= (#[trigger] s[i]).start && 0
                <= s[i].len && s[i].end() <= top by {
                assert(holes@[i]@.end() <= self@.capacity);
            }
            lemma_sort_bounded(s, top);
            lemma_merge_bounded(sort_spans(s), top);
        }
        self.free = merge_holes(&sorted);
        holes.clear();
    }
}

/// Each range ends before the next one starts.
spec fn ordered(s: Seq<Span>) -> bool {
    forall|i: int, j: int| 0 <= i < j < s.len() ==> (#[trigger] s[i]).end() <= (#[trigger] s[j]).start
}

proof fn lemma_insert_members(s: Seq<Span>, h: Span)
    ensures
        forall|i: int|
            0 <= i < insert_span(s, h).len() ==> (#[trigger] insert_span(s, h)[i]) == h
                || s.contains(insert_span(s, h)[i]),
    decreases s.len(),
{
    let r = insert_span(s, h);
    if s.len() == 0 || s.last().start <= h.start {
        assert forall|i: int| 0 <= i < r.len() implies (#[trigger] r[i]) == h || s.contains(r[i]) by {
            if i < s.len() {
                assert(r[i] == s[i]);
            }
        }
    } else {
        lemma_insert_members(s.drop_last(), h);
        let q = insert_span(s.drop_last(), h);
        assert forall|i: int| 0 <= i < r.len() implies (#[trigger] r[i]) == h || s.contains(r[i]) by {
            if i < q.len() {
                assert(r[i] == q[i]);
                if q[i] != h {
                    let k = choose|k: int| 0 <= k < s.len() - 1 && s.drop_last()[k] == q[i];
                    assert(s[k] == r[i]);
                }
            } else {
                assert(r[i] == s.last());
                assert(s[s.len() - 1] == r[i]);
            }
        }
    }
}

proof fn lemma_insert_ordered(s: Seq<Span>, h: Span, top: int)
    requires
        ordered(s),
        below(s, top),
        h.len > 0,
        forall|i: int| 0 <= i < s.len() ==> (#[trigger] s[i]).apart(h),
    ensures
        ordered(insert_span(s, h)),
    decreases s.len(),
{
    if s.len() > 0 && s.last().start > h.start {
        let d = s.drop_last();
        assert(s[s.len() - 1].apart(h));
        lemma_insert_ordered(d, h, top);
        lemma_insert_members(d, h);
        let q = insert_span(d, h);
        let r = insert_span(s, h);
        assert forall|i: int, j: int| 0 <= i < j < r.len() implies (#[trigger] r[i]).end() <= (
        #[trigger] r[j]).start by {
            if j == q.len() {
                if q[i] != h {
                    let k = choose|k: int| 0 <= k < d.len() && d[k] == q[i];
                    assert(s[k].end() <= s[s.len() - 1].start);
                }
            } else {
                assert(q[i].end() <= q[j].start);
            }
        }
    } else if s.len() > 0 {
        let r = insert_span(s, h);
        assert(s[s.len() - 1].apart(h));
        assert forall|i: int, j: int| 0 <= i < j < r.len() implies (#[trigger] r[i]).end() <= (
        #[trigger] r[j]).start by {
            if j == s.len() && i < s.len() - 1 {
                assert(s[i].end() <= s[s.len() - 1].start);
                assert(s[s.len() - 1].len > 0);
            }
        }
    }
}

proof fn lemma_sort_ordered(s: Seq<Span>, top: int)
    requires
        below(s, top),
        all_apart(s),
    ensures
        ordered(sort_spans(s)),
        below(sort_spans(s), top),
        forall|i: int| 0 <= i < sort_spans(s).len() ==> s.contains(#[trigger] sort_spans(s)[i]),
    decreases s.len(),
{
    if s.len() > 0 {
        let d = s.drop_last();
        lemma_sort_ordered(d, top);
        let q = sort_spans(d);
        let h = s.last();
        assert forall|i: int| 0 <= i < q.len() implies (#[trigger] q[i]).apart(h) by {
            let k = choose|k: int| 0 <= k < d.len() && d[k] == q[i];
            assert(s[k].apart(s[s.len() - 1]));
        }
        assert(s[s.len() - 1].len > 0);
        lemma_insert_ordered(q, h, top);
        lemma_insert_members(q, h);
        let r = sort_spans(s);
        assert forall|i: int| 0 <= i < r.len() implies s.contains(#[trigger] r[i]) by {
            if r[i] == h {
                assert(s[s.len() - 1] == r[i]);
            } else {
                let k = choose|k: int| 0 <= k < q.len() && q[k] == r[i];
                assert(d.contains(q[k]));
                let m = choose|m: int| 0 <= m < d.len() && d[m] == q[k];
                assert(s[m] == r[i]);
            }
        }
        assert forall|i: int| 0 <= i < r.len() implies 0 <= (#[trigger] r[i]).start && r[i].len
            > 0 && r[i].end() <= top by {
            let m = choose|m: int| 0 <= m < s.len() && s[m] == r[i];
            assert(s[m].len > 0);
        }
    }
}

proof fn lemma_merge_ordered(s: Seq<Span>, live: Seq<Span>, top: int)
    requires
        ordered(s),
        below(s, top),
        below(live, top),
        apart_lists(live, s),
    ensures
        ordered(merge_spans(s)),
        below(merge_spans(s), top),
        apart_lists(live, merge_spans(s)),
        merge_spans(s).len() <= s.len(),
        s.len() > 0 ==> merge_spans(s).len() > 0 && merge_spans(s).last().end() == s.last().end(),
    decreases s.len(),
{
    if s.len() > 1 {
        let d = s.drop_last();
        lemma_merge_ordered(d, live, top);
        let m = merge_spans(d);
        let r = merge_spans(s);
        let last = s.last();
        assert(s[s.len() - 2].end() <= s[s.len() - 1].start);
        assert(m.last().end() <= last.start);
        assert forall|i: int, j: int| 0 <= i < j < r.len() implies (#[trigger] r[i]).end() <= (
        #[trigger] r[j]).start by {
            if j < m.len() - 1 || (j == m.len() - 1 && m.last().end() == last.start) {
                assert(m[i].end() <= m[j].start);
            } else if j == m.len() - 1 {
                assert(m[i].end() <= m[j].start);
            } else {
                assert(m[m.len() - 1].len > 0);
                if i < m.len() - 1 {
                    assert(m[i].end() <= m[m.len() - 1].start);
                }
            }
        }
        assert forall|i: int| 0 <= i < r.len() implies 0 <= (#[trigger] r[i]).start && r[i].len
            > 0 && r[i].end() <= top by {
            assert(s[s.len() - 1].len > 0);
            assert(m[m.len() - 1].len > 0);
            if i < m.len() {
                assert(m[i].len > 0);
            }
        }
        assert forall|i: int, j: int| 0 <= i < live.len() && 0 <= j < r.len() implies (
        #[trigger] live[i]).apart(#[trigger] r[j]) by {
            assert(live[i].len > 0);
            assert(live[i].apart(s[s.len() - 1]));
            assert(live[i].apart(m[m.len() - 1]));
            if j < m.len() {
                assert(live[i].apart(m[j]));
            }
        }
    }
}

/// An allocation never overlaps what is allocated already, nor what is free.
pub proof fn law_allocations_disjoint(v: ArenaView, live: Seq<Span>, holes: Seq<Span>, size: int, align: int)
    requires
        v.disjoint(live, holes),
        size >= 0,
        align > 0,
        v.alloc_offset(size, align) is Some,
    ensures
        v.after_alloc(size, align).disjoint(
            live.push(Span { start: v.alloc_offset(size, align).unwrap(), len: taken(size) }),
            holes,
        ),
{
    let i = first_fit(v.free, taken(size));
    lemma_first_fit_value(v.free, taken(size));
    let w = v.after_alloc(size, align);
    let o = v.alloc_offset(size, align).unwrap();
    let new = Span { start: o, len: taken(size) };
    let grown = live.push(new);
    if v.bump_fits(size, align) {
        lemma_align_up_least(v.bump, align);
        assert(o >= v.bump);
    } else {
        assert(v.free[i].len >= taken(size));
        assert(w.free =~= v.free.remove(i));
    }
    assert forall|a: int| 0 <= a < live.len() implies (#[trigger] live[a]).apart(new) by {
        if !v.bump_fits(size, align) {
            assert(live[a].apart(v.free[i]));
        }
    }
    assert forall|a: int| 0 <= a < holes.len() implies (#[trigger] holes[a]).apart(new) by {
        if !v.bump_fits(size, align) {
            assert(holes[a].apart(v.free[i]));
        }
    }
    assert forall|a: int| 0 <= a < w.free.len() implies (#[trigger] w.free[a]).apart(new) by {
        if !v.bump_fits(size, align) {
            let b = if a < i {
                a
            } else {
                a + 1
            };
            assert(w.free[a] == v.free[b]);
            assert(v.free[b].apart(v.free[i]));
        } else {
            assert(w.free[a] == v.free[a]);
        }
    }
    assert(below(w.free, w.bump)) by {
        assert forall|a: int| 0 <= a < w.free.len() implies 0 <= (#[trigger] w.free[a]).start
            && w.free[a].len > 0 && w.free[a].end() <= w.bump by {
            if !v.bump_fits(size, align) && a >= i {
                assert(w.free[a] == v.free[a + 1]);
            } else {
                assert(w.free[a] == v.free[a]);
            }
        }
    }
    assert(all_apart(w.free)) by {
        assert forall|a: int, b: int|
            0 <= a < w.free.len() && 0 <= b < w.free.len() && a != b implies (
        #[trigger] w.free[a]).apart(#[trigger] w.free[b]) by {
            if !v.bump_fits(size, align) {
                let a2 = if a < i {
                    a
                } else {
                    a + 1
                };
                let b2 = if b < i {
                    b
                } else {
                    b + 1
                };
                assert(v.free[a2].apart(v.free[b2]));
            } else {
                assert(v.free[a].apart(v.free[b]));
            }
        }
    }
    assert(apart_lists(holes, w.free)) by {
        assert forall|a: int, b: int|
            0 <= a < holes.len() && 0 <= b < w.free.len() implies (#[trigger] holes[a]).apart(
            #[trigger] w.free[b],
        ) by {
            let b2 = if !v.bump_fits(size, align) && b >= i {
                b + 1
            } else {
                b
            };
            assert(holes[a].apart(v.free[b2]));
        }
    }
    assert(apart_lists(live, w.free)) by {
        assert forall|a: int, b: int|
            0 <= a < live.len() && 0 <= b < w.free.len() implies (#[trigger] live[a]).apart(
            #[trigger] w.free[b],
        ) by {
            let b2 = if !v.bump_fits(size, align) && b >= i {
                b + 1
            } else {
                b
            };
            assert(live[a].apart(v.free[b2]));
        }
    }
    assert(below(grown, w.bump)) by {
        assert forall|a: int| 0 <= a < grown.len() implies 0 <= (#[trigger] grown[a]).start
            && grown[a].len > 0 && grown[a].end() <= w.bump by {
            if a < live.len() {
                assert(grown[a] == live[a]);
            }
        }
    }
    assert(below(holes, w.bump));
}

proof fn lemma_first_fit_value(free: Seq<Span>, need: int)
    ensures
        0 <= first_fit(free, need) <= free.len(),
        first_fit(free, need) < free.len() ==> free[first_fit(free, need)].len >= need,
    decreases free.len(),
{
    if free.len() > 0 && free[0].len < need {
        lemma_first_fit_value(free.drop_first(), need);
    }
}

proof fn lemma_align_up_least(value: int, align: int)
    requires
        align > 0,
    ensures
        spec_align_up(value, align) >= value,
{
    vstd::arithmetic::div_mod::lemma_fundamental_div_mod(value + align - 1, align);
    vstd::arithmetic::div_mod::lemma_mod_bound(value + align - 1, align);
    vstd::arithmetic::mul::lemma_mul_is_commutative(align, (value + align - 1) / align);
}

/// Giving an allocation back leaves the others as they are, and what it frees overlaps none of
/// them.
pub proof fn law_collect_disjoint(v: ArenaView, live: Seq<Span>, holes: Seq<Span>, k: int, size: int)
    requires
        v.disjoint(live, holes),
        0 <= k < live.len(),
        live[k].len == taken(size),
    ensures
        v.after_collect(live[k].start, size).disjoint(
            live.remove(k),
            v.holes_after(holes, live[k].start, size),
        ),
{
    let span = live[k];
    let w = v.after_collect(span.start, size);
    let rest = live.remove(k);
    let collected = v.holes_after(holes, span.start, size);
    assert(w.free == v.free);
    assert forall|a: int| 0 <= a < rest.len() implies (#[trigger] rest[a]).apart(span) && 0
        <= rest[a].start && rest[a].len > 0 && rest[a].end() <= v.bump by {
        let a2 = if a < k {
            a
        } else {
            a + 1
        };
        assert(rest[a] == live[a2]);
        assert(live[a2].apart(live[k]));
    }
    assert forall|a: int| 0 <= a < holes.len() implies (#[trigger] holes[a]).apart(span) by {
        assert(live[k].apart(holes[a]));
    }
    assert forall|a: int| 0 <= a < v.free.len() implies (#[trigger] v.free[a]).apart(span) by {
        assert(live[k].apart(v.free[a]));
    }
    assert(below(rest, w.bump));
    assert(below(collected, w.bump)) by {
        assert forall|a: int| 0 <= a < collected.len() implies 0 <= (#[trigger] collected[a]).start
            && collected[a].len > 0 && collected[a].end() <= w.bump by {
            if a < holes.len() {
                assert(collected[a] == holes[a]);
            }
        }
    }
    assert(below(v.free, w.bump)) by {
        assert forall|a: int| 0 <= a < v.free.len() implies 0 <= (#[trigger] v.free[a]).start
            && v.free[a].len > 0 && v.free[a].end() <= w.bump by {
            assert(v.free[a].apart(span));
        }
    }
    assert(all_apart(rest)) by {
        assert forall|a: int, b: int|
            0 <= a < rest.len() && 0 <= b < rest.len() && a != b implies (#[trigger] rest[a]).apart(
            #[trigger] rest[b],
        ) by {
            let a2 = if a < k {
                a
            } else {
                a + 1
            };
            let b2 = if b < k {
                b
            } else {
                b + 1
            };
            assert(live[a2].apart(live[b2]));
        }
    }
    assert(all_apart(collected)) by {
        assert forall|a: int, b: int|
            0 <= a < collected.len() && 0 <= b < collected.len() && a != b implies (
        #[trigger] collected[a]).apart(#[trigger] collected[b]) by {
            if a < holes.len() && b < holes.len() {
                assert(holes[a].apart(holes[b]));
            } else if a < holes.len() {
                assert(holes[a].apart(span));
            } else {
                assert(holes[b].apart(span));
            }
        }
    }
    assert(apart_lists(rest, collected)) by {
        assert forall|a: int, b: int|
            0 <= a < rest.len() && 0 <= b < collected.len() implies (#[trigger] rest[a]).apart(
            #[trigger] collected[b],
        ) by {
            let a2 = if a < k {
                a
            } else {
                a + 1
            };
            if b < holes.len() {
                assert(live[a2].apart(holes[b]));
            } else {
                assert(rest[a].apart(span));
            }
        }
    }
    assert(apart_lists(rest, v.free)) by {
        assert forall|a: int, b: int|
            0 <= a < rest.len() && 0 <= b < v.free.len() implies (#[trigger] rest[a]).apart(
            #[trigger] v.free[b],
        ) by {
            let a2 = if a < k {
                a
            } else {
                a + 1
            };
            assert(live[a2].apart(v.free[b]));
        }
    }
    assert(apart_lists(collected, v.free)) by {
        assert forall|a: int, b: int|
            0 <= a < collected.len() && 0 <= b < v.free.len() implies (
        #[trigger] collected[a]).apart(#[trigger] v.free[b]) by {
            if a < holes.len() {
                assert(holes[a].apart(v.free[b]));
            } else {
                assert(v.free[b].apart(span));
            }
        }
    }
}

/// The free list made at the end of a sweep overlaps no allocation, and its ranges do not
/// overlap each other.
pub proof fn law_sweep_disjoint(v: ArenaView, live: Seq<Span>, holes: Seq<Span>)
    requires
        v.disjoint(live, holes),
    ensures
        v.after_sweep(holes).disjoint(live, Seq::empty()),
{
    if v.live != 0 {
        lemma_sort_ordered(holes, v.bump);
        let s = sort_spans(holes);
        assert forall|a: int, b: int| 0 <= a < live.len() && 0 <= b < s.len() implies (
        #[trigger] live[a]).apart(#[trigger] s[b]) by {
            let m = choose|m: int| 0 <= m < holes.len() && holes[m] == s[b];
            assert(live[a].apart(holes[m]));
        }
        lemma_merge_ordered(s, live, v.bump);
        let f = merge_spans(s);
        assert forall|a: int, b: int| 0 <= a < f.len() && 0 <= b < f.len() && a != b implies (
        #[trigger] f[a]).apart(#[trigger] f[b]) by {
            if a < b {
                assert(f[a].end() <= f[b].start);
            } else {
                assert(f[b].end() <= f[a].start);
            }
        }
    }
}

/// Some range of the list holds the offset.
pub open spec fn covers(s: Seq<Span>, offset: int) -> bool {
    exists|i: int| 0 <= i < s.len() && (#[trigger] s[i]).start <= offset < s[i].end()
}

proof fn lemma_covers_push(s: Seq<Span>, h: Span, offset: int)
    ensures
        covers(s.push(h), offset) <==> covers(s, offset) || h.start <= offset < h.end(),
{
    let r = s.push(h);
    if covers(s, offset) {
        let i = choose|i: int|
            0 <= i < s.len() && (#[trigger] s[i]).start <= offset < s[i].end();
        assert(r[i] == s[i]);
    }
    if h.start <= offset < h.end() {
        assert(r[s.len() as int] == h);
    }
    if covers(r, offset) {
        let i = choose|i: int|
            0 <= i < r.len() && (#[trigger] r[i]).start <= offset < r[i].end();
        if i < s.len() {
            assert(s[i] == r[i]);
        }
    }
}

proof fn lemma_insert_covers(s: Seq<Span>, h: Span, offset: int)
    ensures
        covers(insert_span(s, h), offset) <==> covers(s, offset) || h.start <= offset < h.end(),
    decreases s.len(),
{
    if s.len() == 0 || s.last().start <= h.start {
        lemma_covers_push(s, h, offset);
    } else {
        let d = s.drop_last();
        assert(s =~= d.push(s.last()));
        lemma_insert_covers(d, h, offset);
        lemma_covers_push(insert_span(d, h), s.last(), offset);
        lemma_covers_push(d, s.last(), offset);
    }
}

proof fn lemma_sort_covers(s: Seq<Span>, offset: int)
    ensures
        covers(sort_spans(s), offset) <==> covers(s, offset),
    decreases s.len(),
{
    if s.len() > 0 {
        let d = s.drop_last();
        assert(s =~= d.push(s.last()));
        lemma_sort_covers(d, offset);
        lemma_insert_covers(sort_spans(d), s.last(), offset);
        lemma_covers_push(d, s.last(), offset);
    }
}

proof fn lemma_merge_covers(s: Seq<Span>, top: int, offset: int)
    requires
        ordered(s),
        below(s, top),
    ensures
        covers(merge_spans(s), offset) <==> covers(s, offset),
        forall|i: int|
            0 <= i < merge_spans(s).len() - 1 ==> (#[trigger] merge_spans(s)[i]).end()
                < merge_spans(s)[i + 1].start,
    decreases s.len(),
{
    if s.len() > 1 {
        let d = s.drop_last();
        let m = merge_spans(d);
        let r = merge_spans(s);
        let last = s.last();
        assert(s =~= d.push(last));
        lemma_merge_covers(d, top, offset);
        lemma_merge_ordered(d, Seq::empty(), top);
        lemma_covers_push(d, last, offset);
        assert(s[s.len() - 2].end() <= s[s.len() - 1].start);
        assert(s[s.len() - 1].len > 0);
        assert(m[m.len() - 1].len > 0);
        if m.last().end() == last.start {
            let n = m.drop_last();
            let joined = Span { start: m.last().start, len: m.last().len + last.len };
            assert(m =~= n.push(m.last()));
            lemma_covers_push(n, m.last(), offset);
            lemma_covers_push(n, joined, offset);
        } else {
            lemma_covers_push(m, last, offset);
        }
        assert forall|i: int| 0 <= i < r.len() - 1 implies (#[trigger] r[i]).end() < r[i
            + 1].start by {
            if i < m.len() - 1 {
                assert(m[i].end() < m[i + 1].start);
            }
        }
    }
}

/// The free list made at the end of a sweep, from holes that do not overlap: it is sorted, no
/// range of it ends where the next one begins, and it holds exactly the bytes of the holes.
pub proof fn law_free_list(holes: Seq<Span>, top: int, offset: int)
    requires
        below(holes, top),
        all_apart(holes),
    ensures
        ({
            let free = merge_spans(sort_spans(holes));
            &&& below(free, top)
            &&& forall|i: int, j: int|
                0 <= i < j < free.len() ==> (#[trigger] free[i]).end() < (#[trigger] free[j]).start
            &&& covers(free, offset) <==> covers(holes, offset)
        }),
{
    let s = sort_spans(holes);
    let free = merge_spans(s);
    lemma_sort_ordered(holes, top);
    lemma_merge_ordered(s, Seq::empty(), top);
    lemma_sort_covers(holes, offset);
    lemma_merge_covers(s, top, offset);
    assert forall|i: int, j: int| 0 <= i < j < free.len() implies (#[trigger] free[i]).end() < (
    #[trigger] free[j]).start by {
        assert(free[i].end() < free[i + 1].start);
        if i + 1 < j {
            assert(free[i + 1].end() <= free[j].start);
            assert(free[i + 1].len > 0);
        }
    }
}

} // verus!
