use vstd::arithmetic::div_mod::{lemma_fundamental_div_mod, lemma_mod_multiples_basic, lemma_small_mod};
use vstd::prelude::*;

verus! {

/// Why a request to the early allocator was turned down.
#[derive(Clone, Copy, Debug, PartialEq, Eq, Structural)]
pub enum AllocError {
    /// The gap between the two cursors cannot hold the request.
    NoMemory,
    /// The operation is not offered during the early phase.
    Unsupported,
}

/// Abstract state of an arena: its bounds, the two cursors and the number of
/// byte allocations not yet released.
pub struct ArenaView {
    pub start: nat,
    pub end: nat,
    pub byte_cursor: nat,
    pub page_cursor: nat,
    pub live: nat,
}

impl ArenaView {
    /// The two regions never cross, and the byte region is empty whenever
    /// no byte allocation is outstanding.
    pub open spec fn wf(self) -> bool {
        &&& self.start <= self.byte_cursor
        &&& self.byte_cursor <= self.page_cursor
        &&& self.page_cursor <= self.end
        &&& self.end <= usize::MAX
        &&& (self.live == 0 ==> self.byte_cursor == self.start)
    }

    /// The page region is made of whole pages.
    pub open spec fn pages_whole(self, page_size: nat) -> bool {
        page_size > 0 ==> (self.end - self.page_cursor) % (page_size as int) == 0
    }
}

/// The smallest multiple of `align` that is at least `x`.
pub open spec fn align_up(x: nat, align: nat) -> nat
    recommends
        align > 0,
{
    if x % align == 0 {
        x
    } else {
        (x + (align - x % align)) as nat
    }
}

/// Whether `size` bytes aligned to `align` fit in the gap, leaving it non-empty.
pub open spec fn bytes_fit(v: ArenaView, size: nat, align: nat) -> bool {
    align_up(v.byte_cursor, align) + size < v.page_cursor
}

/// The arena after a successful byte allocation.
pub open spec fn after_alloc(v: ArenaView, size: nat, align: nat) -> ArenaView {
    ArenaView {
        byte_cursor: align_up(v.byte_cursor, align) + size,
        live: v.live + 1,
        ..v
    }
}

/// The arena after one byte allocation is released.
pub open spec fn after_release(v: ArenaView) -> ArenaView
    recommends
        v.live > 0,
{
    if v.live <= 1 {
        ArenaView { byte_cursor: v.start, live: 0, ..v }
    } else {
        ArenaView { live: (v.live - 1) as nat, ..v }
    }
}

/// Whether `count` pages can be taken from the top while keeping a gap.
pub open spec fn pages_fit(v: ArenaView, count: nat, page_size: nat) -> bool {
    v.page_cursor - count * page_size > v.byte_cursor
}

/// The arena after `count` pages were taken from the top.
pub open spec fn after_pages(v: ArenaView, count: nat, page_size: nat) -> ArenaView {
    ArenaView { page_cursor: (v.page_cursor - count * page_size) as nat, ..v }
}

/// The arena after `n` releases in a row.
pub open spec fn after_releases(v: ArenaView, n: nat) -> ArenaView
    decreases n,
{
    if n == 0 {
        v
    } else {
        after_releases(after_release(v), (n - 1) as nat)
    }
}

/// Early memory allocator over one address range: bytes are handed out
/// forward from the start, pages backward from the end.
///
/// ```text
/// [ bytes-used | avail-area | pages-used ]
/// |            | -->    <-- |            |
/// start       b_pos        p_pos       end
/// ```
///
/// The byte region is given back as a whole once every byte allocation has
/// been released; pages are never given back.
pub struct EarlyAllocator<const PAGE_SIZE: usize> {
    start: usize,
    end: usize,
    b_pos: usize,
    p_pos: usize,
    count: usize,
}

impl<const PAGE_SIZE: usize> View for EarlyAllocator<PAGE_SIZE> {
    type V = ArenaView;

    closed spec fn view(&self) -> ArenaView {
        ArenaView {
            start: self.start as nat,
            end: self.end as nat,
            byte_cursor: self.b_pos as nat,
            page_cursor: self.p_pos as nat,
            live: self.count as nat,
        }
    }
}

impl<const PAGE_SIZE: usize> EarlyAllocator<PAGE_SIZE> {
    /// Everything the allocator keeps true between calls.
    pub open spec fn inv(&self) -> bool {
        &&& self@.wf()
        &&& self@.pages_whole(PAGE_SIZE as nat)
    }

    /// An allocator over the empty range at address zero; `init` gives it memory.
    pub fn new() -> (r: Self)
        ensures
            r.inv(),
            r@ == (ArenaView { start: 0, end: 0, byte_cursor: 0, page_cursor: 0, live: 0 }),
    {
        proof {
            if PAGE_SIZE > 0 {
                lemma_small_mod(0, PAGE_SIZE as nat);
            }
        }
        Self { start: 0, end: 0, b_pos: 0, p_pos: 0, count: 0 }
    }

    /// Gives the allocator the range `[start, start + size)`, forgetting
    /// everything it handed out before.
    pub fn init(&mut self, start: usize, size: usize)
        requires
            start + size <= usize::MAX,
        ensures
            final(self).inv(),
            final(self)@ == (ArenaView {
                start: start as nat,
                end: (start + size) as nat,
                byte_cursor: start as nat,
                page_cursor: (start + size) as nat,
                live: 0,
            }),
    {
        self.start = start;
        self.end = start + size;
        self.b_pos = start;
        self.p_pos = self.end;
        self.count = 0;
        proof {
            if PAGE_SIZE > 0 {
                lemma_small_mod(0, PAGE_SIZE as nat);
            }
        }
    }

    /// Growing the range after `init` is not offered.
    pub fn add_memory(&mut self, _start: usize, _size: usize) -> (r: Result<(), AllocError>)
        ensures
            r == Err::<(), AllocError>(AllocError::Unsupported),
            *final(self) == *old(self),
    {
        Err(AllocError::Unsupported)
    }

    /// Hands out `size` bytes aligned to `align` from the bottom of the gap.
    pub fn alloc_bytes(&mut self, size: usize, align: usize) -> (r: Result<usize, AllocError>)
        requires
            old(self).inv(),
            align > 0,
            old(self)@.live < usize::MAX,
        ensures
            final(self).inv(),
            r is Ok <==> bytes_fit(old(self)@, size as nat, align as nat),
            match r {
                Ok(addr) => {
                    &&& addr == align_up(old(self)@.byte_cursor, align as nat)
                    &&& addr % align == 0
                    &&& old(self)@.byte_cursor <= addr
                    &&& final(self)@ == after_alloc(old(self)@, size as nat, align as nat)
                },
                Err(e) => {
                    &&& e == AllocError::NoMemory
                    &&& final(self)@ == old(self)@
                },
            },
    {
        let rem = self.b_pos % align;
        let aligned: usize;
        if rem == 0 {
            aligned = self.b_pos;
        } else {
            let pad = align - rem;
            if self.b_pos > usize::MAX - pad {
                return Err(AllocError::NoMemory);
            }
            aligned = self.b_pos + pad;
        }
        if aligned > usize::MAX - size {
            return Err(AllocError::NoMemory);
        }
        proof {
            lemma_align_up(self.b_pos as nat, align as nat);
        }
        if aligned + size < self.p_pos {
            self.b_pos = aligned + size;
            self.count = self.count + 1;
            Ok(aligned)
        } else {
            Err(AllocError::NoMemory)
        }
    }

    /// Releases one byte allocation; once none is left, the whole byte
    /// region is given back.
    pub fn dealloc(&mut self, _pos: usize, _size: usize, _align: usize)
        requires
            old(self).inv(),
            old(self)@.live > 0,
        ensures
            final(self).inv(),
            final(self)@ == after_release(old(self)@),
    {
        self.count = self.count - 1;
        if self.count == 0 {
            self.b_pos = self.start;
        }
    }

    /// Bytes taken by the byte region.
    pub fn total_bytes(&self) -> (r: usize)
        requires
            self.inv(),
        ensures
            r == self@.byte_cursor - self@.start,
    {
        self.b_pos - self.start
    }

    /// Bytes taken by the byte region.
    pub fn used_bytes(&self) -> (r: usize)
        requires
            self.inv(),
        ensures
            r == self@.byte_cursor - self@.start,
    {
        self.b_pos - self.start
    }

    /// Bytes left in the gap between the two regions.
    pub fn available_bytes(&self) -> (r: usize)
        requires
            self.inv(),
        ensures
            r == self@.page_cursor - self@.byte_cursor,
    {
        self.p_pos - self.b_pos
    }

    /// Takes `num_pages` pages from the top of the gap. Pages are always
    /// aligned to the page size when the range ends on a page boundary, so
    /// `align_pow2` asks for nothing more.
    pub fn alloc_pages(&mut self, num_pages: usize, _align_pow2: usize) -> (r: Result<usize, AllocError>)
        requires
            old(self).inv(),
            PAGE_SIZE > 0,
        ensures
            final(self).inv(),
            r is Ok <==> pages_fit(old(self)@, num_pages as nat, PAGE_SIZE as nat),
            match r {
                Ok(addr) => {
                    &&& addr == old(self)@.page_cursor - num_pages * PAGE_SIZE
                    &&& final(self)@ == after_pages(old(self)@, num_pages as nat, PAGE_SIZE as nat)
                    &&& addr > old(self)@.byte_cursor
                    &&& (old(self)@.end % PAGE_SIZE as nat == 0 ==> addr % PAGE_SIZE == 0)
                },
                Err(e) => {
                    &&& e == AllocError::NoMemory
                    &&& final(self)@ == old(self)@
                },
            },
    {
        match num_pages.checked_mul(PAGE_SIZE) {
            None => Err(AllocError::NoMemory),
            Some(bytes) => {
                if bytes >= self.p_pos {
                    Err(AllocError::NoMemory)
                } else if self.p_pos - bytes > self.b_pos {
                    proof {
                        lemma_page_step(
                            self.end as int,
                            self.p_pos as int,
                            num_pages as int,
                            PAGE_SIZE as int,
                        );
                    }
                    self.p_pos = self.p_pos - bytes;
                    Ok(self.p_pos)
                } else {
                    Err(AllocError::NoMemory)
                }
            },
        }
    }

    /// Pages are never given back during the early phase.
    pub fn dealloc_pages(&mut self, _pos: usize, _num_pages: usize) -> (r: Result<(), AllocError>)
        ensures
            r == Err::<(), AllocError>(AllocError::Unsupported),
            *final(self) == *old(self),
    {
        Err(AllocError::Unsupported)
    }

    /// Pages taken by the page region.
    pub fn total_pages(&self) -> (r: usize)
        requires
            self.inv(),
            PAGE_SIZE > 0,
        ensures
            r == (self@.end - self@.page_cursor) / (PAGE_SIZE as int),
    {
        (self.end - self.p_pos) / PAGE_SIZE
    }

    /// Pages taken by the page region.
    pub fn used_pages(&self) -> (r: usize)
        requires
            self.inv(),
            PAGE_SIZE > 0,
        ensures
            r == (self@.end - self@.page_cursor) / (PAGE_SIZE as int),
    {
        (self.end - self.p_pos) / PAGE_SIZE
    }

    /// Whole pages that still fit in the gap between the two regions.
    pub fn available_pages(&self) -> (r: usize)
        requires
            self.inv(),
            PAGE_SIZE > 0,
        ensures
            r == (self@.page_cursor - self@.byte_cursor) / (PAGE_SIZE as int),
    {
        (self.p_pos - self.b_pos) / PAGE_SIZE
    }
}

/// Taking whole pages keeps the page region whole, and keeps its base on a
/// page boundary when the range ends on one.
proof fn lemma_page_step(end: int, p: int, n: int, ps: int)
    requires
        ps > 0,
        n >= 0,
        (end - p) % ps == 0,
    ensures
        (end - (p - n * ps)) % ps == 0,
        end % ps == 0 ==> (p - n * ps) % ps == 0,
{
    let q = (end - p) / ps;
    lemma_fundamental_div_mod(end - p, ps);
    assert(end - (p - n * ps) == (q + n) * ps) by (nonlinear_arith)
        requires
            end - p == ps * q,
    ;
    lemma_mod_multiples_basic(q + n, ps);
    if end % ps == 0 {
        let e = end / ps;
        lemma_fundamental_div_mod(end, ps);
        assert(p - n * ps == (e - q - n) * ps) by (nonlinear_arith)
            requires
                end - p == ps * q,
                end == ps * e,
        ;
        lemma_mod_multiples_basic(e - q - n, ps);
    }
}

/// `align_up` is a multiple of `align`, at least `x`, and below `x + align`.
pub proof fn lemma_align_up(x: nat, align: nat)
    requires
        align > 0,
    ensures
        align_up(x, align) % align == 0,
        x <= align_up(x, align) < x + align,
{
    let q = x as int / align as int;
    let r = x as int % align as int;
    lemma_fundamental_div_mod(x as int, align as int);
    if r != 0 {
        assert(align_up(x, align) == (q + 1) * align) by (nonlinear_arith)
            requires
                x == align * q + r,
                align_up(x, align) == x + (align - r),
        ;
        lemma_mod_multiples_basic(q + 1, align as int);
    }
}

/// No multiple of `align` lies between `x` and `align_up(x, align)`.
proof fn lemma_align_up_least(x: nat, align: nat, m: nat)
    requires
        align > 0,
        m % align == 0,
        x <= m,
    ensures
        align_up(x, align) <= m,
{
    let q = x as int / align as int;
    let r = x as int % align as int;
    let k = m as int / align as int;
    lemma_fundamental_div_mod(x as int, align as int);
    lemma_fundamental_div_mod(m as int, align as int);
    if r != 0 {
        assert(k >= q + 1) by (nonlinear_arith)
            requires
                x == align * q + r,
                m == align * k,
                0 < r < align,
                x <= m,
        ;
        assert(align_up(x, align) <= m) by (nonlinear_arith)
            requires
                k >= q + 1,
                align > 0,
                x == align * q + r,
                m == align * k,
                align_up(x, align) == x + (align - r),
        ;
    }
}

/// Rounding up keeps order.
pub proof fn lemma_align_up_monotone(x: nat, y: nat, align: nat)
    requires
        align > 0,
        x <= y,
    ensures
        align_up(x, align) <= align_up(y, align),
{
    lemma_align_up(y, align);
    lemma_align_up_least(x, align, align_up(y, align));
}

/// A run of successful byte allocations.
pub open spec fn byte_run(states: Seq<ArenaView>, sizes: Seq<nat>, aligns: Seq<nat>) -> bool {
    &&& states.len() == sizes.len() + 1
    &&& aligns.len() == sizes.len()
    &&& forall|i: int|
        0 <= i < sizes.len() ==> {
            &&& aligns[i] > 0
            &&& bytes_fit(#[trigger] states[i], sizes[i], aligns[i])
            &&& states[i + 1] == after_alloc(states[i], sizes[i], aligns[i])
        }
}

/// The address that step `i` of a byte run handed out.
pub open spec fn run_addr(states: Seq<ArenaView>, aligns: Seq<nat>, i: int) -> nat {
    align_up(states[i].byte_cursor, aligns[i])
}

proof fn lemma_run_cursor_monotone(
    states: Seq<ArenaView>,
    sizes: Seq<nat>,
    aligns: Seq<nat>,
    i: int,
    j: int,
)
    requires
        byte_run(states, sizes, aligns),
        0 <= i <= j < states.len(),
    ensures
        states[i].byte_cursor <= states[j].byte_cursor,
    decreases j - i,
{
    if i < j {
        lemma_run_cursor_monotone(states, sizes, aligns, i, j - 1);
        let k = j - 1;
        assert(bytes_fit(states[k], sizes[k], aligns[k]));
        lemma_align_up(states[k].byte_cursor, aligns[k]);
    }
}

/// Along any run of successful byte allocations, every address handed out
/// meets its alignment, and the ranges handed out are pairwise disjoint:
/// each one ends before any later one begins.
pub proof fn lemma_byte_allocations_disjoint(
    states: Seq<ArenaView>,
    sizes: Seq<nat>,
    aligns: Seq<nat>,
)
    requires
        byte_run(states, sizes, aligns),
    ensures
        forall|i: int|
            0 <= i < sizes.len() ==> #[trigger] run_addr(states, aligns, i) % aligns[i] == 0,
        forall|i: int, j: int|
            0 <= i < j < sizes.len() ==> #[trigger] run_addr(states, aligns, i) + sizes[i]
                <= #[trigger] run_addr(states, aligns, j),
{
    assert forall|i: int| 0 <= i < sizes.len() implies #[trigger] run_addr(states, aligns, i)
        % aligns[i] == 0 by {
        assert(bytes_fit(states[i], sizes[i], aligns[i]));
        lemma_align_up(states[i].byte_cursor, aligns[i]);
    }
    assert forall|i: int, j: int| 0 <= i < j < sizes.len() implies #[trigger] run_addr(
        states,
        aligns,
        i,
    ) + sizes[i] <= #[trigger] run_addr(states, aligns, j) by {
        assert(bytes_fit(states[i], sizes[i], aligns[i]));
        assert(bytes_fit(states[j], sizes[j], aligns[j]));
        lemma_run_cursor_monotone(states, sizes, aligns, i + 1, j);
        lemma_align_up(states[j].byte_cursor, aligns[j]);
    }
}

/// Releasing as many byte allocations as are outstanding brings the byte
/// cursor back to the start of the range, and leaves the page region alone.
pub proof fn lemma_release_all_resets(v: ArenaView, n: nat)
    requires
        v.wf(),
        v.live == n,
    ensures
        after_releases(v, n).byte_cursor == v.start,
        after_releases(v, n).live == 0,
        after_releases(v, n).start == v.start,
        after_releases(v, n).page_cursor == v.page_cursor,
        after_releases(v, n).end == v.end,
    decreases n,
{
    if n > 0 {
        lemma_release_all_resets(after_release(v), (n - 1) as nat);
    }
}

/// Once every byte allocation has been released, a byte request that fitted
/// before fits again, provided the page region has not grown meanwhile.
pub proof fn lemma_refit_after_release(before: ArenaView, after: ArenaView, size: nat, align: nat)
    requires
        before.wf(),
        after.wf(),
        after.live == 0,
        after.start == before.start,
        before.page_cursor <= after.page_cursor,
        align > 0,
        bytes_fit(before, size, align),
    ensures
        bytes_fit(after, size, align),
{
    lemma_align_up_monotone(after.byte_cursor, before.byte_cursor, align);
}

} // verus!
