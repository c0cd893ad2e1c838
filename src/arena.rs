use vstd::prelude::*;

verus! {

/// Index value that stands for "no record" in every link held by arena records.
pub const INVALID_INDEX: u32 = 0xffff_ffff;

/// Failures of arena and tree operations.
#[derive(Clone, Copy, Debug, PartialEq, Eq, Structural)]
pub enum ArenaError {
    /// A capacity of zero, or one equal to the sentinel index, was asked for.
    InvalidCapacity,
    /// `alloc` found no free slot.
    CapacityExhausted,
    /// `free` was given an index that is already free.
    DoubleFree,
    /// A link names a slot that is out of range or not allocated.
    InvalidIndex,
}

/// One call on an arena, as used by the laws over call sequences.
pub ghost enum ArenaOp {
    Alloc,
    Free(u32),
}

/// Mathematical model of an arena: the slot contents, the free stack (bottom first) and
/// the fixed capacity.
pub ghost struct ArenaView<T> {
    pub slots: Seq<T>,
    pub free: Seq<u32>,
    pub capacity: nat,
}

impl<T> ArenaView<T> {
    pub open spec fn wf(self) -> bool {
        &&& 0 < self.capacity < INVALID_INDEX
        &&& self.slots.len() == self.capacity
        &&& self.free.len() <= self.capacity
        &&& self.free.no_duplicates()
        &&& forall|k: int| 0 <= k < self.free.len() ==> (#[trigger] self.free[k] as nat) < self.capacity
    }

    pub open spec fn in_range(self, i: u32) -> bool {
        (i as nat) < self.capacity
    }

    pub open spec fn is_free(self, i: u32) -> bool {
        self.free.contains(i)
    }

    /// Indices handed out by `alloc` and not freed since.
    pub open spec fn live(self) -> Set<int> {
        Set::new(|i: int| 0 <= i < self.capacity && !self.is_free(i as u32))
    }

    pub open spec fn current_size(self) -> int {
        self.capacity - self.free.len()
    }

    /// The index that the next `alloc` hands out.
    pub open spec fn next_index(self) -> u32 {
        self.free.last()
    }

    pub open spec fn with_slot(self, i: u32, v: T) -> ArenaView<T> {
        ArenaView { slots: self.slots.update(i as int, v), ..self }
    }

    pub open spec fn after_alloc(self) -> ArenaView<T> {
        if self.free.len() > 0 {
            ArenaView { free: self.free.drop_last(), ..self }
        } else {
            self
        }
    }

    pub open spec fn after_free(self, i: u32) -> ArenaView<T> {
        if self.in_range(i) && !self.is_free(i) {
            ArenaView { free: self.free.push(i), ..self }
        } else {
            self
        }
    }

    pub open spec fn step(self, op: ArenaOp) -> ArenaView<T> {
        match op {
            ArenaOp::Alloc => self.after_alloc(),
            ArenaOp::Free(i) => self.after_free(i),
        }
    }

    /// The state after performing `ops` in order.
    pub open spec fn run(self, ops: Seq<ArenaOp>) -> ArenaView<T>
        decreases ops.len(),
    {
        if ops.len() == 0 {
            self
        } else {
            self.run(ops.drop_last()).step(ops.last())
        }
    }

    /// Some `alloc` among `ops` hands out index `i`.
    pub open spec fn hands_out(self, ops: Seq<ArenaOp>, i: u32) -> bool {
        exists|k: int|
            0 <= k < ops.len() && ops[k] == ArenaOp::Alloc && #[trigger] self.run(ops.take(k)).free.len()
                > 0 && self.run(ops.take(k)).next_index() == i
    }
}

/// An element-by-element copy of `v`.
pub fn copy_vec<U: Copy>(v: &Vec<U>) -> (r: Vec<U>)
    ensures
        r@ == v@,
{
    let mut out: Vec<U> = Vec::new();
    let mut k: usize = 0;
    while k < v.len()
        invariant
            k <= v.len(),
            out@ == v@.take(k as int),
        decreases v.len() - k,
    {
        out.push(v[k]);
        k = k + 1;
        assert(out@ =~= v@.take(k as int));
    }
    assert(v@.take(v.len() as int) =~= v@);
    out
}

/// Fixed-capacity slot storage with a stack of free indices.
pub struct Arena<T> {
    slots: Vec<T>,
    free_stack: Vec<u32>,
    free_flags: Vec<bool>,
    free_ptr: u32,
    max_size: u32,
}

impl<T> View for Arena<T> {
    type V = ArenaView<T>;

    closed spec fn view(&self) -> ArenaView<T> {
        ArenaView {
            slots: self.slots@,
            free: self.free_stack@.take(self.free_ptr as int),
            capacity: self.max_size as nat,
        }
    }
}

impl<T: Copy> Arena<T> {
    pub closed spec fn wf(&self) -> bool {
        &&& self@.wf()
        &&& self.free_stack@.len() == self.max_size
        &&& self.free_flags@.len() == self.max_size
        &&& self.free_ptr <= self.max_size
        &&& forall|i: u32|
            (i as nat) < self.max_size ==> (#[trigger] self.free_flags@[i as int] <==> self@.is_free(i))
    }

    pub proof fn lemma_wf(&self)
        requires
            self.wf(),
        ensures
            self@.wf(),
    {
    }

    /// A new arena of `capacity` copies of `blank`, with every index free; the first
    /// `alloc` hands out the highest index.
    pub fn new(capacity: u32, blank: T) -> (r: Result<Arena<T>, ArenaError>)
        ensures
            r is Err <==> capacity == 0 || capacity == INVALID_INDEX,
            r is Err ==> r == Err::<Arena<T>, ArenaError>(ArenaError::InvalidCapacity),
            r matches Ok(a) ==> {
                &&& a.wf()
                &&& a@.capacity == capacity
                &&& a@.slots == Seq::new(capacity as nat, |i: int| blank)
                &&& a@.free == Seq::new(capacity as nat, |i: int| i as u32)
            },
    {
        if capacity == 0 || capacity == INVALID_INDEX {
            return Err(ArenaError::InvalidCapacity);
        }
        let mut slots: Vec<T> = Vec::new();
        let mut free_stack: Vec<u32> = Vec::new();
        let mut free_flags: Vec<bool> = Vec::new();
        let mut i: u32 = 0;
        while i < capacity
            invariant
                i <= capacity,
                slots@ == Seq::new(i as nat, |k: int| blank),
                free_stack@ == Seq::new(i as nat, |k: int| k as u32),
                free_flags@ == Seq::new(i as nat, |k: int| true),
            decreases capacity - i,
        {
            slots.push(blank);
            free_stack.push(i);
            free_flags.push(true);
            i = i + 1;
            assert(slots@ =~= Seq::new(i as nat, |k: int| blank));
            assert(free_stack@ =~= Seq::new(i as nat, |k: int| k as u32));
            assert(free_flags@ =~= Seq::new(i as nat, |k: int| true));
        }
        let a = Arena { slots, free_stack, free_flags, free_ptr: capacity, max_size: capacity };
        assert(a@.free =~= Seq::new(capacity as nat, |k: int| k as u32));
        assert forall|j: u32| (j as nat) < a.max_size implies (#[trigger] a.free_flags@[j as int] <==> a@.is_free(j)) by {
            assert(a@.free[j as int] == j);
        }
        Ok(a)
    }

    /// A second arena with the same contents, free stack and capacity.
    pub fn duplicate(&self) -> (r: Arena<T>)
        requires
            self.wf(),
        ensures
            r.wf(),
            r@ == self@,
    {
        Arena {
            slots: copy_vec(&self.slots),
            free_stack: copy_vec(&self.free_stack),
            free_flags: copy_vec(&self.free_flags),
            free_ptr: self.free_ptr,
            max_size: self.max_size,
        }
    }

    /// Number of slots.
    pub fn size(&self) -> (r: u32)
        requires
            self.wf(),
        ensures
            r == self@.capacity,
    {
        self.max_size
    }

    /// Number of allocated slots.
    pub fn current_size(&self) -> (r: u32)
        requires
            self.wf(),
        ensures
            r == self@.current_size(),
    {
        self.max_size - self.free_ptr
    }

    /// Height of the free stack.
    pub fn free_count(&self) -> (r: u32)
        requires
            self.wf(),
        ensures
            r == self@.free.len(),
    {
        self.free_ptr
    }

    /// The free stack, bottom first.
    pub fn free_stack(&self) -> (r: Vec<u32>)
        requires
            self.wf(),
        ensures
            r@ == self@.free,
    {
        let mut out: Vec<u32> = Vec::new();
        let mut k: u32 = 0;
        while k < self.free_ptr
            invariant
                self.wf(),
                k <= self.free_ptr,
                out@ == self@.free.take(k as int),
            decreases self.free_ptr - k,
        {
            out.push(self.free_stack[k as usize]);
            k = k + 1;
            assert(out@ =~= self@.free.take(k as int));
        }
        assert(self@.free.take(self.free_ptr as int) =~= self@.free);
        out
    }

    /// Whether slot `i` is on the free stack.
    pub fn is_free(&self, i: u32) -> (r: bool)
        requires
            self.wf(),
            self@.in_range(i),
        ensures
            r == self@.is_free(i),
    {
        self.free_flags[i as usize]
    }

    pub fn get(&self, i: u32) -> (r: T)
        requires
            self.wf(),
            self@.in_range(i),
        ensures
            r == self@.slots[i as int],
    {
        self.slots[i as usize]
    }

    pub fn set(&mut self, i: u32, v: T)
        requires
            old(self).wf(),
            old(self)@.in_range(i),
        ensures
            final(self).wf(),
            final(self)@ == old(self)@.with_slot(i, v),
    {
        self.slots.set(i as usize, v);
        assert(self@.slots =~= old(self)@.slots.update(i as int, v));
    }

    /// Pops the free stack. The slot keeps whatever its previous tenant left there.
    pub fn allocate(&mut self) -> (r: Result<u32, ArenaError>)
        requires
            old(self).wf(),
        ensures
            final(self).wf(),
            final(self)@ == old(self)@.step(ArenaOp::Alloc),
            r is Err <==> old(self)@.free.len() == 0,
            r is Err ==> r == Err::<u32, ArenaError>(ArenaError::CapacityExhausted),
            r matches Ok(i) ==> i == old(self)@.next_index() && final(self)@.live() == old(self)@.live().insert(i as int),
    {
        if self.free_ptr == 0 {
            return Err(ArenaError::CapacityExhausted);
        }
        let ghost pre = self@;
        self.free_ptr = self.free_ptr - 1;
        let i = self.free_stack[self.free_ptr as usize];
        assert(pre.free[pre.free.len() - 1] == i);
        self.free_flags.set(i as usize, false);
        assert(self@.free =~= pre.free.drop_last());
        assert forall|j: u32| (j as nat) < self.max_size implies (#[trigger] self.free_flags@[j as int] <==> self@.is_free(j)) by {
            if j == i {
                if self@.free.contains(i) {
                    let k = choose|k: int| 0 <= k < self@.free.len() && self@.free[k] == i;
                    assert(pre.free[k] == pre.free[pre.free.len() - 1]);
                }
            } else {
                if pre.free.contains(j) {
                    let k = choose|k: int| 0 <= k < pre.free.len() && pre.free[k] == j;
                    assert(self@.free[k] == j);
                }
                if self@.free.contains(j) {
                    let k = choose|k: int| 0 <= k < self@.free.len() && self@.free[k] == j;
                    assert(pre.free[k] == j);
                }
            }
        }
        assert(self@.live() =~= pre.live().insert(i as int));
        Ok(i)
    }

    /// Pushes `i` back onto the free stack; an index that is already free is refused.
    pub fn free(&mut self, i: u32) -> (r: Result<(), ArenaError>)
        requires
            old(self).wf(),
            old(self)@.in_range(i),
        ensures
            final(self).wf(),
            final(self)@ == old(self)@.step(ArenaOp::Free(i)),
            r is Err <==> old(self)@.is_free(i),
            r is Err ==> r == Err::<(), ArenaError>(ArenaError::DoubleFree),
            r is Ok ==> final(self)@.live() == old(self)@.live().remove(i as int),
    {
        if self.free_flags[i as usize] {
            return Err(ArenaError::DoubleFree);
        }
        let ghost pre = self@;
        proof {
            self.lemma_free_room(i);
        }
        self.free_stack.set(self.free_ptr as usize, i);
        self.free_ptr = self.free_ptr + 1;
        self.free_flags.set(i as usize, true);
        assert(self@.free =~= pre.free.push(i));
        assert forall|j: u32| (j as nat) < self.max_size implies (#[trigger] self.free_flags@[j as int] <==> self@.is_free(j)) by {
            if j != i {
                if self@.free.contains(j) {
                    let k = choose|k: int| 0 <= k < self@.free.len() && self@.free[k] == j;
                    assert(pre.free[k] == j);
                }
                if pre.free.contains(j) {
                    let k = choose|k: int| 0 <= k < pre.free.len() && pre.free[k] == j;
                    assert(self@.free[k] == j);
                }
            } else {
                assert(self@.free[pre.free.len() as int] == i);
            }
        }
        assert forall|j: u32| j != i implies (#[trigger] self@.is_free(j) <==> pre.is_free(j)) by {
            if self@.free.contains(j) {
                let k = choose|k: int| 0 <= k < self@.free.len() && self@.free[k] == j;
                assert(pre.free[k] == j);
            }
            if pre.free.contains(j) {
                let k = choose|k: int| 0 <= k < pre.free.len() && pre.free[k] == j;
                assert(self@.free[k] == j);
            }
        }
        assert(self@.is_free(i)) by {
            assert(self@.free[pre.free.len() as int] == i);
        }
        assert(self@.live() =~= pre.live().remove(i as int));
        Ok(())
    }

    /// An allocated index exists only while the free stack is not full.
    proof fn lemma_free_room(&self, i: u32)
        requires
            self.wf(),
            self@.in_range(i),
            !self@.is_free(i),
        ensures
            self.free_ptr < self.max_size,
    {
        lemma_free_stack_bound(self@, i);
    }
}

/// A free stack without duplicates that misses an in-range index is not full.
pub proof fn lemma_free_stack_bound<T>(v: ArenaView<T>, i: u32)
    requires
        v.wf(),
        v.in_range(i),
        !v.is_free(i),
    ensures
        v.free.len() < v.capacity,
{
    let s = v.free.map_values(|j: u32| j as int);
    let range = vstd::set_lib::set_int_range(0, v.capacity as int);
    vstd::set_lib::lemma_int_range(0, v.capacity as int);
    assert(s.no_duplicates()) by {
        assert forall|a: int, b: int| 0 <= a < s.len() && 0 <= b < s.len() && a != b implies s[a] != s[b] by {
            assert(v.free[a] != v.free[b]);
        }
    }
    s.unique_seq_to_set();
    assert forall|x: int| s.to_set().contains(x) implies range.remove(i as int).contains(x) by {
        let k = choose|k: int| 0 <= k < s.len() && s[k] == x;
        assert((v.free[k] as nat) < v.capacity);
        if x == i as int {
            assert(v.free[k] == i);
        }
    }
    vstd::set_lib::lemma_len_subset(s.to_set(), range.remove(i as int));
}

/// In a well-formed arena the allocated indices are exactly those off the free stack, and
/// there are as many of them as `current_size` says.
pub proof fn lemma_live_count<T>(v: ArenaView<T>)
    requires
        v.wf(),
    ensures
        v.live().finite(),
        v.live().len() == v.current_size(),
{
    let s = v.free.map_values(|j: u32| j as int);
    let range = vstd::set_lib::set_int_range(0, v.capacity as int);
    vstd::set_lib::lemma_int_range(0, v.capacity as int);
    assert(s.no_duplicates()) by {
        assert forall|a: int, b: int| 0 <= a < s.len() && 0 <= b < s.len() && a != b implies s[a] != s[b] by {
            assert(v.free[a] != v.free[b]);
        }
    }
    s.unique_seq_to_set();
    let f = s.to_set();
    assert(range.intersect(f) =~= f) by {
        assert forall|x: int| f.contains(x) implies range.contains(x) by {
            let k = choose|k: int| 0 <= k < s.len() && s[k] == x;
            assert((v.free[k] as nat) < v.capacity);
        }
    }
    assert(v.live() =~= range.difference(f)) by {
        assert forall|x: int| v.live().contains(x) <==> range.difference(f).contains(x) by {
            if 0 <= x < v.capacity {
                if v.free.contains(x as u32) {
                    let k = choose|k: int| 0 <= k < v.free.len() && v.free[k] == x as u32;
                    assert(s[k] == x);
                }
                if f.contains(x) {
                    let k = choose|k: int| 0 <= k < s.len() && s[k] == x;
                    assert(v.free[k] == x as u32);
                }
            }
        }
    }
    vstd::set_lib::lemma_set_difference_len(range, f);
}

/// Every call keeps an arena well formed.
pub proof fn lemma_step_wf<T>(v: ArenaView<T>, op: ArenaOp)
    requires
        v.wf(),
    ensures
        v.step(op).wf(),
{
    match op {
        ArenaOp::Alloc => {
            if v.free.len() > 0 {
                let w = v.step(op);
                assert forall|k: int| 0 <= k < w.free.len() implies (#[trigger] w.free[k] as nat) < w.capacity by {
                    assert(w.free[k] == v.free[k]);
                }
                assert forall|a: int, b: int| 0 <= a < w.free.len() && 0 <= b < w.free.len() && a != b implies w.free[a]
                    != w.free[b] by {
                    assert(w.free[a] == v.free[a] && w.free[b] == v.free[b]);
                }
            }
        },
        ArenaOp::Free(i) => {
            if v.in_range(i) && !v.is_free(i) {
                let w = v.step(op);
                lemma_free_stack_bound(v, i);
                assert forall|k: int| 0 <= k < w.free.len() implies (#[trigger] w.free[k] as nat) < w.capacity by {
                    if k < v.free.len() {
                        assert(w.free[k] == v.free[k]);
                    }
                }
                assert forall|a: int, b: int| 0 <= a < w.free.len() && 0 <= b < w.free.len() && a != b implies w.free[a]
                    != w.free[b] by {
                    if a < v.free.len() && b < v.free.len() {
                        assert(w.free[a] == v.free[a] && w.free[b] == v.free[b]);
                    } else if a < v.free.len() {
                        assert(w.free[a] == v.free[a]);
                        assert(v.free.contains(v.free[a]));
                    } else if b < v.free.len() {
                        assert(w.free[b] == v.free[b]);
                        assert(v.free.contains(v.free[b]));
                    }
                }
            }
        },
    }
}

/// Any sequence of `alloc` and `free` calls, whether each call succeeds or is refused,
/// leaves the arena well formed, with `current_size` equal to the number of indices
/// handed out and not freed since.
pub proof fn lemma_arena_round_trip<T>(v: ArenaView<T>, ops: Seq<ArenaOp>)
    requires
        v.wf(),
    ensures
        v.run(ops).wf(),
        v.run(ops).live().len() == v.run(ops).current_size(),
    decreases ops.len(),
{
    if ops.len() > 0 {
        lemma_arena_round_trip(v, ops.drop_last());
        lemma_step_wf(v.run(ops.drop_last()), ops.last());
    }
    lemma_live_count(v.run(ops));
}

/// Once index `i` is free, it stays free, so that every further `free(i)` is refused,
/// until some `alloc` hands it out again.
pub proof fn lemma_no_double_free<T>(v: ArenaView<T>, i: u32, ops: Seq<ArenaOp>)
    requires
        v.wf(),
        v.in_range(i),
        !v.step(ArenaOp::Free(i)).hands_out(ops, i),
    ensures
        v.step(ArenaOp::Free(i)).run(ops).is_free(i),
        v.step(ArenaOp::Free(i)).run(ops).step(ArenaOp::Free(i)) == v.step(ArenaOp::Free(i)).run(ops),
    decreases ops.len(),
{
    let w = v.step(ArenaOp::Free(i));
    lemma_step_wf(v, ArenaOp::Free(i));
    if ops.len() == 0 {
        assert(w.free.contains(i)) by {
            if !v.is_free(i) {
                assert(w.free[v.free.len() as int] == i);
            }
        }
    } else {
        let pre = ops.drop_last();
        assert(!w.hands_out(pre, i)) by {
            if w.hands_out(pre, i) {
                let k = choose|k: int|
                    0 <= k < pre.len() && pre[k] == ArenaOp::Alloc && #[trigger] w.run(pre.take(k)).free.len() > 0
                        && w.run(pre.take(k)).next_index() == i;
                assert(pre.take(k) =~= ops.take(k));
                assert(ops[k] == ArenaOp::Alloc);
            }
        }
        lemma_no_double_free(v, i, pre);
        lemma_arena_round_trip(w, pre);
        let u = w.run(pre);
        assert(ops.take(pre.len() as int) =~= pre);
        let kk = choose|kk: int| 0 <= kk < u.free.len() && u.free[kk] == i;
        match ops.last() {
            ArenaOp::Alloc => {
                if u.free.len() > 0 {
                    assert(!(u.next_index() == i)) by {
                        if u.next_index() == i {
                            assert(w.run(ops.take(pre.len() as int)) == u);
                        }
                    }
                    assert(u.step(ArenaOp::Alloc).free[kk] == i);
                }
            },
            ArenaOp::Free(j) => {
                if u.in_range(j) && !u.is_free(j) {
                    assert(u.step(ArenaOp::Free(j)).free[kk] == i);
                }
            },
        }
    }
}

/// Accepted `alloc` calls minus accepted `free` calls among `ops`, run from `v`.
pub open spec fn net_allocations<T>(v: ArenaView<T>, ops: Seq<ArenaOp>) -> int
    decreases ops.len(),
{
    if ops.len() == 0 {
        0
    } else {
        let before = v.run(ops.drop_last());
        net_allocations(v, ops.drop_last()) + match ops.last() {
            ArenaOp::Alloc => if before.free.len() > 0 {
                1int
            } else {
                0int
            },
            ArenaOp::Free(i) => if before.in_range(i) && !before.is_free(i) {
                -1int
            } else {
                0int
            },
        }
    }
}

/// After any sequence of calls, `current_size` has grown by exactly the number of
/// accepted `alloc` calls less the number of accepted `free` calls.
pub proof fn lemma_current_size_counts_calls<T>(v: ArenaView<T>, ops: Seq<ArenaOp>)
    requires
        v.wf(),
    ensures
        v.run(ops).current_size() == v.current_size() + net_allocations(v, ops),
    decreases ops.len(),
{
    if ops.len() > 0 {
        lemma_current_size_counts_calls(v, ops.drop_last());
    }
}

} // verus!
