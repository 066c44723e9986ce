//! A generational slot store: a growable arena that hands out stable integer
//! keys on insert and reuses the slots of removed entries through an
//! intrusive free list.

use vstd::prelude::*;

verus! {

/// An entry in the slot table: either a live value, or a free slot carrying
/// the index of the next free slot (the store's length when it is the last).
pub enum Entry<T> {
    Used(T),
    Empty(usize),
}

/// The value held by a `Used` entry.
pub open spec fn used_value<T>(e: Entry<T>) -> T
    recommends
        e is Used,
{
    match e {
        Entry::Used(v) => v,
        Entry::Empty(_) => vstd::pervasive::arbitrary(),
    }
}

/// The link held by an `Empty` entry.
pub open spec fn empty_link<T>(e: Entry<T>) -> int
    recommends
        e is Empty,
{
    match e {
        Entry::Used(_) => -1,
        Entry::Empty(n) => n as int,
    }
}

/// The link stored in the free slot at chain position `i`: the next chain
/// element, or `cap` (the store's length) for the last one.
pub open spec fn chain_link(chain: Seq<int>, i: int, cap: int) -> int {
    if i + 1 < chain.len() {
        chain[i + 1]
    } else {
        cap
    }
}

/// The free slots of `es` form the singly linked chain `chain`, entered at
/// `head`.
pub open spec fn free_chain_ok<T>(es: Seq<Entry<T>>, head: int, chain: Seq<int>) -> bool {
    &&& head == if chain.len() > 0 {
        chain[0]
    } else {
        es.len() as int
    }
    &&& forall|i: int| 0 <= i < chain.len() ==> 0 <= #[trigger] chain[i] < es.len()
    &&& forall|i: int|
        0 <= i < chain.len() ==> (#[trigger] es[chain[i]]) is Empty && empty_link(es[chain[i]])
            == chain_link(chain, i, es.len() as int)
    &&& chain.no_duplicates()
}

/// Every empty entry of `es` stands somewhere on `chain`.
pub open spec fn empties_on_chain<T>(es: Seq<Entry<T>>, chain: Seq<int>) -> bool {
    forall|j: int| 0 <= j < es.len() ==> ((#[trigger] es[j] is Empty) <==> chain.contains(j))
}

/// The entry sequence after an insert that returned `key`: an append when the
/// store grew, an in-place overwrite when a free slot was consumed.
pub open spec fn insert_post<T>(es: Seq<Entry<T>>, v: T, key: int) -> Seq<Entry<T>> {
    if key == es.len() {
        es.push(Entry::Used(v))
    } else {
        es.update(key, Entry::Used(v))
    }
}

/// The free-list head after an insert that returned `key`: one past the end
/// on the growth path, the consumed slot's stored link otherwise.
pub open spec fn head_after_insert<T>(es: Seq<Entry<T>>, key: int) -> int {
    if key == es.len() {
        key + 1
    } else {
        empty_link(es[key])
    }
}

/// A slot store with persistent keys; an insert hands back the key.
pub struct Slot<T> {
    entries: Vec<Entry<T>>,
    next: usize,
    len: usize,
    free: Ghost<Seq<int>>,
}

impl<T> View for Slot<T> {
    type V = Seq<Entry<T>>;

    closed spec fn view(&self) -> Seq<Entry<T>> {
        self.entries@
    }
}

impl<T> Slot<T> {
    /// The key the next insert will return.
    pub closed spec fn free_head(&self) -> int {
        self.next as int
    }

    /// The number of live (`Used`) entries.
    pub closed spec fn live_count(&self) -> int {
        self.len as int
    }

    /// The store's internal invariant: the free slots form a singly linked
    /// chain entered at the head, and the live count is what is not free.
    pub closed spec fn wf(&self) -> bool {
        &&& free_chain_ok(self.entries@, self.next as int, self.free@)
        &&& empties_on_chain(self.entries@, self.free@)
        &&& self.len as int == self.entries@.len() - self.free@.len()
    }

    proof fn lemma_head_in_range(&self)
        requires
            self.wf(),
        ensures
            0 <= self.free_head() <= self@.len(),
            self.free_head() < self@.len() ==> self@[self.free_head()] is Empty,
            self.free_head() < self@.len() ==> self.free@.len() > 0,
    {
        if self.free@.len() > 0 {
            assert(self.free@[0] == self.free_head());
        }
    }

    /// With a well-formed store, the free head lies within the slots or
    /// one past them, and when it addresses an existing slot, that slot is
    /// empty.
    pub proof fn lemma_head_in_range_pub(&self)
        requires
            self.wf(),
        ensures
            0 <= self.free_head() <= self@.len(),
            self.free_head() < self@.len() ==> self@[self.free_head()] is Empty,
    {
        self.lemma_head_in_range();
    }

    /// Create an empty store.
    pub fn new() -> (s: Slot<T>)
        ensures
            s.wf(),
            s@ =~= Seq::<Entry<T>>::empty(),
            s.free_head() == 0,
            s.live_count() == 0,
    {
        Slot { entries: Vec::new(), next: 0, len: 0, free: Ghost(Seq::empty()) }
    }

    /// Create a store whose first `capacity` slots are pre-linked free
    /// entries, so that the first `capacity` inserts reuse them in ascending
    /// key order instead of growing the backing vector.
    pub fn with_capacity(capacity: usize) -> (s: Slot<T>)
        ensures
            s.wf(),
            s@.len() == capacity,
            s.free_head() == 0,
            s.live_count() == 0,
            forall|i: int|
                0 <= i < capacity ==> #[trigger] s@[i] == Entry::<T>::Empty((i + 1) as usize),
    {
        let mut entries: Vec<Entry<T>> = Vec::with_capacity(capacity);
        let ghost mut chain: Seq<int> = Seq::empty();
        let mut i: usize = 0;
        while i < capacity
            invariant
                i <= capacity,
                entries@.len() == i,
                chain =~= Seq::new(i as nat, |j: int| j),
                forall|j: int|
                    0 <= j < i ==> #[trigger] entries@[j] == Entry::<T>::Empty((j + 1) as usize),
            decreases capacity - i,
        {
            entries.push(Entry::Empty(i + 1));
            proof {
                chain = chain.push(i as int);
                assert(chain =~= Seq::new((i + 1) as nat, |j: int| j));
            }
            i = i + 1;
        }
        let s = Slot { entries, next: 0, len: 0, free: Ghost(chain) };
        proof {
            if capacity > 0 {
                assert(s.free@[0] == 0);
            }
            assert forall|j: int| 0 <= j < s.entries@.len() implies ((#[trigger] s.entries@[j]
                is Empty) <==> s.free@.contains(j)) by {
                assert(s.free@[j] == j);
            }
            assert(s.free@.no_duplicates());
        }
        s
    }

    /// Insert a value and hand back its key: the free-list head when a free
    /// slot exists, else the append position (the growth path).
    pub fn insert(&mut self, val: T) -> (key: usize)
        requires
            old(self).wf(),
            old(self)@.len() < usize::MAX,
        ensures
            final(self).wf(),
            key as int == old(self).free_head(),
            key as int <= old(self)@.len(),
            final(self)@ == insert_post(old(self)@, val, key as int),
            final(self).free_head() == head_after_insert(old(self)@, key as int),
            final(self).live_count() == old(self).live_count() + 1,
            final(self)@.len() == if key as int == old(self)@.len() {
                old(self)@.len() + 1
            } else {
                old(self)@.len()
            },
    {
        let key = self.next;
        self.insert_at(key, val);
        key
    }

    fn insert_at(&mut self, key: usize, val: T)
        requires
            old(self).wf(),
            old(self)@.len() < usize::MAX,
            key as int == old(self).free_head(),
        ensures
            final(self).wf(),
            final(self)@ == insert_post(old(self)@, val, key as int),
            final(self).free_head() == head_after_insert(old(self)@, key as int),
            final(self).live_count() == old(self).live_count() + 1,
    {
        proof {
            self.lemma_head_in_range();
        }
        self.len = self.len + 1;
        if key == self.entries.len() {
            proof {
                if self.free@.len() > 0 {
                    assert(self.free@[0] < self.entries@.len());
                }
            }
            self.entries.push(Entry::Used(val));
            self.next = key + 1;
            proof {
                let es = self.entries@;
                assert forall|j: int| 0 <= j < es.len() implies ((#[trigger] es[j] is Empty)
                    <==> self.free@.contains(j)) by {
                    if j < es.len() - 1 {
                        assert(es[j] == old(self).entries@[j]);
                    }
                }
            }
        } else {
            let link = match &self.entries[key] {
                Entry::Empty(nx) => *nx,
                Entry::Used(_) => vstd::pervasive::unreached(),
            };
            let slot_ref = &mut self.entries[key];
            *slot_ref = Entry::Used(val);
            self.next = link;
            proof {
                let ghost old_chain = self.free@;
                self.free = Ghost(old_chain.drop_first());
                let es = self.entries@;
                let chain = self.free@;
                assert(old_chain[0] == key as int);
                assert(link as int == chain_link(old_chain, 0, es.len() as int));
                assert forall|i: int| 0 <= i < chain.len() implies 0 <= #[trigger] chain[i]
                    < es.len() by {
                    assert(chain[i] == old_chain[i + 1]);
                }
                assert forall|i: int| 0 <= i < chain.len() implies (#[trigger] es[chain[i]])
                    is Empty && empty_link(es[chain[i]]) == chain_link(
                    chain,
                    i,
                    es.len() as int,
                ) by {
                    assert(chain[i] == old_chain[i + 1]);
                    assert(old_chain[i + 1] != old_chain[0]);
                    assert(es[chain[i]] == old(self).entries@[chain[i]]);
                    if i + 1 < chain.len() {
                        assert(chain[i + 1] == old_chain[i + 2]);
                    }
                }
                assert(chain.no_duplicates()) by {
                    assert forall|i: int, j: int|
                        0 <= i < chain.len() && 0 <= j < chain.len() && i != j implies chain[i]
                        != chain[j] by {
                        assert(chain[i] == old_chain[i + 1]);
                        assert(chain[j] == old_chain[j + 1]);
                    }
                }
                assert forall|j: int| 0 <= j < es.len() implies ((#[trigger] es[j] is Empty)
                    <==> chain.contains(j)) by {
                    if j == key as int {
                        if chain.contains(j) {
                            let w = choose|w: int| 0 <= w < chain.len() && chain[w] == j;
                            assert(old_chain[w + 1] == j);
                            assert(old_chain[0] == j);
                        }
                    } else {
                        assert(es[j] == old(self).entries@[j]);
                        if old_chain.contains(j) {
                            let w = choose|w: int|
                                0 <= w < old_chain.len() && old_chain[w] == j;
                            assert(w != 0);
                            assert(chain[w - 1] == j);
                        }
                        if chain.contains(j) {
                            let w = choose|w: int| 0 <= w < chain.len() && chain[w] == j;
                            assert(old_chain[w + 1] == j);
                        }
                    }
                }
            }
        }
    }

    /// Remove the value under `key` and hand it back; the slot joins the
    /// front of the free list, so the next insert reuses exactly this key.
    pub fn remove(&mut self, key: usize) -> (val: T)
        requires
            old(self).wf(),
            key < old(self)@.len(),
            old(self)@[key as int] is Used,
        ensures
            final(self).wf(),
            val == used_value(old(self)@[key as int]),
            final(self)@ == old(self)@.update(key as int, Entry::<T>::Empty(old(self).next_key())),
            final(self).free_head() == key as int,
            final(self).live_count() == old(self).live_count() - 1,
    {
        proof {
            self.lemma_head_in_range();
            if self.free@.contains(key as int) {
                let w = choose|w: int| 0 <= w < self.free@.len() && self.free@[w] == key as int;
                assert(self.entries@[self.free@[w]] is Empty);
            }
        }
        let link = self.next;
        let slot_ref = &mut self.entries[key];
        let mut taken = Entry::Empty(link);
        core::mem::swap(&mut taken, slot_ref);
        self.next = key;
        proof {
            let ghost old_chain = self.free@;
            self.free = Ghost(seq![key as int] + old_chain);
            let es = self.entries@;
            let chain = self.free@;
            assert(chain[0] == key as int);
            assert(es[key as int] == Entry::<T>::Empty(link));
            assert forall|i: int| 0 <= i < chain.len() implies (#[trigger] es[chain[i]])
                is Empty && empty_link(es[chain[i]]) == chain_link(chain, i, es.len() as int) by {
                if i > 0 {
                    assert(chain[i] == old_chain[i - 1]);
                    assert(chain[i] != key as int);
                    assert(es[chain[i]] == old(self).entries@[chain[i]]);
                    if i + 1 < chain.len() {
                        assert(chain[i + 1] == old_chain[i]);
                    }
                } else {
                    if chain.len() > 1 {
                        assert(chain[1] == old_chain[0]);
                    }
                }
            }
            assert(chain.no_duplicates()) by {
                assert forall|i: int, j: int|
                    0 <= i < chain.len() && 0 <= j < chain.len() && i != j implies chain[i]
                    != chain[j] by {
                    if i > 0 && j > 0 {
                        assert(chain[i] == old_chain[i - 1]);
                        assert(chain[j] == old_chain[j - 1]);
                    }
                }
            }
            assert forall|i: int| 0 <= i < chain.len() implies 0 <= #[trigger] chain[i]
                < es.len() by {
                if i > 0 {
                    assert(chain[i] == old_chain[i - 1]);
                }
            }
            assert forall|j: int| 0 <= j < es.len() implies ((#[trigger] es[j] is Empty)
                <==> chain.contains(j)) by {
                if j == key as int {
                } else {
                    assert(es[j] == old(self).entries@[j]);
                    if old_chain.contains(j) {
                        let w = choose|w: int| 0 <= w < old_chain.len() && old_chain[w] == j;
                        assert(chain[w + 1] == j);
                    }
                    if chain.contains(j) {
                        let w = choose|w: int| 0 <= w < chain.len() && chain[w] == j;
                        assert(w != 0);
                        assert(old_chain[w - 1] == j);
                    }
                }
            }
            assert(self.len as int > 0) by {
                lemma_distinct_in_range_missing_one(old_chain, old(self).entries@.len() as int,
                    key as int);
            }
        }
        self.len = self.len - 1;
        match taken {
            Entry::Used(v) => v,
            Entry::Empty(_) => vstd::pervasive::unreached(),
        }
    }

    /// The free-list head, as the `usize` an `Empty` entry stores.
    pub closed spec fn next_key(&self) -> usize {
        self.next
    }

    /// Look up the value under a previously issued, still-live key.
    /// Addressing an empty slot or an out-of-range index is a programmer
    /// error, excluded by precondition rather than handled at run time.
    pub fn get(&self, key: usize) -> (r: &T)
        requires
            self.wf(),
            key < self@.len(),
            self@[key as int] is Used,
        ensures
            *r == used_value(self@[key as int]),
    {
        match &self.entries[key] {
            Entry::Used(v) => v,
            Entry::Empty(_) => vstd::pervasive::unreached(),
        }
    }

    /// Mutable lookup under a previously issued, still-live key.
    pub fn get_mut(&mut self, key: usize) -> (r: &mut T)
        requires
            old(self).wf(),
            key < old(self)@.len(),
            old(self)@[key as int] is Used,
        ensures
            *r == used_value(old(self)@[key as int]),
            final(self)@ == old(self)@.update(key as int, Entry::Used(*final(r))),
            final(self).wf(),
            final(self).free_head() == old(self).free_head(),
            final(self).live_count() == old(self).live_count(),
    {
        proof {
            if self.free@.contains(key as int) {
                let w = choose|w: int| 0 <= w < self.free@.len() && self.free@[w] == key as int;
                assert(self.entries@[self.free@[w]] is Empty);
            }
        }
        let slot_ref = &mut self.entries[key];
        match slot_ref {
            Entry::Used(v) => v,
            Entry::Empty(_) => vstd::pervasive::unreached(),
        }
    }

    /// The number of physical slots (used and free together).
    pub fn num_slots(&self) -> (n: usize)
        ensures
            n == self@.len(),
    {
        self.entries.len()
    }

    /// Whether the slot under `key` currently holds a value.
    pub fn used_at(&self, key: usize) -> (b: bool)
        requires
            key < self@.len(),
        ensures
            b == (self@[key as int] is Used),
    {
        match &self.entries[key] {
            Entry::Used(_) => true,
            Entry::Empty(_) => false,
        }
    }

    /// A cursor over the live entries, in physical slot order.
    pub fn iter<'a>(&'a self) -> (it: Iter<'a, T>)
        ensures
            it.entries() == self@,
            it.pos() == 0,
    {
        Iter { slot: self, curr: 0 }
    }
}

/// A lemma of counting: a duplicate-free sequence over `[0, n)` that misses
/// some element of `[0, n)` has fewer than `n` elements.
proof fn lemma_distinct_in_range_missing_one(s: Seq<int>, n: int, missing: int)
    requires
        s.no_duplicates(),
        forall|i: int| 0 <= i < s.len() ==> 0 <= #[trigger] s[i] < n,
        0 <= missing < n,
        !s.contains(missing),
    ensures
        s.len() < n,
{
    let full = vstd::set_lib::set_int_range(0, n);
    vstd::set_lib::lemma_int_range(0, n);
    s.unique_seq_to_set();
    assert(s.to_set().subset_of(full.remove(missing))) by {
        assert forall|x: int| s.to_set().contains(x) implies full.remove(missing).contains(x) by {
            let w = choose|w: int| 0 <= w < s.len() && s[w] == x;
        }
    }
    vstd::set_lib::lemma_len_subset(s.to_set(), full.remove(missing));
}

/// An immutable cursor over a store's live entries, in physical slot order.
pub struct Iter<'a, T> {
    slot: &'a Slot<T>,
    curr: usize,
}

impl<'a, T> Iter<'a, T> {
    /// The entry sequence being walked.
    pub closed spec fn entries(&self) -> Seq<Entry<T>> {
        self.slot@
    }

    /// The next physical index the cursor will look at.
    pub closed spec fn pos(&self) -> int {
        self.curr as int
    }

    /// Hand back the next live `(key, value)` pair, skipping empty slots;
    /// `None` once every remaining slot is empty.
    pub fn next(&mut self) -> (r: Option<(usize, &'a T)>)
        ensures
            final(self).entries() == old(self).entries(),
            match r {
                Some(kv) => {
                    &&& old(self).pos() <= kv.0 < old(self).entries().len()
                    &&& old(self).entries()[kv.0 as int] is Used
                    &&& *kv.1 == used_value(old(self).entries()[kv.0 as int])
                    &&& final(self).pos() == kv.0 + 1
                    &&& forall|j: int|
                        old(self).pos() <= j < kv.0 ==> !(#[trigger] old(self).entries()[j]
                            is Used)
                },
                None => {
                    &&& final(self).pos() >= old(self).entries().len()
                    &&& forall|j: int|
                        old(self).pos() <= j < old(self).entries().len() ==> !(
                        #[trigger] old(self).entries()[j] is Used)
                },
            },
    {
        let n = self.slot.entries.len();
        while self.curr < n
            invariant
                n == self.entries().len(),
                self.slot == old(self).slot,
                old(self).pos() <= self.pos(),
                forall|j: int|
                    old(self).pos() <= j < self.pos() ==> !(#[trigger] self.entries()[j] is Used),
            decreases n - self.curr,
        {
            let curr = self.curr;
            self.curr = self.curr + 1;
            if let Entry::Used(v) = &self.slot.entries[curr] {
                return Some((curr, v));
            }
        }
        None
    }
}

/// One abstract insert over an entry sequence and its free head: the triple
/// of post-state entries, post-state head, and the key handed out.
pub open spec fn insert_step<T>(es: Seq<Entry<T>>, head: int, v: T) -> (Seq<Entry<T>>, int, int) {
    (insert_post(es, v, head), head_after_insert(es, head), head)
}

/// One abstract removal: the slot under `key` becomes the new free-list
/// head, storing the old head as its link.
pub open spec fn remove_step<T>(es: Seq<Entry<T>>, head: int, key: int) -> (Seq<Entry<T>>, int) {
    (es.update(key, Entry::Empty(head as usize)), key)
}

/// A run of abstract inserts, one per element of `vs`, in order: the final
/// entries, the final head, and the keys handed out.
pub open spec fn run_inserts<T>(es: Seq<Entry<T>>, head: int, vs: Seq<T>) -> (
    Seq<Entry<T>>,
    int,
    Seq<int>,
)
    decreases vs.len(),
{
    if vs.len() == 0 {
        (es, head, Seq::empty())
    } else {
        let step = insert_step(es, head, vs[0]);
        let rest = run_inserts(step.0, step.1, vs.drop_first());
        (rest.0, rest.1, seq![step.2] + rest.2)
    }
}


/// The free chain after one abstract insert: the chain loses its first
/// element on reuse and stays empty on growth.
pub open spec fn chain_after_insert(chain: Seq<int>) -> Seq<int> {
    if chain.len() > 0 {
        chain.drop_first()
    } else {
        Seq::empty()
    }
}

/// One abstract insert preserves the free-chain structure.
pub proof fn lemma_insert_step_chain<T>(es: Seq<Entry<T>>, head: int, chain: Seq<int>, v: T)
    ensures
        free_chain_ok(es, head, chain) ==> ({
            let step = insert_step(es, head, v);
            &&& free_chain_ok(step.0, step.1, chain_after_insert(chain))
            &&& es.len() <= step.0.len() <= es.len() + 1
            &&& 0 <= head <= es.len()
        }),
{
    if free_chain_ok(es, head, chain) {
        let step = insert_step(es, head, v);
        let es1 = step.0;
        let h1 = step.1;
        let chain1 = chain_after_insert(chain);
        if chain.len() > 0 {
            let k = chain[0];
            assert(es[k] is Empty);
            assert(es1 =~= es.update(k, Entry::Used(v)));
            assert(h1 == chain_link(chain, 0, es.len() as int));
            assert forall|i: int| 0 <= i < chain1.len() implies 0 <= #[trigger] chain1[i]
                < es1.len() by {
                assert(chain1[i] == chain[i + 1]);
            }
            assert forall|i: int| 0 <= i < chain1.len() implies (#[trigger] es1[chain1[i]])
                is Empty && empty_link(es1[chain1[i]]) == chain_link(
                chain1,
                i,
                es1.len() as int,
            ) by {
                assert(chain1[i] == chain[i + 1]);
                assert(chain[i + 1] != chain[0]);
                if i + 1 < chain1.len() {
                    assert(chain1[i + 1] == chain[i + 2]);
                }
            }
            assert(chain1.no_duplicates()) by {
                assert forall|i: int, j: int|
                    0 <= i < chain1.len() && 0 <= j < chain1.len() && i != j implies chain1[i]
                    != chain1[j] by {
                    assert(chain1[i] == chain[i + 1]);
                    assert(chain1[j] == chain[j + 1]);
                }
            }
        } else {
            assert(head == es.len());
            assert(es1 =~= es.push(Entry::Used(v)));
        }
    }
}

/// Law: over any run of inserts from a store whose free slots form a valid
/// chain, the keys handed out are pairwise distinct, each key addresses
/// exactly the value passed to the insert that produced it, and no entry
/// that was live before the run is touched.
pub proof fn lemma_inserts_deliver_their_values<T>(
    es: Seq<Entry<T>>,
    head: int,
    chain: Seq<int>,
    vs: Seq<T>,
)
    requires
        free_chain_ok(es, head, chain),
    ensures
        ({
            let r = run_inserts(es, head, vs);
            &&& r.2.len() == vs.len()
            &&& r.2.no_duplicates()
            &&& forall|i: int| 0 <= i < vs.len() ==> 0 <= #[trigger] r.2[i] < r.0.len()
            &&& forall|i: int|
                0 <= i < vs.len() ==> r.0[#[trigger] r.2[i]] == Entry::Used(vs[i])
            &&& forall|j: int|
                0 <= j < es.len() && es[j] is Used ==> #[trigger] r.0[j] == es[j]
            &&& forall|i: int|
                0 <= i < vs.len() ==> (chain.contains(#[trigger] r.2[i]) || es.len() <= r.2[i])
            &&& es.len() <= r.0.len() <= es.len() + vs.len()
        }),
    decreases vs.len(),
{
    if vs.len() > 0 {
        let step = insert_step(es, head, vs[0]);
        let es1 = step.0;
        let h1 = step.1;
        let k = step.2;
        let chain1: Seq<int> = chain_after_insert(chain);
        lemma_insert_step_chain(es, head, chain, vs[0]);
        if chain.len() > 0 {
            assert(k == chain[0]);
            assert(es[k] is Empty);
            assert(es1 =~= es.update(k, Entry::Used(vs[0])));
        } else {
            assert(head == es.len());
            assert(es1 =~= es.push(Entry::Used(vs[0])));
        }
        lemma_inserts_deliver_their_values(es1, h1, chain1, vs.drop_first());
        let rest = run_inserts(es1, h1, vs.drop_first());
        let r = run_inserts(es, head, vs);
        assert(r.0 == rest.0 && r.1 == rest.1);
        assert(r.2 =~= seq![k] + rest.2);
        assert(es1[k] == Entry::Used(vs[0]));
        assert(r.0[k] == Entry::Used(vs[0]));
        assert forall|i: int| 0 <= i < vs.len() implies r.0[#[trigger] r.2[i]] == Entry::Used(
            vs[i],
        ) by {
            if i > 0 {
                assert(r.2[i] == rest.2[i - 1]);
                assert(vs[i] == vs.drop_first()[i - 1]);
            }
        }
        assert forall|i: int| 0 <= i < vs.len() implies (chain.contains(#[trigger] r.2[i])
            || es.len() <= r.2[i]) by {
            if i == 0 {
                if chain.len() > 0 {
                    assert(chain[0] == k);
                }
            } else {
                assert(r.2[i] == rest.2[i - 1]);
                if chain1.contains(rest.2[i - 1]) {
                    let w = choose|w: int| 0 <= w < chain1.len() && chain1[w] == rest.2[i - 1];
                    assert(chain[w + 1] == rest.2[i - 1]);
                }
            }
        }
        assert(r.2.no_duplicates()) by {
            assert forall|i: int, j: int|
                0 <= i < r.2.len() && 0 <= j < r.2.len() && i != j implies r.2[i] != r.2[j] by {
                if i != 0 && j != 0 {
                    assert(r.2[i] == rest.2[i - 1]);
                    assert(r.2[j] == rest.2[j - 1]);
                } else {
                    let nz = if i == 0 { j } else { i };
                    assert(r.2[nz] == rest.2[nz - 1]);
                    assert(chain1.contains(rest.2[nz - 1]) || es1.len() <= rest.2[nz - 1]);
                    if chain.len() > 0 {
                        if chain1.contains(rest.2[nz - 1]) {
                            let w = choose|w: int|
                                0 <= w < chain1.len() && chain1[w] == rest.2[nz - 1];
                            assert(chain[w + 1] == rest.2[nz - 1]);
                            assert(chain[0] != chain[w + 1]);
                        }
                    }
                }
            }
        }
        assert forall|i: int| 0 <= i < vs.len() implies 0 <= #[trigger] r.2[i] < r.0.len() by {
            if i > 0 {
                assert(r.2[i] == rest.2[i - 1]);
            }
        }
    }
}

/// The entry sequence `with_capacity(n)` builds: `n` pre-linked free slots.
pub open spec fn fresh_entries<T>(n: int) -> Seq<Entry<T>> {
    Seq::new(n as nat, |i: int| Entry::Empty((i + 1) as usize))
}

proof fn lemma_capacity_run<T>(n: int, k: int, es: Seq<Entry<T>>, vs: Seq<T>)
    requires
        0 <= k,
        k + vs.len() <= n <= usize::MAX,
        es.len() == n,
        forall|i: int| k <= i < n ==> #[trigger] es[i] == Entry::<T>::Empty((i + 1) as usize),
    ensures
        ({
            let r = run_inserts(es, k, vs);
            &&& r.0.len() == n
            &&& r.1 == k + vs.len()
            &&& r.2 =~= Seq::new(vs.len(), |i: int| k + i)
            &&& forall|i: int|
                0 <= i < vs.len() ==> #[trigger] r.0[k + i] == Entry::Used(vs[i])
            &&& forall|j: int| 0 <= j < n && !(k <= j < k + vs.len()) ==> #[trigger] r.0[j] == es[j]
        }),
    decreases vs.len(),
{
    if vs.len() > 0 {
        let step = insert_step(es, k, vs[0]);
        let es1 = step.0;
        assert(es[k] == Entry::<T>::Empty((k + 1) as usize));
        assert(es1 =~= es.update(k, Entry::Used(vs[0])));
        assert(step.1 == k + 1);
        lemma_capacity_run(n, k + 1, es1, vs.drop_first());
        let rest = run_inserts(es1, k + 1, vs.drop_first());
        let r = run_inserts(es, k, vs);
        assert forall|i: int| 0 <= i < vs.len() implies #[trigger] r.0[k + i] == Entry::Used(
            vs[i],
        ) by {
            if i > 0 {
                assert(rest.0[(k + 1) + (i - 1)] == Entry::Used(vs.drop_first()[i - 1]));
            } else {
                assert(r.0[k] == es1[k]);
            }
        }
    }
}

/// Law: after `with_capacity(n)`, a run of `m <= n` inserts hands out the
/// keys `0, 1, ..., m - 1` in ascending order and never takes the growth
/// path: the backing sequence keeps length `n` throughout.
pub proof fn lemma_capacity_inserts_ascending<T>(n: int, vs: Seq<T>)
    requires
        0 <= vs.len() <= n <= usize::MAX,
    ensures
        ({
            let r = run_inserts(fresh_entries::<T>(n), 0, vs);
            &&& r.0.len() == n
            &&& r.1 == vs.len()
            &&& r.2 =~= Seq::new(vs.len(), |i: int| i)
            &&& forall|i: int|
                0 <= i < vs.len() ==> #[trigger] r.0[i] == Entry::Used(vs[i])
        }),
{
    lemma_capacity_run(n, 0, fresh_entries::<T>(n), vs);
    let r = run_inserts(fresh_entries::<T>(n), 0, vs);
    assert forall|i: int| 0 <= i < vs.len() implies #[trigger] r.0[i] == Entry::Used(vs[i]) by {
        assert(r.0[0 + i] == Entry::Used(vs[i]));
    }
}

/// Law of free-list reuse: insert `a` (key `k0`), insert `b`, remove `k0`;
/// the very next insert hands `k0` out again, because a removed slot joins
/// the free list at its front.
pub proof fn lemma_removed_key_reused_first<T>(
    es: Seq<Entry<T>>,
    head: int,
    chain: Seq<int>,
    a: T,
    b: T,
    c: T,
)
    requires
        free_chain_ok(es, head, chain),
    ensures
        ({
            let s1 = insert_step(es, head, a);
            let s2 = insert_step(s1.0, s1.1, b);
            let s3 = remove_step(s2.0, s2.1, s1.2);
            let s4 = insert_step(s3.0, s3.1, c);
            &&& s4.2 == s1.2
            &&& s4.0[s1.2] == Entry::Used(c)
        }),
{
    let s1 = insert_step(es, head, a);
    let s2 = insert_step(s1.0, s1.1, b);
    let s3 = remove_step(s2.0, s2.1, s1.2);
    let s4 = insert_step(s3.0, s3.1, c);
    lemma_insert_step_chain(es, head, chain, a);
    lemma_insert_step_chain(s1.0, s1.1, chain_after_insert(chain), b);
    assert(s1.0.len() > head);
    assert(s2.0.len() >= s1.0.len());
    assert(s3.0.len() == s2.0.len());
    assert(s4.0 =~= s3.0.update(head, Entry::Used(c)));
}

/// A mutable cursor over a store's live entries, in physical slot order: it
/// hands out each used key with a mutable borrow of its value, for in-place
/// updates such as a probe session's result merge.
pub struct IterMut<'a, T> {
    pub slot: &'a mut Slot<T>,
    pub curr: usize,
}

impl<'a, T> IterMut<'a, T> {
    /// The borrowed store is well-formed and the cursor in bounds.
    pub open spec fn wf_iter(&self) -> bool {
        &&& (*self.slot).wf()
        &&& self.curr as int <= (*self.slot)@.len()
    }

    /// Hand back the next live key with a mutable borrow of its value,
    /// skipping empty slots; `None` once every remaining slot is empty.
    /// Writing through the borrow updates exactly that slot; what the store
    /// will hold when the cursor's borrow ends is untouched by the step
    /// itself.
    pub fn next(&mut self) -> (r: Option<(usize, &mut T)>)
        requires
            old(self).wf_iter(),
        ensures
            match r {
                Option::Some(kv) => {
                    &&& old(self).curr <= kv.0 < (*old(self).slot)@.len()
                    &&& (*old(self).slot)@[kv.0 as int] is Used
                    &&& *kv.1 == used_value((*old(self).slot)@[kv.0 as int])
                    &&& forall|j: int|
                        old(self).curr <= j < kv.0 ==> !((#[trigger] (*old(self).slot)@[j])
                            is Used)
                    &&& final(self).curr == kv.0 + 1
                    &&& (*final(self).slot)@ == (*old(self).slot)@.update(
                        kv.0 as int,
                        Entry::Used(*final(kv.1)),
                    )
                    &&& *final(final(self).slot) == *final(old(self).slot)
                    &&& (*final(self).slot).free_head() == (*old(self).slot).free_head()
                    &&& final(self).wf_iter()
                },
                Option::None => {
                    &&& final(self).curr >= (*old(self).slot)@.len()
                    &&& forall|j: int|
                        old(self).curr <= j < (*old(self).slot)@.len() ==> !((
                        #[trigger] (*old(self).slot)@[j]) is Used)
                    &&& (*final(self).slot)@ == (*old(self).slot)@
                    &&& *final(final(self).slot) == *final(old(self).slot)
                    &&& (*final(self).slot).free_head() == (*old(self).slot).free_head()
                    &&& final(self).wf_iter()
                },
            },
    {
        let n = self.slot.entries.len();
        while self.curr < n
            invariant
                n == (*self.slot)@.len(),
                self.curr <= n,
                old(self).curr <= self.curr,
                (*self.slot)@ == (*old(self).slot)@,
                (*self.slot).wf(),
                (*self.slot).free_head() == (*old(self).slot).free_head(),
                *final(self.slot) == *final(old(self).slot),
                forall|j: int|
                    old(self).curr <= j < self.curr as int ==> !((
                    #[trigger] (*old(self).slot)@[j]) is Used),
            decreases n - self.curr,
        {
            let curr = self.curr;
            self.curr = curr + 1;
            let is_used = match &self.slot.entries[curr] {
                Entry::Used(_) => true,
                Entry::Empty(_) => false,
            };
            if is_used {
                proof {
                    if self.slot.free@.contains(curr as int) {
                        let w = choose|w: int|
                            0 <= w < self.slot.free@.len() && self.slot.free@[w] == curr as int;
                        assert(self.slot.entries@[self.slot.free@[w]] is Empty);
                    }
                }
                let v = match &mut self.slot.entries[curr] {
                    Entry::Used(v) => v,
                    Entry::Empty(_) => vstd::pervasive::unreached(),
                };
                return Option::Some((curr, v));
            }
        }
        Option::None
    }
}

impl<T> Slot<T> {
    /// A mutable cursor over the live entries, in physical slot order.
    pub fn iter_mut<'a>(&'a mut self) -> (it: IterMut<'a, T>)
        requires
            old(self).wf(),
        ensures
            it.wf_iter(),
            it.curr == 0,
            (*it.slot)@ == (*old(self))@,
            (*it.slot).free_head() == old(self).free_head(),
            final(self)@ == (*final(it.slot))@,
            final(self).free_head() == (*final(it.slot)).free_head(),
            *final(self) == *final(it.slot),
    {
        IterMut { slot: self, curr: 0 }
    }
}

} // verus!
