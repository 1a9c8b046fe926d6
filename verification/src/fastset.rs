//! Two membership sets over the keys `0..capacity`.
//!
//! [`FastSet`] stamps each key with a generation number, so that clearing the
//! set takes constant time. [`DenseFastSet`] keeps its members packed in a
//! vector and can therefore enumerate them.

use itertools::Itertools;
use vstd::prelude::*;

verus! {

/// Every set of keys below `n` is finite and has at most `n` members.
pub proof fn lemma_bounded_keys(s: Set<usize>, n: nat)
    requires
        forall|k: usize| s.contains(k) ==> k < n,
    ensures
        s.finite(),
        s.len() <= n,
    decreases n,
{
    if n == 0 {
        assert(s =~= Set::empty());
    } else if n - 1 > usize::MAX {
        lemma_bounded_keys(s, (n - 1) as nat);
    } else {
        let top = (n - 1) as usize;
        lemma_bounded_keys(s.remove(top), (n - 1) as nat);
        if s.contains(top) {
            assert(s =~= s.remove(top).insert(top));
        } else {
            assert(s =~= s.remove(top));
        }
    }
}

/// The keys below `n` are `n` in number.
pub proof fn lemma_all_keys(n: usize)
    ensures
        Set::new(|k: usize| k < n).finite(),
        Set::new(|k: usize| k < n).len() == n,
    decreases n,
{
    let all = Set::new(|k: usize| k < n);
    if n == 0 {
        assert(all =~= Set::empty());
    } else {
        let less = Set::new(|k: usize| k < (n - 1) as usize);
        lemma_all_keys((n - 1) as usize);
        assert(all =~= less.insert((n - 1) as usize));
    }
}

/// A set of keys in which every slot carries the generation in which the key
/// was last inserted. A key is a member while its stamp is the current
/// generation.
#[derive(Debug)]
pub struct FastSet {
    stamps: Vec<usize>,
    generation: usize,
}

impl View for FastSet {
    type V = Set<usize>;

    /// The keys that are members: those whose stamp is the current generation.
    open spec fn view(&self) -> Set<usize> {
        Set::new(
            |k: usize| k < self.stamps().len() && self.stamps()[k as int] == self.generation(),
        )
    }
}

impl FastSet {
    /// The stamp of each key.
    pub closed spec fn stamps(&self) -> Seq<usize> {
        self.stamps@
    }

    /// The current generation.
    pub closed spec fn generation(&self) -> usize {
        self.generation
    }

    /// The number of keys the set ranges over.
    pub open spec fn capacity(&self) -> nat {
        self.stamps().len()
    }

    /// No stamp lies ahead of the current generation, which is never zero.
    pub open spec fn wf(&self) -> bool {
        &&& self.generation() >= 1
        &&& forall|i: int|
            0 <= i < self.stamps().len() ==> (#[trigger] self.stamps()[i]) <= self.generation()
    }

    /// An empty set over the keys `0..size`.
    pub fn new(size: usize) -> (s: Self)
        ensures
            s.wf(),
            s.generation() == 1,
            s.stamps() == Seq::new(size as nat, |k: int| 0usize),
            s@ == Set::<usize>::empty(),
    {
        let mut stamps: Vec<usize> = Vec::new();
        let mut i: usize = 0;
        while i < size
            invariant
                i <= size,
                stamps@.len() == i,
                forall|j: int| 0 <= j < i ==> stamps@[j] == 0,
            decreases size - i,
        {
            stamps.push(0);
            i += 1;
        }
        let s = FastSet { stamps, generation: 1 };
        assert(s.stamps() =~= Seq::new(size as nat, |k: int| 0usize));
        assert(s@ =~= Set::<usize>::empty());
        s
    }

    /// Makes `key` a member.
    pub fn insert(&mut self, key: usize)
        requires
            old(self).wf(),
            key < old(self).capacity(),
        ensures
            final(self).wf(),
            final(self).generation() == old(self).generation(),
            final(self).stamps() == old(self).stamps().update(key as int, old(self).generation()),
            final(self)@ == old(self)@.insert(key),
    {
        self.stamps[key] = self.generation;
        assert(self@ =~= old(self)@.insert(key));
    }

    /// Makes `key` a member and tells whether it was absent before.
    pub fn has_insert(&mut self, key: usize) -> (fresh: bool)
        requires
            old(self).wf(),
            key < old(self).capacity(),
        ensures
            final(self).wf(),
            final(self).generation() == old(self).generation(),
            final(self).stamps() == old(self).stamps().update(key as int, old(self).generation()),
            final(self)@ == old(self)@.insert(key),
            fresh == !old(self)@.contains(key),
    {
        let fresh = !self.contains(key);
        self.insert(key);
        fresh
    }

    /// Removes `key`; the slot takes the stamp just behind the current generation.
    pub fn remove(&mut self, key: usize)
        requires
            old(self).wf(),
            key < old(self).capacity(),
        ensures
            final(self).wf(),
            final(self).generation() == old(self).generation(),
            final(self).stamps() == old(self).stamps().update(
                key as int,
                (old(self).generation() - 1) as usize,
            ),
            final(self)@ == old(self)@.remove(key),
    {
        self.stamps[key] = self.generation - 1;
        assert(self@ =~= old(self)@.remove(key));
    }

    /// Whether `key` is a member.
    pub fn contains(&self, key: usize) -> (present: bool)
        requires
            self.wf(),
            key < self.capacity(),
        ensures
            present == self@.contains(key),
    {
        self.stamps[key] == self.generation
    }

    /// Empties the set by moving to the next generation. Only when the
    /// generation counter is exhausted are the stamps themselves reset.
    pub fn clear(&mut self)
        requires
            old(self).wf(),
        ensures
            final(self).wf(),
            old(self).generation() < usize::MAX ==> {
                &&& final(self).generation() == old(self).generation() + 1
                &&& final(self).stamps() == old(self).stamps()
            },
            old(self).generation() == usize::MAX ==> {
                &&& final(self).generation() == 1
                &&& final(self).stamps() == Seq::new(old(self).capacity(), |k: int| 0usize)
            },
            final(self)@ == Set::<usize>::empty(),
    {
        if self.generation == usize::MAX {
            let n: usize = self.stamps.len();
            let mut i: usize = 0;
            while i < n
                invariant
                    i <= n,
                    n == self.stamps@.len(),
                    self.stamps@.len() == old(self).stamps@.len(),
                    forall|j: int| 0 <= j < i ==> self.stamps@[j] == 0,
                decreases n - i,
            {
                self.stamps[i] = 0;
                i += 1;
            }
            self.generation = 0;
            assert(self.stamps() =~= Seq::new(old(self).capacity(), |k: int| 0usize));
        }
        assert(forall|i: int|
            0 <= i < self.stamps().len() ==> (#[trigger] self.stamps()[i]) <= self.generation());
        self.generation += 1;
        assert(self@ =~= Set::<usize>::empty());
    }
}

/// What `DenseFastSet::remove` leaves of the packed order `order` when the
/// member `key` goes: the last member takes the place of `key`.
pub open spec fn swap_removed(order: Seq<usize>, key: usize) -> Seq<usize> {
    order.update(order.index_of(key), order.last()).drop_last()
}

/// In an order without repetitions, taking `key` out by a swap with the last
/// member leaves an order without repetitions that holds every other member.
pub proof fn lemma_swap_removed(order: Seq<usize>, key: usize)
    requires
        order.no_duplicates(),
        order.contains(key),
    ensures
        swap_removed(order, key).no_duplicates(),
        swap_removed(order, key).to_set() == order.to_set().remove(key),
        swap_removed(order, key).len() == order.len() - 1,
{
    let i = order.index_of(key);
    let rest = swap_removed(order, key);
    assert(0 <= i < order.len() && order[i] == key);
    assert forall|k: usize| rest.to_set().contains(k) <==> order.to_set().remove(key).contains(
        k,
    ) by {
        if rest.to_set().contains(k) {
            let j = choose|j: int| 0 <= j < rest.len() && rest[j] == k;
            if j == i {
                assert(order[order.len() - 1] == k);
            } else {
                assert(order[j] == k);
            }
        }
        if order.to_set().remove(key).contains(k) {
            let j = choose|j: int| 0 <= j < order.len() && order[j] == k;
            if j == order.len() - 1 {
                assert(rest[i] == k);
            } else {
                assert(rest[j] == k);
            }
        }
    }
    assert(rest.to_set() =~= order.to_set().remove(key));
}

/// A set that keeps its members packed in a vector, in the order in which
/// they came, except that a removal moves the last member into the gap. A
/// second vector maps each key to its place in the first.
#[derive(Debug)]
pub struct DenseFastSet {
    dense: Vec<usize>,
    sparse: Vec<Option<usize>>,
}

impl View for DenseFastSet {
    type V = Set<usize>;

    /// The keys that are members.
    open spec fn view(&self) -> Set<usize> {
        self.order().to_set()
    }
}

impl DenseFastSet {
    /// The members in the order in which `iter` gives them.
    pub closed spec fn order(&self) -> Seq<usize> {
        self.dense@
    }

    /// The number of keys the set ranges over.
    pub closed spec fn capacity(&self) -> nat {
        self.sparse@.len()
    }

    /// The two vectors refer to each other.
    pub closed spec fn linked(&self) -> bool {
        &&& forall|i: int|
            0 <= i < self.dense@.len() ==> (#[trigger] self.dense@[i]) < self.sparse@.len()
                && self.sparse@[self.dense@[i] as int] == Some(i as usize)
        &&& forall|k: int|
            0 <= k < self.sparse@.len() ==> ((#[trigger] self.sparse@[k]) matches Some(i) ==> i
                < self.dense@.len() && self.dense@[i as int] == k)
    }

    /// The packed order holds no key twice and only keys below the capacity.
    pub open spec fn wf(&self) -> bool {
        &&& self.linked()
        &&& self.order().no_duplicates()
        &&& forall|i: int| 0 <= i < self.order().len() ==> (#[trigger] self.order()[i]) < self.capacity()
    }

    /// The set is finite, as large as its packed order is long, and no larger
    /// than its capacity.
    pub proof fn lemma_size(&self)
        requires
            self.wf(),
        ensures
            self@.finite(),
            self@.len() == self.order().len(),
            self.order().len() <= self.capacity(),
            forall|k: usize| self@.contains(k) ==> k < self.capacity(),
    {
        self.order().unique_seq_to_set();
        assert forall|k: usize| self@.contains(k) implies k < self.capacity() by {
            let i = choose|i: int| 0 <= i < self.order().len() && self.order()[i] == k;
            assert(self.order()[i] < self.capacity());
        }
        lemma_bounded_keys(self@, self.capacity());
    }

    /// An empty set over the keys `0..size`.
    pub fn new(size: usize) -> (s: Self)
        ensures
            s.wf(),
            s.capacity() == size,
            s.order() == Seq::<usize>::empty(),
            s@ == Set::<usize>::empty(),
    {
        let mut sparse: Vec<Option<usize>> = Vec::new();
        let mut i: usize = 0;
        while i < size
            invariant
                i <= size,
                sparse@.len() == i,
                forall|j: int| 0 <= j < i ==> sparse@[j] is None,
            decreases size - i,
        {
            sparse.push(None);
            i += 1;
        }
        let s = DenseFastSet { dense: Vec::new(), sparse };
        assert(s@ =~= Set::<usize>::empty());
        s
    }

    /// Appends a key that the caller knows to be absent.
    pub fn insert_unchecked(&mut self, key: usize)
        requires
            old(self).wf(),
            key < old(self).capacity(),
            !old(self)@.contains(key),
        ensures
            final(self).wf(),
            final(self).capacity() == old(self).capacity(),
            final(self).order() == old(self).order().push(key),
            final(self)@ == old(self)@.insert(key),
    {
        proof {
            old(self).lemma_size();
            if old(self).sparse@[key as int] is Some {
                let i = old(self).sparse@[key as int]->0;
                assert(old(self).dense@[i as int] == key);
                assert(old(self)@.contains(key));
            }
        }
        self.dense.push(key);
        let at: usize = self.dense.len() - 1;
        self.sparse[key] = Some(at);
        proof {
            assert(self.order() == old(self).order().push(key));
            old(self).order().lemma_push_to_set_commute(key);
            assert forall|i: int, j: int|
                0 <= i < self.order().len() && 0 <= j < self.order().len() && i != j implies self.order()[i]
                != self.order()[j] by {
                if i == at {
                    assert(old(self).order()[j] != key);
                } else if j == at {
                    assert(old(self).order()[i] != key);
                }
            }
            assert forall|i: int| 0 <= i < self.dense@.len() implies (#[trigger] self.dense@[i])
                < self.sparse@.len() && self.sparse@[self.dense@[i] as int] == Some(
                i as usize,
            ) by {
                if i != at {
                    assert(old(self).dense@[i] == self.dense@[i]);
                    assert(old(self).order()[i] != key);
                }
            }
        }
    }

    /// Inserts `key` unless it is a member already, and tells whether it was
    /// inserted.
    pub fn insert(&mut self, key: usize) -> (fresh: bool)
        requires
            old(self).wf(),
            key < old(self).capacity(),
        ensures
            final(self).wf(),
            final(self).capacity() == old(self).capacity(),
            fresh == !old(self)@.contains(key),
            fresh ==> final(self).order() == old(self).order().push(key),
            !fresh ==> final(self).order() == old(self).order(),
            final(self)@ == old(self)@.insert(key),
    {
        if !self.contains(key) {
            self.insert_unchecked(key);
            return true;
        }
        assert(self@ =~= old(self)@.insert(key));
        false
    }

    /// Removes `key` if it is a member, and tells whether it was. The last
    /// member takes the place of `key` in the packed order.
    pub fn remove(&mut self, key: usize) -> (present: bool)
        requires
            old(self).wf(),
            key < old(self).capacity(),
        ensures
            final(self).wf(),
            final(self).capacity() == old(self).capacity(),
            present == old(self)@.contains(key),
            present ==> final(self).order() == swap_removed(old(self).order(), key),
            !present ==> final(self).order() == old(self).order(),
            final(self)@ == old(self)@.remove(key),
    {
        if let Some(dense_idx) = self.dense_idx(key) {
            proof {
                lemma_swap_removed(old(self).order(), key);
                old(self).lemma_size();
            }
            let last: usize = self.dense.len() - 1;
            let back: usize = self.dense[last];
            let removed: usize = self.dense.swap_remove(dense_idx);
            self.sparse[back] = Some(dense_idx);
            self.sparse[removed] = None;
            proof {
                assert(removed == key);
                assert(self.order() == swap_removed(old(self).order(), key));
                assert forall|i: int| 0 <= i < self.dense@.len() implies (
                #[trigger] self.dense@[i]) < self.sparse@.len() && self.sparse@[self.dense@[i] as int]
                    == Some(i as usize) by {
                    if i == dense_idx {
                        assert(self.dense@[i] == back);
                        assert(old(self).dense@[last as int] == back);
                    } else {
                        assert(self.dense@[i] == old(self).dense@[i]);
                        assert(old(self).dense@[i] != back);
                        assert(old(self).dense@[i] != key);
                    }
                }
                assert forall|k: int| 0 <= k < self.sparse@.len() implies ((
                #[trigger] self.sparse@[k]) matches Some(i) ==> i < self.dense@.len()
                    && self.dense@[i as int] == k) by {
                    if k != back && k != key {
                        assert(self.sparse@[k] == old(self).sparse@[k]);
                        if let Some(i) = old(self).sparse@[k] {
                            assert(old(self).dense@[i as int] == k);
                        }
                    }
                }
                assert forall|i: int| 0 <= i < self.order().len() implies (
                #[trigger] self.order()[i]) < self.capacity() by {
                    if i == dense_idx {
                        assert(old(self).order()[last as int] < self.capacity());
                    } else {
                        assert(old(self).order()[i] < self.capacity());
                    }
                }
            }
            true
        } else {
            assert(self@ =~= old(self)@.remove(key));
            false
        }
    }

    /// Whether `key` is a member.
    pub fn contains(&self, key: usize) -> (present: bool)
        requires
            self.wf(),
            key < self.capacity(),
        ensures
            present == self@.contains(key),
    {
        self.dense_idx(key).is_some()
    }

    /// The place of `key` in the packed order, if it is a member.
    pub fn dense_idx(&self, key: usize) -> (at: Option<usize>)
        requires
            self.wf(),
            key < self.capacity(),
        ensures
            at is Some <==> self@.contains(key),
            at matches Some(i) ==> i < self.order().len() && self.order()[i as int] == key
                && i == self.order().index_of(key),
    {
        let at = self.sparse[key];
        proof {
            if let Some(i) = at {
                assert(self.dense@[i as int] == key);
                assert(self.order().contains(key));
                let j = self.order().index_of(key);
                assert(self.order()[j] == key);
            } else {
                if self@.contains(key) {
                    let i = choose|i: int| 0 <= i < self.order().len() && self.order()[i] == key;
                    assert(self.sparse@[self.dense@[i] as int] == Some(i as usize));
                }
            }
        }
        at
    }

    /// Removes every member.
    pub fn clear(&mut self)
        requires
            old(self).wf(),
        ensures
            final(self).wf(),
            final(self).capacity() == old(self).capacity(),
            final(self).order() == Seq::<usize>::empty(),
            final(self)@ == Set::<usize>::empty(),
    {
        self.dense.clear();
        let n: usize = self.sparse.len();
        let mut i: usize = 0;
        while i < n
            invariant
                i <= n,
                n == self.sparse@.len(),
                self.sparse@.len() == old(self).sparse@.len(),
                self.dense@.len() == 0,
                forall|j: int| 0 <= j < i ==> self.sparse@[j] is None,
            decreases n - i,
        {
            self.sparse[i] = None;
            i += 1;
        }
        assert(self@ =~= Set::<usize>::empty());
    }

    /// The members, in packed order.
    pub fn iter(&self) -> (members: Vec<usize>)
        ensures
            members@ == self.order(),
    {
        collect_copied(&self.dense)
    }

    /// Whether the set has no member.
    pub fn is_empty(&self) -> (empty: bool)
        ensures
            empty == (self.order().len() == 0),
    {
        self.dense.is_empty()
    }

    /// The number of members.
    pub fn size(&self) -> (n: usize)
        ensures
            n == self.order().len(),
    {
        self.dense.len()
    }
}

/// `Itertools::collect_vec` on a copying walk over `items`: the new vector
/// holds the items of the walk, in its order, so it equals `items`.
#[verifier::external_body]
pub(crate) fn collect_copied(items: &Vec<usize>) -> (copy: Vec<usize>)
    ensures
        copy@ == items@,
{
    items.iter().copied().collect_vec()
}

} // verus!
