//! A first-in, first-out buffer that never holds more items than its size.

use std::collections::VecDeque;
use vstd::prelude::*;

verus! {

/// What a buffer of the given size holds after `item` is added to `contents`.
///
/// A buffer of size zero stays empty. A full buffer drops its oldest item to
/// make room.
pub open spec fn after_add<T>(contents: Seq<T>, size: nat, item: T) -> Seq<T> {
    if size == 0 {
        contents
    } else if contents.len() >= size {
        contents.skip(1).push(item)
    } else {
        contents.push(item)
    }
}

/// The item that leaves a buffer of the given size when `item` is added to
/// `contents`, if any. A buffer of size zero hands the new item straight back.
pub open spec fn evicted_by_add<T>(contents: Seq<T>, size: nat, item: T) -> Option<T> {
    if size == 0 {
        Some(item)
    } else if contents.len() >= size {
        Some(contents[0])
    } else {
        None
    }
}

/// What a buffer of the given size holds after every item of `items` is added
/// to `contents`, first to last.
pub open spec fn after_add_all<T>(contents: Seq<T>, size: nat, items: Seq<T>) -> Seq<T>
    decreases items.len(),
{
    if items.len() == 0 {
        contents
    } else {
        after_add(after_add_all(contents, size, items.drop_last()), size, items.last())
    }
}

/// The items that leave a buffer of the given size while every item of `items`
/// is added to `contents`, in the order in which they leave.
pub open spec fn evicted_by_add_all<T>(contents: Seq<T>, size: nat, items: Seq<T>) -> Seq<T>
    decreases items.len(),
{
    if items.len() == 0 {
        Seq::empty()
    } else {
        let before = after_add_all(contents, size, items.drop_last());
        let earlier = evicted_by_add_all(contents, size, items.drop_last());
        match evicted_by_add(before, size, items.last()) {
            Some(gone) => earlier.push(gone),
            None => earlier,
        }
    }
}

/// The last `n` items of `s`, or all of `s` where it has fewer.
pub open spec fn newest<T>(s: Seq<T>, n: nat) -> Seq<T> {
    if s.len() <= n {
        s
    } else {
        s.skip(s.len() - n)
    }
}

/// The items of `s` that come before its last `n`.
pub open spec fn oldest_beyond<T>(s: Seq<T>, n: nat) -> Seq<T> {
    if s.len() <= n {
        Seq::empty()
    } else {
        s.take(s.len() - n)
    }
}

/// Adding items one after another to a buffer of positive size that was within
/// its size leaves it holding the newest items, as many as its size allows and
/// in the order in which they arrived. The items that left while doing so are
/// all the older ones, oldest first.
pub proof fn lemma_add_all_keeps_newest<T>(contents: Seq<T>, size: nat, items: Seq<T>)
    requires
        size > 0,
        contents.len() <= size,
    ensures
        after_add_all(contents, size, items) == newest(contents + items, size),
        evicted_by_add_all(contents, size, items) == oldest_beyond(contents + items, size),
    decreases items.len(),
{
    if items.len() == 0 {
        assert(contents + items =~= contents);
    } else {
        let earlier = items.drop_last();
        let item = items.last();
        lemma_add_all_keeps_newest(contents, size, earlier);
        let before = contents + earlier;
        assert(contents + items =~= before.push(item));
        assert(after_add(newest(before, size), size, item) =~= newest(before.push(item), size));
        if before.len() >= size {
            assert(oldest_beyond(before, size).push(newest(before, size)[0]) =~= oldest_beyond(
                before.push(item),
                size,
            ));
        } else {
            assert(oldest_beyond(before.push(item), size) =~= Seq::<T>::empty());
        }
    }
}

/// After more items than its size were added to a new buffer of positive size,
/// the buffer holds exactly the last `size` of them in the order in which they
/// arrived, and the items handed back by the additions are exactly the ones
/// before those, in the same order.
pub proof fn lemma_overfilled_buffer<T>(size: nat, items: Seq<T>)
    requires
        size > 0,
        items.len() > size,
    ensures
        after_add_all(Seq::empty(), size, items) == items.skip(items.len() - size),
        evicted_by_add_all(Seq::empty(), size, items) == items.take(items.len() - size),
{
    lemma_add_all_keeps_newest(Seq::empty(), size, items);
    assert(Seq::<T>::empty() + items =~= items);
}

/// A buffer of size zero stays empty, and every item added to it is handed
/// straight back.
pub proof fn lemma_size_zero_holds_nothing<T>(items: Seq<T>)
    ensures
        after_add_all(Seq::empty(), 0, items) == Seq::<T>::empty(),
        evicted_by_add_all(Seq::empty(), 0, items) == items,
    decreases items.len(),
{
    if items.len() > 0 {
        lemma_size_zero_holds_nothing(items.drop_last());
        assert(items.drop_last().push(items.last()) =~= items);
    }
}

/// A buffer that is within its size stays within it, whatever is added.
pub proof fn lemma_add_all_within_size<T>(contents: Seq<T>, size: nat, items: Seq<T>)
    requires
        contents.len() <= size,
    ensures
        after_add_all(contents, size, items).len() <= size,
    decreases items.len(),
{
    if items.len() > 0 {
        lemma_add_all_within_size(contents, size, items.drop_last());
    }
}

/// Items added in two goes leave the buffer as the same items added in one.
pub proof fn lemma_add_all_in_parts<T>(contents: Seq<T>, size: nat, first: Seq<T>, second: Seq<T>)
    ensures
        after_add_all(contents, size, first + second) == after_add_all(
            after_add_all(contents, size, first),
            size,
            second,
        ),
    decreases second.len(),
{
    if second.len() == 0 {
        assert(first + second =~= first);
    } else {
        lemma_add_all_in_parts(contents, size, first, second.drop_last());
        assert((first + second).drop_last() =~= first + second.drop_last());
    }
}

/// A buffer with fixed size. When adding exceeds its size, the oldest item is
/// removed.
#[derive(Debug)]
pub struct FixedSizeBuffer<T> {
    inner: VecDeque<T>,
    size: usize,
}

impl<T> View for FixedSizeBuffer<T> {
    type V = Seq<T>;

    /// The items held, oldest first.
    closed spec fn view(&self) -> Seq<T> {
        self.inner@
    }
}

impl<T: Clone> Clone for FixedSizeBuffer<T> {
    fn clone(&self) -> (copy: Self)
        ensures
            copy.spec_size() == self.spec_size(),
            copy@.len() == self@.len(),
            forall|i: int| 0 <= i < self@.len() ==> cloned::<T>(#[trigger] self@[i], copy@[i]),
    {
        proof {
            use_type_invariant(self);
        }
        Self { inner: self.inner.clone(), size: self.size }
    }
}

impl<T> FixedSizeBuffer<T> {
    #[verifier::type_invariant]
    spec fn within_size(&self) -> bool {
        self.inner@.len() <= self.size
    }

    /// The size the buffer was made with.
    pub closed spec fn spec_size(&self) -> usize {
        self.size
    }

    /// An empty buffer that will hold at most `size` items.
    pub fn new(size: usize) -> (buffer: Self)
        ensures
            buffer@ == Seq::<T>::empty(),
            buffer.spec_size() == size,
    {
        Self { inner: VecDeque::new(), size }
    }

    /// Adds `item` as the newest. Returns the item that had to leave, if any.
    pub fn add(&mut self, item: T) -> (removed: Option<T>)
        ensures
            final(self)@ == after_add(old(self)@, old(self).spec_size() as nat, item),
            removed == evicted_by_add(old(self)@, old(self).spec_size() as nat, item),
            final(self).spec_size() == old(self).spec_size(),
    {
        proof {
            use_type_invariant(&*self);
        }
        if self.size == 0 {
            return Some(item);
        }
        let mut inner = VecDeque::new();
        core::mem::swap(&mut self.inner, &mut inner);
        let removed = if self.size <= inner.len() {
            inner.pop_front()
        } else {
            None
        };
        inner.push_back(item);
        core::mem::swap(&mut self.inner, &mut inner);
        removed
    }

    /// Takes the oldest item out.
    pub fn remove(&mut self) -> (removed: Option<T>)
        ensures
            final(self).spec_size() == old(self).spec_size(),
            old(self)@.len() == 0 ==> removed.is_none() && final(self)@ == old(self)@,
            old(self)@.len() > 0 ==> removed == Some(old(self)@[0]) && final(self)@ == old(
                self,
            )@.skip(1),
    {
        proof {
            use_type_invariant(&*self);
        }
        let mut inner = VecDeque::new();
        core::mem::swap(&mut self.inner, &mut inner);
        let removed = inner.pop_front();
        core::mem::swap(&mut self.inner, &mut inner);
        removed
    }

    /// Takes all items out. The size stays.
    pub fn clear(&mut self)
        ensures
            final(self)@ == Seq::<T>::empty(),
            final(self).spec_size() == old(self).spec_size(),
    {
        let mut inner = VecDeque::new();
        core::mem::swap(&mut self.inner, &mut inner);
        inner.clear();
        core::mem::swap(&mut self.inner, &mut inner);
    }

    /// The oldest item.
    pub fn first(&self) -> (item: Option<&T>)
        ensures
            self@.len() == 0 ==> item.is_none(),
            self@.len() > 0 ==> item == Some(&self@[0]),
    {
        if self.inner.len() == 0 {
            None
        } else {
            Some(&self.inner[0])
        }
    }

    /// The newest item.
    pub fn last(&self) -> (item: Option<&T>)
        ensures
            self@.len() == 0 ==> item.is_none(),
            self@.len() > 0 ==> item == Some(&self@[self@.len() - 1]),
    {
        let n = self.inner.len();
        if n == 0 {
            None
        } else {
            Some(&self.inner[n - 1])
        }
    }

    /// How many items the buffer holds: never more than its size.
    pub fn len(&self) -> (n: usize)
        ensures
            n == self@.len(),
            n <= self.spec_size(),
    {
        proof {
            use_type_invariant(self);
        }
        self.inner.len()
    }

    /// How many items the buffer holds at most.
    #[verifier::when_used_as_spec(spec_size)]
    pub fn size(&self) -> (size: usize)
        ensures
            size == self.spec_size(),
    {
        self.size
    }

    /// Whether the buffer holds no item.
    pub fn is_empty(&self) -> (empty: bool)
        ensures
            empty == (self@.len() == 0),
    {
        self.inner.len() == 0
    }

    /// The item at `index`, counted from the oldest.
    pub fn get(&self, index: usize) -> (item: Option<&T>)
        ensures
            index >= self@.len() ==> item.is_none(),
            index < self@.len() ==> item == Some(&self@[index as int]),
    {
        if index < self.inner.len() {
            Some(&self.inner[index])
        } else {
            None
        }
    }

    /// Walks the items from the oldest to the newest.
    pub fn iter(&self) -> (iter: FixedSizeBufferIter<'_, T>)
        ensures
            iter@ == self@,
    {
        FixedSizeBufferIter { buf: self, i: 0, m: self.inner.len() }
    }

    /// Adds every item of `items`, first to last. The items that have to leave
    /// are dropped.
    pub fn extend(&mut self, items: Vec<T>)
        ensures
            final(self)@ == after_add_all(old(self)@, old(self).spec_size() as nat, items@),
            final(self).spec_size() == old(self).spec_size(),
    {
        let ghost start = self@;
        let ghost size = self.spec_size() as nat;
        for item in it: items
            invariant
                it.seq() == items@,
                self@ == after_add_all(start, size, items@.take(it.index() as int)),
                self.spec_size() == size,
        {
            assert(items@.take(it.index() + 1).drop_last() =~= items@.take(it.index() as int));
            let _ = self.add(item);
        }
        assert(items@.take(items@.len() as int) =~= items@);
    }
}

/// A walk over the items of a [`FixedSizeBuffer`], oldest first.
#[derive(Debug)]
pub struct FixedSizeBufferIter<'a, T> {
    buf: &'a FixedSizeBuffer<T>,
    i: usize,
    m: usize,
}

impl<'a, T> View for FixedSizeBufferIter<'a, T> {
    type V = Seq<T>;

    /// The items still to come, next first.
    closed spec fn view(&self) -> Seq<T> {
        self.buf@.subrange(self.i as int, self.m as int)
    }
}

impl<'a, T> FixedSizeBufferIter<'a, T> {
    #[verifier::type_invariant]
    spec fn within_buffer(&self) -> bool {
        self.i <= self.m && self.m == self.buf@.len()
    }

    /// Hands out the next item, or nothing once every item was handed out.
    pub fn next(&mut self) -> (item: Option<&'a T>)
        ensures
            old(self)@.len() == 0 ==> item.is_none() && final(self)@ == old(self)@,
            old(self)@.len() > 0 ==> item == Some(&old(self)@[0]) && final(self)@ == old(
                self,
            )@.skip(1),
    {
        proof {
            use_type_invariant(&*self);
        }
        if self.i < self.m {
            let at = self.i;
            self.i = at + 1;
            assert(self@ =~= old(self)@.skip(1));
            Some(&self.buf.inner[at])
        } else {
            None
        }
    }
}

} // verus!
