//! Views into a buffer: where one lies within another, and operations that
//! cut a buffer down to a view or split it into views, in place.

use std::ops::Range;
use vstd::prelude::*;
use vstd::seq_lib::{
    to_multiset_build, to_multiset_contains, to_multiset_remove, to_multiset_update,
};
use crate::iter::StreamingIterator;

verus! {

/// `<[T]>::swap`: exchanges the items at the indices `a` and `b`, which must
/// both lie within the slice.
pub assume_specification<Elem>[ <[Elem]>::swap ](slice: &mut [Elem], a: usize, b: usize)
    requires
        a < old(slice)@.len(),
        b < old(slice)@.len(),
    ensures
        final(slice)@ == swapped(old(slice)@, a as int, b as int),
;

/// `s` with the items at `a` and `b` exchanged.
pub open spec fn swapped<T>(s: Seq<T>, a: int, b: int) -> Seq<T>
    recommends
        0 <= a < s.len(),
        0 <= b < s.len(),
{
    s.update(a, s[b]).update(b, s[a])
}

/// Whether the view `inner` lies within the view `outer`.
pub open spec fn within(outer: Range<usize>, inner: Range<usize>) -> bool {
    outer.start <= inner.start && inner.end <= outer.end
}

/// The place of the view `inner` within the view `slf`: the number of items
/// of `slf` that lie before it. Both views are given by where they start and
/// end, in units of which an item takes `size`.
pub fn subslice_offset(slf: &Range<usize>, inner: &Range<usize>, size: usize) -> (offset: usize)
    requires
        size > 0,
        within(*slf, *inner),
    ensures
        offset == (inner.start - slf.start) / (size as int),
{
    let a_start = slf.start;
    let b_start = inner.start;
    (b_start - a_start) / size
}

/// Whether `f`, given a buffer that holds `content`, may answer `out`.
pub open spec fn answers<In: View + ?Sized, F: FnOnce(&In) -> Out, Out>(
    f: F,
    content: In::V,
    out: Out,
) -> bool {
    exists|s: &In| s@ == content && #[trigger] call_ensures(f, (s,), out)
}

/// Whether `f` can be called on a buffer that holds `content`.
pub open spec fn takes<In: View + ?Sized, F: FnOnce(&In) -> Out, Out>(f: F, content: In::V) -> bool {
    forall|s: &In| s@ == content ==> #[trigger] call_requires(f, (s,))
}

pub trait VecTools<T>: View<V = Seq<T>> {
    /// Cuts the buffer down to the view that `f` selects among its items:
    /// the items of the view move to the front, in their order, and the
    /// buffer ends after them. The view is a range of indices, which has to
    /// lie within the buffer.
    fn in_place<F>(&mut self, f: F) where F: FnOnce(&[T]) -> Range<usize>
        requires
            takes(f, old(self)@),
            forall|r: Range<usize>| #[trigger]
                answers(f, old(self)@, r) ==> r.start <= r.end <= old(self)@.len(),
        ensures
            exists|r: Range<usize>| #[trigger]
                answers(f, old(self)@, r) && final(self)@ == old(self)@.subrange(
                    r.start as int,
                    r.end as int,
                ),
    ;
}

impl<T> VecTools<T> for Vec<T> {
    fn in_place<F>(&mut self, f: F) where F: FnOnce(&[T]) -> Range<usize> {
        let (offset, len2);
        {
            let s2 = f(self.as_slice());
            assert(answers(f, old(self)@, s2));
            // The view lies within the buffer: where does it start?
            offset = subslice_offset(&(0..self.len()), &s2, 1);
            len2 = s2.end - s2.start;
        }
        for i in 0..len2
            invariant
                offset + len2 <= old(self)@.len() <= usize::MAX,
                self@.len() == old(self)@.len(),
                forall|k: int| 0 <= k < i ==> self@[k] == old(self)@[k + offset],
                forall|k: int| i + offset <= k < self@.len() ==> self@[k] == old(self)@[k],
        {
            self.swap(i, i + offset);
        }
        self.truncate(len2);
        assert(self@ =~= old(self)@.subrange(offset as int, offset + len2));
    }
}

/// Of two views, the one that starts first; the first of them where both
/// start at one place.
pub open spec fn lower(a: Range<usize>, b: Range<usize>) -> Range<usize> {
    if a.start > b.start {
        b
    } else {
        a
    }
}

/// Of two views, the other one than [`lower`].
pub open spec fn upper(a: Range<usize>, b: Range<usize>) -> Range<usize> {
    if a.start > b.start {
        a
    } else {
        b
    }
}

/// Whether the views `a` and `b` lie within a buffer of `len` items and
/// apart from each other: the lower one ends where the upper one starts, or
/// before.
pub open spec fn apart_within(a: Range<usize>, b: Range<usize>, len: nat) -> bool {
    let lo = lower(a, b);
    let hi = upper(a, b);
    lo.start <= lo.end <= hi.start <= hi.end <= len
}

/// What is left of `s` once the item at `index` was exchanged with the last
/// one and taken away.
pub open spec fn rest_of<T>(s: Seq<T>, index: int) -> Seq<T>
    recommends
        0 <= index < s.len(),
{
    swapped(s, index, s.len() - 1).drop_last()
}

pub trait SliceTools<T>: View<V = Seq<T>> {
    /// Splits the slice into the two views that `f` selects among its items,
    /// the lower one first. Each view is a range of indices. The two have to
    /// lie within the slice and apart from each other.
    ///
    /// What is written through one of the views changes the items of that
    /// view in the slice, and nothing else.
    fn promote<F>(&mut self, f: F) -> (ret: (&mut [T], &mut [T])) where
        F: FnOnce(&[T]) -> (Range<usize>, Range<usize>),

        requires
            takes(f, old(self)@),
            forall|p: (Range<usize>, Range<usize>)| #[trigger]
                answers(f, old(self)@, p) ==> apart_within(p.0, p.1, old(self)@.len()),
        ensures
            exists|p: (Range<usize>, Range<usize>)|
                {
                    let lo = lower(p.0, p.1);
                    let hi = upper(p.0, p.1);
                    &&& #[trigger] answers(f, old(self)@, p)
                    &&& ret.0@ == old(self)@.subrange(lo.start as int, lo.end as int)
                    &&& ret.1@ == old(self)@.subrange(hi.start as int, hi.end as int)
                    &&& final(self)@ == old(self)@.subrange(0, lo.start as int) + final(ret.0)@
                        + old(self)@.subrange(lo.end as int, hi.start as int) + final(ret.1)@
                        + old(self)@.subrange(hi.end as int, old(self)@.len() as int)
                },
    ;

    /// Takes the item at `index` out of the slice: the item is exchanged with
    /// the last one, and the slice is split before it. Returns the item and
    /// the rest of the slice.
    fn swap_remove(&mut self, index: usize) -> (ret: (&mut T, &mut [T]))
        requires
            index < old(self)@.len(),
        ensures
            *ret.0 == old(self)@[index as int],
            ret.1@ == rest_of(old(self)@, index as int),
            final(self)@ == final(ret.1)@.push(*final(ret.0)),
    ;

    /// A streaming iterator that takes each item out of the slice in turn,
    /// and yields the item together with the rest of the slice.
    fn remove_iter(&mut self) -> (it: RemoveIter<'_, T>)
        ensures
            it.slice@ == old(self)@,
            it.idx == 0,
            it.at(old(self)@, 0),
            final(self)@ == final(it.slice)@,
    ;
}

impl<T> SliceTools<T> for [T] {
    fn promote<F>(&mut self, f: F) -> (ret: (&mut [T], &mut [T])) where
        F: FnOnce(&[T]) -> (Range<usize>, Range<usize>),
     {
        let (mut a, mut b) = f(&*self);
        assert(answers(f, old(self)@, (a, b)));
        if a.start > b.start {
            std::mem::swap(&mut a, &mut b);
        }
        let (head, tail) = self.split_at_mut(b.start);
        let (second, _) = tail.split_at_mut(b.end - b.start);
        let (head, _) = head.split_at_mut(a.end);
        let (_, first) = head.split_at_mut(a.start);
        (first, second)
    }

    fn swap_remove(&mut self, index: usize) -> (ret: (&mut T, &mut [T])) {
        let len = self.len();
        self.swap(len - 1, index);
        let (rest, last) = self.split_at_mut(len - 1);
        let last = &mut last[0];
        (last, rest)
    }

    fn remove_iter(&mut self) -> (it: RemoveIter<'_, T>) {
        RemoveIter { slice: self, idx: 0 }
    }
}

/// A streaming iterator over the items of a slice, each with the rest of
/// the slice. For each pull it exchanges one item with the last one, and
/// it undoes that before the next pull.
pub struct RemoveIter<'a, T> {
    /// The slice, with the item of the last pull at its end.
    pub slice: &'a mut [T],
    /// The number of pulls that yielded an item.
    pub idx: usize,
}

/// The slice that a [`RemoveIter`] over the items `first` holds after
/// `pulls` pulls, where nothing was written through what they yielded: the
/// item of the last pull lies at the end, in exchange for the last item. Once
/// a pull has yielded no item, the slice is as it was at first.
pub open spec fn after_pulls<T>(first: Seq<T>, pulls: nat) -> Seq<T> {
    if 0 < pulls <= first.len() {
        swapped(first, pulls - 1, first.len() - 1)
    } else {
        first
    }
}

impl<'b, T> RemoveIter<'b, T> {
    /// The items of the slice in the order in which the iterator met them
    /// and will leave them.
    pub open spec fn restored(&self) -> Seq<T> {
        if 0 < self.idx <= self.slice@.len() {
            swapped(self.slice@, self.idx - 1, self.slice@.len() - 1)
        } else {
            self.slice@
        }
    }

    /// Whether the iterator is where `pulls` pulls take an iterator over the
    /// items `first`, where nothing was written through what they yielded.
    pub open spec fn at(&self, first: Seq<T>, pulls: nat) -> bool {
        &&& self.slice@ == after_pulls(first, pulls)
        &&& self.idx == if pulls <= first.len() {
            pulls
        } else {
            first.len()
        }
    }
}

impl<'b, T> RemoveIter<'b, T> {
    /// Puts the item of the last pull back in its place and takes out the
    /// next one. Returns `None` once each item was yielded; the slice is
    /// then in the order in which the iterator met it, and stays so.
    ///
    /// The item and the rest can be written through. Where they are left as
    /// they are, the order to which the slice returns stays the same.
    ///
    /// So an iterator over a slice of `n` items yields an item at each of its
    /// first `n` pulls, and none from then on. Pull `k + 1` yields the item
    /// that lay at index `k` at first, with the other items as the rest. When
    /// a pull has yielded no item, the slice is as it was at first.
    pub fn next_streaming(&mut self) -> (ret: Option<(&mut T, &mut [T])>)
        ensures
            forall|first: Seq<T>, k: nat| #[trigger]
                old(self).at(first, k) ==> {
                    &&& ret is Some <==> k < first.len()
                    &&& ret matches Some(p) ==> {
                        &&& *p.0 == first[k as int]
                        &&& p.1@ == rest_of(first, k as int)
                        &&& p.1@.len() == first.len() - 1
                        &&& p.1@.to_multiset() == first.remove(k as int).to_multiset()
                        &&& final(p.1)@ == p.1@ && *final(p.0) == *p.0 ==> final(self).at(
                            first,
                            k + 1,
                        )
                    }
                    &&& ret is None ==> final(self).at(first, k + 1) && final(self).slice@
                        == first
                },
            ret is Some <==> old(self).idx < old(self).slice@.len(),
            ret is None ==> final(self).idx == old(self).idx && final(self).slice@ == old(
                self,
            ).restored(),
            ret matches Some(p) ==> {
                &&& *p.0 == old(self).restored()[old(self).idx as int]
                &&& p.1@ == rest_of(old(self).restored(), old(self).idx as int)
                &&& final(self).idx == old(self).idx + 1
                &&& final(self).slice@ == final(p.1)@.push(*final(p.0))
                &&& final(p.1)@ == p.1@ && *final(p.0) == *p.0 ==> final(self).restored() == old(
                    self,
                ).restored()
            },
            final(final(self).slice)@ == final(old(self).slice)@,
    {
        proof {
            if self.idx < self.slice@.len() {
                lemma_swap_back(self.restored(), self.idx as int);
                lemma_rest_of(self.restored(), self.idx as int);
            }
            assert forall|first: Seq<T>, k: nat| #[trigger] self.at(first, k) implies self.restored()
                =~= first && (self.idx < self.slice@.len() <==> k < first.len()) && (k
                < first.len() ==> self.idx == k && after_pulls(first, k + 1) =~= rest_of(
                first,
                k as int,
            ).push(first[k as int])) by {}
        }
        let len = self.slice.len();
        if self.idx > len {
            return None;
        }
        if self.idx > 0 {
            // Undo the swap_remove from the previous iteration
            self.slice.swap(self.idx - 1, len - 1);
            assert(self.slice@ =~= old(self).restored());
        }
        if self.idx == len {
            return None;
        }
        self.idx += 1;
        Some(self.slice.swap_remove(self.idx - 1))
    }

    /// Pulls until no item is left, and returns the number of items that
    /// were yielded.
    ///
    /// An iterator over a slice of `n` items that has made `k` pulls yields
    /// `n - k` more items, and leaves the slice in the order in which it met
    /// it. So an iterator that has made no pull yet yields `n` items, and
    /// leaves the slice as it was.
    pub fn count(self) -> (pulls: usize)
        ensures
            pulls == if self.idx <= old(self.slice)@.len() {
                old(self.slice)@.len() - self.idx
            } else {
                0
            },
            final(self.slice)@ == self.restored(),
            forall|first: Seq<T>, k: nat| #[trigger]
                self.at(first, k) ==> final(self.slice)@ == first && (k <= first.len() ==> pulls
                    == first.len() - k),
    {
        let ghost start = self;
        let ghost end = final(self.slice)@;
        let ghost len = self.slice@.len();
        let mut it = self;
        let mut pulls: usize = 0;
        let mut done = false;
        proof {
            assert forall|first: Seq<T>, k: nat| #[trigger] start.at(first, k) implies start.restored()
                =~= first && (k <= first.len() ==> start.idx == k) by {}
        }
        while !done
            invariant
                final(it.slice)@ == end,
                it.slice@.len() == len,
                len == start.slice@.len(),
                !done ==> it.restored() == start.restored(),
                !done && start.idx <= len ==> it.idx == start.idx + pulls && it.idx <= len,
                !done && start.idx > len ==> it.idx == start.idx && pulls == 0,
                done ==> it.slice@ == start.restored(),
                done && start.idx <= len ==> pulls == len - start.idx,
                done && start.idx > len ==> pulls == 0,
            decreases
                    (if it.idx <= len {
                        len - it.idx
                    } else {
                        0
                    }) + (if done {
                        0int
                    } else {
                        1int
                    }),
        {
            proof {
                if it.idx < len {
                    lemma_rest_of(it.restored(), it.idx as int);
                }
            }
            match it.next_streaming() {
                Some(_) => {
                    pulls += 1;
                },
                None => {
                    done = true;
                },
            }
        }
        pulls
    }
}

impl<'a, 'b, T: 'a> StreamingIterator<'a> for RemoveIter<'b, T> {
    type Item = (&'a mut T, &'a mut [T]);

    /// Takes out the next item, as [`RemoveIter::next_streaming`] does.
    fn next_streaming(&'a mut self) -> (ret: Option<(&'a mut T, &'a mut [T])>)
        ensures
            forall|first: Seq<T>, k: nat| #[trigger]
                old(self).at(first, k) ==> {
                    &&& ret is Some <==> k < first.len()
                    &&& ret matches Some(p) ==> {
                        &&& *p.0 == first[k as int]
                        &&& p.1@ == rest_of(first, k as int)
                        &&& p.1@.len() == first.len() - 1
                        &&& p.1@.to_multiset() == first.remove(k as int).to_multiset()
                        &&& final(p.1)@ == p.1@ && *final(p.0) == *p.0 ==> final(self).at(
                            first,
                            k + 1,
                        )
                    }
                    &&& ret is None ==> final(self).at(first, k + 1) && final(self).slice@
                        == first
                },
            ret is Some <==> old(self).idx < old(self).slice@.len(),
            ret is None ==> final(self).idx == old(self).idx && final(self).slice@ == old(
                self,
            ).restored(),
            ret matches Some(p) ==> {
                &&& *p.0 == old(self).restored()[old(self).idx as int]
                &&& p.1@ == rest_of(old(self).restored(), old(self).idx as int)
                &&& final(self).idx == old(self).idx + 1
                &&& final(self).slice@ == final(p.1)@.push(*final(p.0))
                &&& final(p.1)@ == p.1@ && *final(p.0) == *p.0 ==> final(self).restored() == old(
                    self,
                ).restored()
            },
            final(final(self).slice)@ == final(old(self).slice)@,
    {
        RemoveIter::next_streaming(self)
    }
}

/// The rest holds the items of the slice but the one that was taken: the
/// same items, as often as the slice holds them.
pub proof fn lemma_rest_of<T>(s: Seq<T>, index: int)
    requires
        0 <= index < s.len(),
    ensures
        rest_of(s, index).len() == s.len() - 1,
        rest_of(s, index).to_multiset() == s.remove(index).to_multiset(),
        rest_of(s, index).to_multiset().insert(s[index]) == s.to_multiset(),
{
    broadcast use vstd::multiset::group_multiset_axioms;

    let last = s.len() - 1;
    let once = s.update(index, s[last]);
    let both = swapped(s, index, last);
    let rest = rest_of(s, index);
    to_multiset_update(s, index, s[last]);
    to_multiset_update(once, last, s[index]);
    to_multiset_build(rest, s[index]);
    to_multiset_remove(s, index);
    assert(both =~= rest.push(s[index]));
    assert(s.to_multiset().count(s[index]) > 0) by {
        assert(s.contains(s[index]));
        to_multiset_contains(s, s[index]);
    }
    assert(s.to_multiset().count(s[last]) > 0) by {
        assert(s.contains(s[last]));
        to_multiset_contains(s, s[last]);
    }
    assert(both.to_multiset() =~= s.to_multiset());
    assert(rest.to_multiset() =~= s.to_multiset().remove(s[index]));
}

/// Once the item that was taken is back at the end of the rest, and
/// exchanged with the item that took its place, the slice is as it was.
pub proof fn lemma_swap_back<T>(s: Seq<T>, index: int)
    requires
        0 <= index < s.len(),
    ensures
        swapped(rest_of(s, index).push(s[index]), index, s.len() - 1) == s,
{
    assert(swapped(rest_of(s, index).push(s[index]), index, s.len() - 1) =~= s);
}

} // verus!
