//! Iterators: a decoder of UTF-8, streaming iterators, and adapters that
//! build them from the items of a `Vec`.

use std::collections::VecDeque;
use std::marker::PhantomData;
use typed_arena::Arena;
use vstd::prelude::*;
use vstd::std_specs::bits::axiom_u8_leading_zeros;
use vstd::std_specs::cmp::PartialEqSpec;
use vstd::std_specs::iter::IteratorSpec;
use vstd::utf8::*;
use crate::runs::{
    deduped, is_key_fn, key_of, keys_equal_themselves, lemma_deduped_after, lemma_run_len_bound,
    lemma_runs, repeat_len, run_len, runs, seen_keys,
};
use crate::utf8::{
    decoded, lemma_unit_scalar, lemma_unit_taken_bounds, second_fits, unit_decoded, unit_scalar,
    unit_taken, unit_well_formed, unit_width,
};

verus! {

/// `char::from_u32`: the `char` with the given scalar value, or `None` where
/// the value is a surrogate or lies above U+10FFFF.
pub assume_specification[ char::from_u32 ](i: u32) -> (r: Option<char>)
    ensures
        r == (if is_scalar(i) {
            Some(i as char)
        } else {
            None::<char>
        }),
;

/// `typed_arena::Arena`: a store that only grows, and that hands out a
/// mutable reference to each value moved into it.
#[verifier::external_type_specification]
#[verifier::external_body]
#[verifier::reject_recursive_types(Stored)]
pub struct ExArena<Stored>(Arena<Stored>);

/// `typed_arena::Arena::new`: an arena that holds nothing yet.
#[verifier::external_body]
fn arena_new<T>() -> Arena<T> {
    Arena::new()
}

/// `typed_arena::Arena::alloc`: moves `value` into the arena and returns a
/// reference to where it now lies. The place stays as it is for as long as
/// the arena lives.
#[verifier::external_body]
fn arena_alloc<'a, T>(arena: &'a Arena<T>, value: T) -> (stored: &'a mut T)
    ensures
        *stored == value,
{
    arena.alloc(value)
}

/// `VecDeque::from` on a `Vec`: a queue of the same items in the same order,
/// in the buffer that the `Vec` had.
#[verifier::external_body]
fn queue_of<T>(items: Vec<T>) -> (queue: VecDeque<T>)
    ensures
        queue@ == items@,
{
    VecDeque::from(items)
}

/// Adapters over the items of a sequence that is given up to them.
pub trait IterTools: Sized {
    type Item;

    /// The items, first to last.
    spec fn items(&self) -> Seq<Self::Item>;

    /// A decoder of UTF-8 that starts at the first byte.
    fn utf8_iter(self) -> (it: Utf8Iter<Self>)
        ensures
            it.source() == self,
            it.position() == 0,
    ;

    /// The runs of neighbouring items that share a key. `f` derives the key
    /// of an item: it has to take every item and to give one key for each, and
    /// `==` on keys has to be what its specification says.
    fn group<F, G>(self, f: F) -> (groups: Groups<Self::Item, F, G>) where
        F: Fn(&Self::Item) -> G,
        G: PartialEq,

        requires
            is_key_fn(f),
            G::obeys_eq_spec(),
        ensures
            groups@ == self.items(),
            groups.key_fn() == f,
            !groups.run_open(),
    ;

    /// Mutable references to the items, each moved into an arena.
    fn refs(self) -> (it: RefIter<Self::Item>)
        ensures
            it@ == self.items(),
    ;

    /// The items without those that repeat the item before them.
    fn dedup(self) -> (it: DedupIter<Self::Item>) where Self::Item: PartialEq
        ensures
            it@ == self.items(),
    ;
}

impl<T> IterTools for Vec<T> {
    type Item = T;

    open spec fn items(&self) -> Seq<T> {
        self@
    }

    #[inline(always)]
    fn utf8_iter(self) -> (it: Utf8Iter<Self>) {
        Utf8Iter { buf: self, pos: 0 }
    }

    #[inline(always)]
    fn group<F, G>(self, f: F) -> (groups: Groups<T, F, G>) where F: Fn(&T) -> G, G: PartialEq {
        Groups { iter: queue_of(self), key: KeyFn { f: f, of: PhantomData }, open: None }
    }

    #[inline(always)]
    fn refs(self) -> (it: RefIter<T>) {
        RefIter { iter: queue_of(self), arena: arena_new() }
    }

    #[inline(always)]
    fn dedup(self) -> (it: DedupIter<T>) where T: PartialEq {
        DedupIter { iter: queue_of(self) }
    }
}

/// The bits of a continuation byte that hold a part of the scalar value.
const CONT_MASK: u8 = 0x3F;

/// A decoder of UTF-8 over the bytes of `I`, read from the front.
pub struct Utf8Iter<I> {
    buf: I,
    pos: usize,
}

/// The number `l` of leading one bits of `first`, counted as the leading zero
/// bits of its complement `x`, tells in which range `first` lies.
proof fn lemma_leading_ones(first: u8, x: u8, l: u8)
    by (bit_vector)
    requires
        x == !first,
        l <= 8,
        x == 0 <==> l == 8,
        l < 8 ==> (x >> ((7u8 - l) as u8)) & 1u8 != 0u8,
        x >> ((8u8 - l) as u8) == 0,
    ensures
        l == 0 <==> first < 0x80,
        l == 1 <==> 0x80 <= first <= 0xBF,
        l == 2 <==> 0xC0 <= first <= 0xDF,
        l == 3 <==> 0xE0 <= first <= 0xEF,
        l == 4 <==> 0xF0 <= first <= 0xF7,
{
}

/// A byte with a clear high bit is a byte below 0x80.
proof fn lemma_high_bit(first: u8)
    by (bit_vector)
    ensures
        (first & (1u8 << 7u8)) == 0 <==> first < 0x80,
        first < 0x80 ==> (first & 0x7F) == first,
{
}

/// A byte whose two high bits are `10` is a continuation byte.
proof fn lemma_continuation(b: u8)
    by (bit_vector)
    ensures
        (b & 0xC0) == 0x80 <==> 0x80 <= b <= 0xBF,
{
}

/// The scalar bits gathered from the first `n` bytes of a unit of two bytes or
/// more: the low bits of the leading byte, then six bits for each further byte.
spec fn gathered(s: Seq<u8>, n: int) -> u32
    decreases n,
{
    if n <= 1 {
        if unit_width(s[0]) == 2 {
            (s[0] & 0x1F) as u32
        } else if unit_width(s[0]) == 3 {
            (s[0] & 0x0F) as u32
        } else {
            (s[0] & 0x07) as u32
        }
    } else {
        (gathered(s, n - 1) << 6u32) | ((s[n - 1] & 0x3F) as u32)
    }
}

/// The mask for the bits that a leading byte with `l` leading one bits holds.
proof fn lemma_lead_mask(l: u8)
    by (bit_vector)
    requires
        2 <= l <= 4,
    ensures
        (1u8 << ((7u8 - l) as u8)) >= 1,
        l == 2 ==> ((1u8 << ((7u8 - l) as u8)) - 1) as u8 == 0x1F,
        l == 3 ==> ((1u8 << ((7u8 - l) as u8)) - 1) as u8 == 0x0F,
        l == 4 ==> ((1u8 << ((7u8 - l) as u8)) - 1) as u8 == 0x07,
{
}

/// Three bytes gathered one after the other give the scalar bits of a unit
/// of three bytes.
proof fn lemma_gather_3(b1: u8, b2: u8, b3: u8)
    by (bit_vector)
    ensures
        ((((b1 & 0x0F) as u32) << 6u32 | ((b2 & 0x3F) as u32)) << 6u32) | ((b3 & 0x3F) as u32)
            == ((b1 & 0x0F) as u32) << 12u32 | ((b2 & 0x3F) as u32) << 6u32 | ((b3 & 0x3F) as u32),
{
}

/// Four bytes gathered one after the other give the scalar bits of a unit of
/// four bytes.
proof fn lemma_gather_4(b1: u8, b2: u8, b3: u8, b4: u8)
    by (bit_vector)
    ensures
        ((((((b1 & 0x07) as u32) << 6u32 | ((b2 & 0x3F) as u32)) << 6u32) | ((b3 & 0x3F) as u32))
            << 6u32) | ((b4 & 0x3F) as u32) == ((b1 & 0x07) as u32) << 18u32 | ((b2
            & 0x3F) as u32) << 12u32 | ((b3 & 0x3F) as u32) << 6u32 | ((b4 & 0x3F) as u32),
{
}

/// What was gathered from all the bytes of a well-formed unit is the unit's
/// scalar.
proof fn lemma_gathered_is_scalar(s: Seq<u8>)
    requires
        unit_well_formed(s),
        unit_width(s[0]) >= 2,
    ensures
        gathered(s, unit_width(s[0])) == unit_scalar(s),
{
    reveal_with_fuel(gathered, 5);
    lemma_unit_scalar(s);
    let w = unit_width(s[0]);
    if w == 3 {
        lemma_gather_3(s[0], s[1], s[2]);
    } else if w == 4 {
        lemma_gather_4(s[0], s[1], s[2], s[3]);
    }
}

impl<I> Utf8Iter<I> {
    /// The source of the bytes.
    pub closed spec fn source(&self) -> I {
        self.buf
    }

    /// The number of bytes of the source that have been read.
    pub closed spec fn position(&self) -> nat {
        self.pos as nat
    }
}

impl Utf8Iter<Vec<u8>> {
    /// The bytes that have not been read yet.
    pub open spec fn remaining(&self) -> Seq<u8> {
        if self.position() <= self.source()@.len() {
            self.source()@.skip(self.position() as int)
        } else {
            seq![]
        }
    }

    /// The number of bytes that have been read.
    pub fn bytes_read(&self) -> (n: usize)
        ensures
            n == self.position(),
    {
        self.pos
    }

    /// Decodes the unit at the front of the remaining bytes.
    ///
    /// Returns `None` once no byte is left. Otherwise it returns the scalar of
    /// a well-formed unit, or `Some(None)` for a malformed one, and takes the
    /// bytes of that unit. A malformed unit ends before the byte that did not
    /// fit: that byte is read again as the start of the next unit.
    pub fn next(&mut self) -> (ret: Option<Option<char>>)
        ensures
            old(self).remaining().len() == 0 ==> ret is None && final(self).remaining()
                == old(self).remaining(),
            old(self).remaining().len() > 0 ==> ret == Some(unit_decoded(old(self).remaining()))
                && final(self).remaining() == old(self).remaining().skip(
                unit_taken(old(self).remaining()),
            ),
    {
        let ghost s = self.remaining();
        let ghost start = self.pos as int;
        if self.pos >= self.buf.len() {
            return None;
        }
        let first = self.buf[self.pos];
        self.pos += 1;
        proof {
            lemma_high_bit(first);
            assert(s[0] == first);
        }
        // A single byte
        if (first & (1 << 7)) == 0 {
            assert(self.remaining() == s.skip(1));
            return Some(Some(first as char));
        }
        // How many bytes make up this unit?
        let l = (!first).leading_zeros();
        proof {
            axiom_u8_leading_zeros(!first);
            lemma_leading_ones(first, !first, l as u8);
        }
        let second = if self.pos < self.buf.len() {
            self.buf[self.pos]
        } else {
            assert(self.remaining() == s.skip(1));
            return Some(None);
        };
        proof {
            assert(s[1] == second);
            lemma_continuation(second);
        }
        let fits = match (l, first, second) {
            (2, _, _) => (second & 0xC0) == 0x80,
            (3, 0xE0, 0xA0..=0xBF)
            | (3, 0xE1..=0xEC, 0x80..=0xBF)
            | (3, 0xED, 0x80..=0x9F)
            | (3, 0xEE..=0xEF, 0x80..=0xBF) => true,
            (4, 0xF0, 0x90..=0xBF) | (4, 0xF1..=0xF3, 0x80..=0xBF) | (4, 0xF4, 0x80..=0x8F) => true,
            _ => false,
        };
        assert(fits == (unit_width(first) >= 2 && second_fits(first, second)));
        if !fits {
            assert(self.remaining() == s.skip(1));
            return Some(None);
        }
        self.pos += 1;
        proof {
            lemma_lead_mask(l as u8);
        }
        let mut result: u32 = (first & ((1u8 << ((7 - l) as u8)) - 1)) as u32;
        result = result << 6 | (second & CONT_MASK) as u32;
        assert(result == gathered(s, 2)) by {
            reveal_with_fuel(gathered, 3);
        }
        for k in 0..l - 2
            invariant
                2 <= l <= 4,
                0 <= start,
                s == old(self).remaining(),
                l == unit_width(s[0]),
                s.len() >= 2,
                second_fits(s[0], s[1]),
                start + s.len() == self.buf@.len(),
                s == self.buf@.skip(start),
                self.pos == start + 2 + k,
                self.pos <= self.buf@.len(),
                forall|j: int| 2 <= j < 2 + k ==> is_continuation_byte(#[trigger] s[j]),
                result == gathered(s, 2 + k),
        {
            let next = if self.pos < self.buf.len() {
                self.buf[self.pos]
            } else {
                assert(self.remaining() == s.skip(2 + k));
                return Some(None);
            };
            proof {
                assert(s[2 + k] == next);
                lemma_continuation(next);
            }
            if (next & 0xC0) != 0x80 {
                assert(self.remaining() == s.skip(2 + k));
                return Some(None);
            }
            self.pos += 1;
            result = result << 6 | (next & CONT_MASK) as u32;
            assert(result == gathered(s, 3 + k)) by {
                reveal_with_fuel(gathered, 2);
            }
        }
        proof {
            lemma_gathered_is_scalar(s);
            lemma_unit_scalar(s);
            assert(self.remaining() == s.skip(l as int));
        }
        Some(char::from_u32(result))
    }

    /// Decodes all the remaining bytes.
    pub fn collect(self) -> (units: Vec<Option<char>>)
        ensures
            units@ == decoded(self.remaining()),
    {
        let ghost all = self.remaining();
        let mut it = self;
        let mut units: Vec<Option<char>> = Vec::new();
        loop
            invariant
                units@ + decoded(it.remaining()) == decoded(all),
            ensures
                units@ == decoded(all),
            decreases it.remaining().len(),
        {
            let ghost s = it.remaining();
            match it.next() {
                Some(unit) => {
                    units.push(unit);
                    proof {
                        lemma_unit_taken_bounds(s);
                        assert(units@ + decoded(it.remaining()) =~= decoded(all));
                    }
                },
                None => {
                    assert(units@ + decoded(it.remaining()) =~= units@);
                    break ;
                },
            }
        }
        units
    }
}

/// An iterator whose items may borrow from the iterator itself: an item has
/// to be given up before the next one is pulled.
pub trait StreamingIterator<'a> {
    type Item;

    /// Pulls the next item, or returns `None` at the end.
    fn next_streaming(&'a mut self) -> (ret: Option<Self::Item>);
}

impl<'a, I: Iterator> StreamingIterator<'a> for I {
    type Item = I::Item;

    /// Pulls the next item of an ordinary iterator.
    fn next_streaming(&'a mut self) -> (ret: Option<I::Item>)
        ensures
            (*final(self)).obeys_prophetic_iter_laws() == (*old(self)).obeys_prophetic_iter_laws(),
            (*final(self)).obeys_prophetic_iter_laws() ==> (if (*old(self)).remaining().len() > 0 {
                &&& (*final(self)).remaining() == (*old(self)).remaining().drop_first()
                &&& ret == Some((*old(self)).remaining()[0])
            } else {
                &&& (*final(self)).remaining() == (*old(self)).remaining()
                &&& ret is None
            }),
    {
        self.next()
    }
}

/// A key function, of which it is known that it derives one key from each
/// item, and that `==` on its keys is what its specification says.
#[verifier::reject_recursive_types(T)]
#[verifier::reject_recursive_types(G)]
struct KeyFn<T, F, G> where F: Fn(&T) -> G, G: PartialEq {
    f: F,
    of: PhantomData<(T, G)>,
}

impl<T, F, G> KeyFn<T, F, G> where F: Fn(&T) -> G, G: PartialEq {
    #[verifier::type_invariant]
    spec fn inv(&self) -> bool {
        is_key_fn(self.f) && G::obeys_eq_spec()
    }
}

/// A streaming iterator over the runs of a sequence: the stretches of
/// neighbouring items that share a key. It yields each run as its key and a
/// [`Group`] that hands out the items of the run.
#[verifier::reject_recursive_types(T)]
#[verifier::reject_recursive_types(G)]
pub struct Groups<T, F, G> where F: Fn(&T) -> G, G: PartialEq {
    iter: VecDeque<T>,
    key: KeyFn<T, F, G>,
    open: Option<G>,
}

/// The items of one run of a [`Groups`], which it borrows.
#[verifier::reject_recursive_types(T)]
#[verifier::reject_recursive_types(G)]
pub struct Group<'a, T, F, G> where F: Fn(&T) -> G, G: PartialEq {
    /// The iterator that yielded this run.
    pub sup: &'a mut Groups<T, F, G>,
    /// The key of this run.
    pub g: G,
}

impl<T, F, G> Groups<T, F, G> where F: Fn(&T) -> G, G: PartialEq {
    /// The items that have not been handed out or passed over yet.
    pub closed spec fn view(&self) -> Seq<T> {
        self.iter@
    }

    /// The key function.
    pub closed spec fn key_fn(&self) -> F {
        self.key.f
    }

    /// Whether a run was yielded whose end has not been seen yet.
    pub closed spec fn run_open(&self) -> bool {
        self.open is Some
    }

    /// The key of the open run, where a run is open.
    pub closed spec fn open_key(&self) -> G {
        self.open->0
    }

    /// The number of items that the next pull passes over: the items at the
    /// front whose key equals the key of the open run. They are what remains
    /// of that run. Where no run is open, nothing is passed over.
    pub open spec fn passed_over(&self) -> nat {
        if self.run_open() {
            run_len(key_of(self.key_fn()), self@, self.open_key())
        } else {
            0
        }
    }

    /// Starts the next run.
    ///
    /// Where the run before is still open, the items that remain of it are
    /// passed over first. Returns the key of the first item that is left, and
    /// a [`Group`] over the items from there on; `None` where no item is left.
    pub fn next_streaming(&mut self) -> (ret: Option<(G, Group<'_, T, F, G>)>)
        ensures
            is_key_fn(old(self).key_fn()),
            seen_keys(old(self).key_fn(), old(self)@, old(self).passed_over() + 1),
            ret is Some <==> old(self).passed_over() < old(self)@.len(),
            ret is None ==> {
                &&& final(self)@.len() == 0
                &&& final(self).run_open() == old(self).run_open()
                &&& final(self).open_key() == old(self).open_key()
                &&& final(self).key_fn() == old(self).key_fn()
            },
            ret matches Some(p) ==> {
                &&& p.0 == key_of(old(self).key_fn())(old(self)@[old(self).passed_over() as int])
                &&& p.1.g == p.0
                &&& p.1.sup@ == old(self)@.skip(old(self).passed_over() as int)
                &&& p.1.sup.run_open()
                &&& p.1.sup.open_key() == p.0
                &&& p.1.sup.key_fn() == old(self).key_fn()
                &&& *final(self) == *final(p.1.sup)
            },
    {
        let ghost s0 = self@;
        let ghost f = self.key_fn();
        proof {
            use_type_invariant(&self.key);
            lemma_run_len_bound(key_of(f), s0, self.open_key());
        }
        if self.iter.len() == 0 {
            return None;
        }
        if let Some(open) = &self.open {
            loop
                invariant_except_break
                    run_len(key_of(f), s0, *open) == (s0.len() - self@.len()) + run_len(
                        key_of(f),
                        self@,
                        *open,
                    ),
                invariant
                    self.key.f == f,
                    s0 == old(self)@,
                    f == old(self).key_fn(),
                    old(self).run_open(),
                    *open == old(self).open_key(),
                    self.open == old(self).open,
                    is_key_fn(f),
                    G::obeys_eq_spec(),
                    s0.len() >= self@.len(),
                    self@ == s0.skip(s0.len() - self@.len()),
                    seen_keys(f, s0, (s0.len() - self@.len()) as nat),
                ensures
                    self@.len() > 0,
                    self@ == s0.skip(run_len(key_of(f), s0, *open) as int),
                decreases self@.len(),
            {
                if self.iter.len() == 0 {
                    return None;
                }
                let ng = (self.key.f)(&self.iter[0]);
                assert(seen_keys(f, s0, (s0.len() - self@.len() + 1) as nat)) by {
                    assert(self@[0] == s0[s0.len() - self@.len()]);
                }
                if ng != *open {
                    break ;
                }
                let ghost before = self@;
                self.iter.pop_front();
                assert(self@ =~= before.drop_first());
                assert(self@ =~= s0.skip(s0.len() - self@.len()));
            }
        } else {
            assert(self@ =~= s0.skip(0));
        }
        proof {
            let n = old(self).passed_over();
            assert(self@ == s0.skip(n as int));
            assert(self@[0] == s0[n as int]);
        }
        let g = (self.key.f)(&self.iter[0]);
        let g2 = (self.key.f)(&self.iter[0]);
        let g3 = (self.key.f)(&self.iter[0]);
        self.open = Some(g3);
        Some((g, Group { sup: self, g: g2 }))
    }
}

/// The items of the runs in `groups`, run by run.
pub open spec fn run_items<T, G>(groups: Seq<(G, Vec<T>)>) -> Seq<Seq<T>> {
    groups.map_values(|run: (G, Vec<T>)| run.1@)
}

impl<T, F, G> Groups<T, F, G> where F: Fn(&T) -> G, G: PartialEq {
    /// The items that are left once the next pull has passed over what
    /// remains of an open run.
    pub open spec fn left(&self) -> Seq<T> {
        self@.skip(self.passed_over() as int)
    }

    /// Pulls every run that is left and takes all the items of each: the
    /// runs with their keys, first to last.
    ///
    /// The runs, put one after the other, are the items that were left. The
    /// key of each item of a run equals the key of the run, which is the key
    /// of its first item, and the keys of two neighbouring runs differ.
    ///
    /// The key of each item that is left has to equal itself: a run does not
    /// get past an item whose key does not.
    pub fn collect(self) -> (groups: Vec<(G, Vec<T>)>)
        requires
            keys_equal_themselves(key_of(self.key_fn()), self.left()),
        ensures
            is_key_fn(self.key_fn()),
            seen_keys(self.key_fn(), self@, self@.len()),
            run_items(groups@) == runs(key_of(self.key_fn()), self.left()),
            run_items(groups@).flatten() == self.left(),
            forall|i: int|
                0 <= i < groups@.len() ==> (#[trigger] groups@[i]).1@.len() > 0 && groups@[i].0
                    == key_of(self.key_fn())(groups@[i].1@[0]),
            forall|i: int, j: int|
                0 <= i < groups@.len() && 0 <= j < groups@[i].1@.len() ==> key_of(self.key_fn())(
                    #[trigger] groups@[i].1@[j],
                ).eq_spec(&groups@[i].0),
            forall|i: int|
                0 < i < groups@.len() ==> !(#[trigger] groups@[i]).0.eq_spec(&groups@[i - 1].0),
    {
        let ghost f = self.key_fn();
        let ghost key = key_of(f);
        let ghost all = self@;
        let ghost left = self.left();
        let mut it = self;
        let mut groups: Vec<(G, Vec<T>)> = Vec::new();
        proof {
            use_type_invariant(&it.key);
            lemma_run_len_bound(key, it@, it.open_key());
            assert(run_items(groups@) =~= Seq::<Seq<T>>::empty());
        }
        loop
            invariant
                it.key_fn() == f,
                key == key_of(f),
                is_key_fn(f),
                it.passed_over() <= it@.len() <= all.len(),
                it@ == all.skip(all.len() - it@.len()),
                seen_keys(f, all, (all.len() - it@.len()) as nat),
                keys_equal_themselves(key, it.left()),
                run_items(groups@) + runs(key, it.left()) == runs(key, left),
                forall|i: int|
                    0 <= i < groups@.len() ==> (#[trigger] groups@[i]).1@.len() > 0
                        && groups@[i].0 == key(groups@[i].1@[0]),
            ensures
                run_items(groups@) == runs(key, left),
                seen_keys(f, all, all.len()),
                forall|i: int|
                    0 <= i < groups@.len() ==> (#[trigger] groups@[i]).1@.len() > 0
                        && groups@[i].0 == key(groups@[i].1@[0]),
            decreases it@.len() - it.passed_over(),
        {
            let ghost before = it@;
            let ghost skipped = it.passed_over();
            let ghost rem = it.left();
            let ghost was = groups@;
            match it.next_streaming() {
                Some((k, group)) => {
                    let ghost n = run_len(key, rem, k);
                    proof {
                        assert(rem[0] == before[skipped as int]);
                        assert(key(rem[0]).eq_spec(&k));
                        lemma_run_len_bound(key, rem, k);
                    }
                    let items = group.collect();
                    groups.push((k, items));
                    proof {
                        assert(it@ == rem.skip(n as int));
                        assert(it.passed_over() == 0);
                        assert(it.left() =~= rem.skip(n as int));
                        assert(run_items(groups@) =~= run_items(was) + seq![rem.take(n as int)]);
                        assert(runs(key, rem) == seq![rem.take(n as int)] + runs(
                            key,
                            rem.skip(n as int),
                        ));
                        assert(keys_equal_themselves(key, it.left())) by {
                            assert forall|i: int| 0 <= i < it.left().len() implies key(
                                #[trigger] it.left()[i],
                            ).eq_spec(&key(it.left()[i])) by {
                                assert(it.left()[i] == rem[i + n]);
                            }
                        }
                        lemma_run_len_bound(key, it@, it.open_key());
                        assert(it@ =~= all.skip(all.len() - it@.len()));
                        assert(seen_keys(f, all, (all.len() - it@.len()) as nat)) by {
                            assert forall|i: int|
                                0 <= i < all.len() - it@.len() implies call_ensures(
                                f,
                                (&#[trigger] all[i],),
                                key(all[i]),
                            ) by {
                                let at = all.len() - before.len();
                                if i >= at {
                                    assert(all[i] == before[i - at]);
                                    if i - at >= skipped {
                                        assert(before[i - at] == rem[i - at - skipped]);
                                    }
                                }
                            }
                        }
                    }
                },
                None => {
                    proof {
                        assert(rem.len() == 0);
                        assert(run_items(groups@) + runs(key, rem) =~= run_items(groups@));
                        assert(seen_keys(f, all, all.len())) by {
                            assert forall|i: int| 0 <= i < all.len() implies call_ensures(
                                f,
                                (&#[trigger] all[i],),
                                key(all[i]),
                            ) by {
                                let at = all.len() - before.len();
                                if i >= at {
                                    assert(all[i] == before[i - at]);
                                }
                            }
                        }
                    }
                    break ;
                },
            }
        }
        proof {
            lemma_runs(key, left);
            let rs = runs(key, left);
            assert forall|i: int, j: int|
                0 <= i < groups@.len() && 0 <= j < groups@[i].1@.len() implies key(
                #[trigger] groups@[i].1@[j],
            ).eq_spec(&groups@[i].0) by {
                assert(run_items(groups@)[i] == rs[i]);
                assert(key(rs[i][j]).eq_spec(&key(rs[i][0])));
            }
            assert forall|i: int| 0 < i < groups@.len() implies !(#[trigger] groups@[i]).0.eq_spec(
                &groups@[i - 1].0,
            ) by {
                assert(run_items(groups@)[i] == rs[i]);
                assert(run_items(groups@)[i - 1] == rs[i - 1]);
                assert(!key(rs[i][0]).eq_spec(&key(rs[i - 1][0])));
            }
        }
        groups
    }
}

impl<'a, T: 'a, F: 'a, G: 'a> StreamingIterator<'a> for Groups<T, F, G> where
    F: Fn(&T) -> G,
    G: PartialEq,
 {
    type Item = (G, Group<'a, T, F, G>);

    /// Starts the next run, as [`Groups::next_streaming`] does.
    fn next_streaming(&'a mut self) -> (ret: Option<(G, Group<'a, T, F, G>)>)
        ensures
            is_key_fn(old(self).key_fn()),
            seen_keys(old(self).key_fn(), old(self)@, old(self).passed_over() + 1),
            ret is Some <==> old(self).passed_over() < old(self)@.len(),
            ret is None ==> {
                &&& final(self)@.len() == 0
                &&& final(self).run_open() == old(self).run_open()
                &&& final(self).open_key() == old(self).open_key()
                &&& final(self).key_fn() == old(self).key_fn()
            },
            ret matches Some(p) ==> {
                &&& p.0 == key_of(old(self).key_fn())(old(self)@[old(self).passed_over() as int])
                &&& p.1.g == p.0
                &&& p.1.sup@ == old(self)@.skip(old(self).passed_over() as int)
                &&& p.1.sup.run_open()
                &&& p.1.sup.open_key() == p.0
                &&& p.1.sup.key_fn() == old(self).key_fn()
                &&& *final(self) == *final(p.1.sup)
            },
    {
        Groups::next_streaming(self)
    }
}

impl<'a, T, F, G> Group<'a, T, F, G> where F: Fn(&T) -> G, G: PartialEq {
    /// Whether the item at the front belongs to this run.
    pub open spec fn in_run(&self) -> bool {
        self.sup@.len() > 0 && key_of(self.sup.key_fn())(self.sup@[0]).eq_spec(&self.g)
    }

    /// Hands out the next item of the run.
    ///
    /// The run ends before the first item whose key differs from the key of
    /// the run, or where no item is left. That item stays where it is, and the
    /// run is no longer open.
    pub fn next(&mut self) -> (ret: Option<T>)
        ensures
            is_key_fn(old(self).sup.key_fn()),
            seen_keys(old(self).sup.key_fn(), old(self).sup@, 1),
            old(self).in_run() ==> ret == Some(old(self).sup@[0]) && final(self).sup@ == old(
                self,
            ).sup@.drop_first() && final(self).sup.run_open() == old(self).sup.run_open()
                && final(self).sup.open_key() == old(self).sup.open_key(),
            !old(self).in_run() ==> ret is None && final(self).sup@ == old(self).sup@
                && !final(self).sup.run_open(),
            final(self).g == old(self).g,
            final(self).sup.key_fn() == old(self).sup.key_fn(),
            *final(final(self).sup) == *final(old(self).sup),
    {
        proof {
            use_type_invariant(&self.sup.key);
        }
        if self.sup.iter.len() == 0 {
            self.sup.open = None;
            return None;
        }
        let g2 = (self.sup.key.f)(&self.sup.iter[0]);
        if g2 != self.g {
            self.sup.open = None;
            return None;
        }
        let ghost before = self.sup@;
        let a = self.sup.iter.pop_front();
        assert(self.sup@ =~= before.drop_first());
        a
    }

    /// Hands out all the items that are left of the run.
    pub fn collect(self) -> (items: Vec<T>)
        ensures
            is_key_fn(old(self.sup).key_fn()),
            seen_keys(
                old(self.sup).key_fn(),
                old(self.sup)@,
                run_len(key_of(old(self.sup).key_fn()), old(self.sup)@, self.g) + 1,
            ),
            items@ == old(self.sup)@.take(
                run_len(key_of(old(self.sup).key_fn()), old(self.sup)@, self.g) as int,
            ),
            final(self.sup)@ == old(self.sup)@.skip(
                run_len(key_of(old(self.sup).key_fn()), old(self.sup)@, self.g) as int,
            ),
            !final(self.sup).run_open(),
            final(self.sup).key_fn() == old(self.sup).key_fn(),
    {
        let ghost all = self.sup@;
        let ghost f = self.sup.key_fn();
        let ghost key = key_of(f);
        let ghost g = self.g;
        let mut group = self;
        let mut items: Vec<T> = Vec::new();
        proof {
            use_type_invariant(&group.sup.key);
            lemma_run_len_bound(key, all, g);
        }
        loop
            invariant
                group.g == g,
                group.sup.key_fn() == f,
                key == key_of(f),
                *final(group.sup) == *final(self.sup),
                is_key_fn(f),
                items@.len() + group.sup@.len() == all.len(),
                items@ == all.take(items@.len() as int),
                group.sup@ == all.skip(items@.len() as int),
                run_len(key, all, g) == items@.len() + run_len(key, group.sup@, g),
                seen_keys(f, all, items@.len() as nat),
            ensures
                items@ == all.take(run_len(key, all, g) as int),
                group.sup@ == all.skip(run_len(key, all, g) as int),
                seen_keys(f, all, run_len(key, all, g) + 1),
                !group.sup.run_open(),
            decreases group.sup@.len(),
        {
            let ghost before = group.sup@;
            match group.next() {
                Some(x) => {
                    items.push(x);
                    proof {
                        assert(before[0] == all[items@.len() - 1]);
                        assert(items@ =~= all.take(items@.len() as int));
                        assert(group.sup@ =~= all.skip(items@.len() as int));
                    }
                },
                None => {
                    proof {
                        if before.len() > 0 {
                            assert(before[0] == all[items@.len() as int]);
                        }
                    }
                    break ;
                },
            }
        }
        items
    }
}

/// A streaming iterator that moves each item into an arena and yields a
/// mutable reference to it there.
#[verifier::reject_recursive_types(T)]
pub struct RefIter<T> {
    iter: VecDeque<T>,
    arena: Arena<T>,
}

impl<T> RefIter<T> {
    /// The items that have not been yielded yet.
    pub closed spec fn view(&self) -> Seq<T> {
        self.iter@
    }
}

impl<'a, T: 'a> StreamingIterator<'a> for RefIter<T> {
    type Item = &'a mut T;

    /// Moves the next item into the arena and yields a reference to it.
    fn next_streaming(&'a mut self) -> (ret: Option<&'a mut T>)
        ensures
            old(self)@.len() == 0 ==> ret is None && final(self)@ == old(self)@,
            old(self)@.len() > 0 ==> ret is Some && *ret->0 == old(self)@[0] && final(self)@
                == old(self)@.drop_first(),
    {
        let a;
        match self.iter.pop_front() {
            None => return None,
            Some(x) => a = x,
        }
        assert(self@ =~= old(self)@.drop_first());
        Some(arena_alloc(&self.arena, a))
    }
}

/// An iterator that leaves out each item that equals the item before it.
pub struct DedupIter<T> where T: PartialEq {
    iter: VecDeque<T>,
}

impl<T: PartialEq> DedupIter<T> {
    /// The items that have not been read yet.
    pub closed spec fn view(&self) -> Seq<T> {
        self.iter@
    }

    /// Returns the item at the front and passes over the items after it that
    /// equal it.
    pub fn next(&mut self) -> (ret: Option<T>)
        ensures
            old(self)@.len() == 0 ==> ret is None && final(self)@ == old(self)@,
            old(self)@.len() > 0 ==> ret == Some(old(self)@[0]),
            old(self)@.len() > 0 && T::obeys_eq_spec() ==> final(self)@ == old(self)@.skip(
                1 + repeat_len(old(self)@.drop_first(), old(self)@[0]) as int,
            ),
            final(self)@.len() <= old(self)@.len(),
            old(self)@.len() > 0 ==> final(self)@.len() < old(self)@.len(),
    {
        let n = match self.iter.pop_front() {
            None => return None,
            Some(x) => x,
        };
        let ghost rest = self@;
        assert(rest =~= old(self)@.drop_first());
        while self.iter.len() > 0 && self.iter[0] == n
            invariant
                rest.len() >= self@.len(),
                self@ == rest.skip(rest.len() - self@.len()),
                T::obeys_eq_spec() ==> repeat_len(rest, n) == (rest.len() - self@.len())
                    + repeat_len(self@, n),
            decreases self@.len(),
        {
            let ghost before = self@;
            self.iter.pop_front();
            assert(self@ =~= before.drop_first());
            assert(self@ =~= rest.skip(rest.len() - self@.len()));
        }
        assert(self@ =~= old(self)@.skip(1 + (rest.len() - self@.len())));
        Some(n)
    }

    /// All the items that are left, without those that repeat.
    pub fn collect(self) -> (items: Vec<T>)
        ensures
            T::obeys_eq_spec() ==> items@ == deduped(self@),
    {
        let ghost all = self@;
        let mut it = self;
        let mut items: Vec<T> = Vec::new();
        loop
            invariant
                T::obeys_eq_spec() ==> items@ + deduped(it@) == deduped(all),
            ensures
                T::obeys_eq_spec() ==> items@ == deduped(all),
            decreases it@.len(),
        {
            let ghost s = it@;
            match it.next() {
                Some(x) => {
                    items.push(x);
                    proof {
                        if T::obeys_eq_spec() {
                            lemma_deduped_after(s.drop_first(), s[0]);
                            assert(it@ =~= s.drop_first().skip(
                                repeat_len(s.drop_first(), s[0]) as int,
                            ));
                            assert(items@ + deduped(it@) =~= deduped(all));
                        }
                    }
                },
                None => {
                    assert(items@ + deduped(it@) =~= items@);
                    break ;
                },
            }
        }
        items
    }
}

} // verus!
