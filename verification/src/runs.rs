//! Runs: the stretches of neighbouring items of a sequence that share a key.

use vstd::prelude::*;
use vstd::std_specs::cmp::PartialEqSpec;

verus! {

/// Whether `f` is a key function: it takes every item, and derives one key
/// from each.
pub open spec fn is_key_fn<T, F: Fn(&T) -> G, G>(f: F) -> bool {
    &&& forall|x: &T| #[trigger] call_requires(f, (x,))
    &&& forall|x: &T, k1: G, k2: G|
        #![trigger call_ensures(f, (x,), k1), call_ensures(f, (x,), k2)]
        call_ensures(f, (x,), k1) && call_ensures(f, (x,), k2) ==> k1 == k2
}

/// The key that the key function `f` derives from each item.
pub open spec fn key_of<T, F: Fn(&T) -> G, G>(f: F) -> spec_fn(T) -> G {
    |x: T| choose|k: G| call_ensures(f, (&x,), k)
}

/// Whether the key function `f` was seen to derive its key from each of the
/// first `n` items of `s`, or from all of them where they are fewer.
pub open spec fn seen_keys<T, F: Fn(&T) -> G, G>(f: F, s: Seq<T>, n: nat) -> bool {
    forall|i: int| 0 <= i < n && i < s.len() ==> call_ensures(f, (&#[trigger] s[i],), key_of(f)(s[i]))
}

/// The number of items at the front of `s` whose key equals `k`.
pub open spec fn run_len<T, G: PartialEq>(key: spec_fn(T) -> G, s: Seq<T>, k: G) -> nat
    decreases s.len(),
{
    if s.len() > 0 && key(s[0]).eq_spec(&k) {
        1 + run_len(key, s.drop_first(), k)
    } else {
        0
    }
}

/// The run at the front of `s` is a part of `s`.
pub proof fn lemma_run_len_bound<T, G: PartialEq>(key: spec_fn(T) -> G, s: Seq<T>, k: G)
    ensures
        run_len(key, s, k) <= s.len(),
    decreases s.len(),
{
    if s.len() > 0 {
        lemma_run_len_bound(key, s.drop_first(), k);
    }
}

/// Each item of the run at the front of `s` has a key that equals `k`, and
/// the item after the run has not.
pub proof fn lemma_run_members<T, G: PartialEq>(key: spec_fn(T) -> G, s: Seq<T>, k: G)
    ensures
        forall|j: int| 0 <= j < run_len(key, s, k) ==> key(#[trigger] s[j]).eq_spec(&k),
        run_len(key, s, k) < s.len() ==> !key(s[run_len(key, s, k) as int]).eq_spec(&k),
    decreases s.len(),
{
    if s.len() > 0 && key(s[0]).eq_spec(&k) {
        let rest = s.drop_first();
        lemma_run_members(key, rest, k);
        lemma_run_len_bound(key, rest, k);
        assert forall|j: int| 0 <= j < run_len(key, s, k) implies key(#[trigger] s[j]).eq_spec(
            &k,
        ) by {
            if j > 0 {
                assert(s[j] == rest[j - 1]);
            }
        }
        if run_len(key, s, k) < s.len() {
            assert(s[run_len(key, s, k) as int] == rest[run_len(key, rest, k) as int]);
        }
    }
}

/// The runs of `s`, first to last. A run starts at the first item, or at the
/// first item after the run before; it holds the items from there on whose
/// key equals the key of the item it starts at.
///
/// Where the key of an item does not equal itself, no run gets past that
/// item: the runs end before it.
pub open spec fn runs<T, G: PartialEq>(key: spec_fn(T) -> G, s: Seq<T>) -> Seq<Seq<T>>
    decreases s.len(),
{
    if s.len() == 0 {
        seq![]
    } else {
        let n = run_len(key, s, key(s[0]));
        if n == 0 {
            seq![]
        } else {
            proof {
                lemma_run_len_bound(key, s, key(s[0]));
            }
            seq![s.take(n as int)] + runs(key, s.skip(n as int))
        }
    }
}

/// Whether the key of each item of `s` equals itself.
pub open spec fn keys_equal_themselves<T, G: PartialEq>(key: spec_fn(T) -> G, s: Seq<T>) -> bool {
    forall|i: int| 0 <= i < s.len() ==> key(#[trigger] s[i]).eq_spec(&key(s[i]))
}

/// The runs of a sequence, put one after the other, are the sequence. No
/// run is empty. The key of each item of a run equals the key of the first
/// item of the run, and the key of the first item of a run does not equal the
/// key of the first item of the run before.
///
/// This holds where the key of each item equals itself.
pub proof fn lemma_runs<T, G: PartialEq>(key: spec_fn(T) -> G, s: Seq<T>)
    requires
        keys_equal_themselves(key, s),
    ensures
        runs(key, s).flatten() == s,
        forall|i: int| 0 <= i < runs(key, s).len() ==> (#[trigger] runs(key, s)[i]).len() > 0,
        forall|i: int, j: int|
            0 <= i < runs(key, s).len() && 0 <= j < runs(key, s)[i].len() ==> key(
                #[trigger] runs(key, s)[i][j],
            ).eq_spec(&key(runs(key, s)[i][0])),
        forall|i: int|
            0 < i < runs(key, s).len() ==> !key((#[trigger] runs(key, s)[i])[0]).eq_spec(
                &key(runs(key, s)[i - 1][0]),
            ),
    decreases s.len(),
{
    if s.len() > 0 {
        let k = key(s[0]);
        let n = run_len(key, s, k);
        let first = s.take(n as int);
        let rest = s.skip(n as int);
        let tail = runs(key, rest);
        let all = runs(key, s);
        lemma_run_len_bound(key, s, k);
        lemma_run_members(key, s, k);
        assert(n > 0);
        assert(keys_equal_themselves(key, rest)) by {
            assert forall|i: int| 0 <= i < rest.len() implies key(#[trigger] rest[i]).eq_spec(
                &key(rest[i]),
            ) by {
                assert(rest[i] == s[i + n]);
            }
        }
        lemma_runs(key, rest);
        assert(all == seq![first] + tail);
        assert(all.drop_first() =~= tail);
        assert(all.flatten() =~= s);
        assert forall|i: int| 0 <= i < all.len() implies (#[trigger] all[i]).len() > 0 by {
            if i > 0 {
                assert(all[i] == tail[i - 1]);
            }
        }
        assert forall|i: int, j: int| 0 <= i < all.len() && 0 <= j < all[i].len() implies key(
            #[trigger] all[i][j],
        ).eq_spec(&key(all[i][0])) by {
            if i > 0 {
                assert(all[i] == tail[i - 1]);
            } else {
                assert(all[0][j] == s[j]);
            }
        }
        assert forall|i: int| 0 < i < all.len() implies !key((#[trigger] all[i])[0]).eq_spec(
            &key(all[i - 1][0]),
        ) by {
            assert(all[i] == tail[i - 1]);
            if i > 1 {
                assert(all[i - 1] == tail[i - 2]);
            } else {
                assert(tail.len() > 0);
                assert(rest.len() > 0);
                assert(tail[0][0] == rest[0]);
                assert(rest[0] == s[n as int]);
                assert(all[0][0] == s[0]);
            }
        }
    }
}

/// The number of items at the front of `s` that equal `x`.
pub open spec fn repeat_len<T: PartialEq>(s: Seq<T>, x: T) -> nat
    decreases s.len(),
{
    if s.len() > 0 && s[0].eq_spec(&x) {
        1 + repeat_len(s.drop_first(), x)
    } else {
        0
    }
}

/// `s` without the items at its front that equal `x`, and without the items
/// after those that repeat: each item that stays becomes the one to which the
/// items after it are held.
pub open spec fn deduped_after<T: PartialEq>(s: Seq<T>, x: T) -> Seq<T>
    decreases s.len(),
{
    if s.len() == 0 {
        seq![]
    } else if s[0].eq_spec(&x) {
        deduped_after(s.drop_first(), x)
    } else {
        seq![s[0]] + deduped_after(s.drop_first(), s[0])
    }
}

/// `s` without the items that repeat: of each stretch of neighbouring items
/// that equal its first item, only the first stays.
pub open spec fn deduped<T: PartialEq>(s: Seq<T>) -> Seq<T> {
    if s.len() == 0 {
        seq![]
    } else {
        seq![s[0]] + deduped_after(s.drop_first(), s[0])
    }
}

/// To leave out the repeats after `x` is to pass over the items at the front
/// that equal `x`, and to go on from the item after them.
pub proof fn lemma_deduped_after<T: PartialEq>(s: Seq<T>, x: T)
    ensures
        repeat_len(s, x) <= s.len(),
        deduped_after(s, x) == deduped(s.skip(repeat_len(s, x) as int)),
    decreases s.len(),
{
    if s.len() > 0 && s[0].eq_spec(&x) {
        lemma_deduped_after(s.drop_first(), x);
        assert(s.skip(repeat_len(s, x) as int) =~= s.drop_first().skip(
            repeat_len(s.drop_first(), x) as int,
        ));
    } else {
        assert(s.skip(0) =~= s);
    }
}

} // verus!
