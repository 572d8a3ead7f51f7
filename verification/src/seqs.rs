//! Small tools on sequences that several modules share.

use vstd::prelude::*;

verus! {

/// The views of the items.
pub open spec fn views_of<T: View>(items: Seq<T>) -> Seq<T::V> {
    items.map_values(|x: T| x@)
}

pub proof fn lemma_views_push<T: View>(items: Seq<T>, x: T)
    ensures
        views_of(items.push(x)) == views_of(items).push(x@),
{
    assert(views_of(items.push(x)) =~= views_of(items).push(x@));
}

/// A list that matches the first items of `want` still does after the next one.
pub proof fn lemma_push_take<T: View>(items: Seq<T>, x: T, want: Seq<T::V>, i: int)
    requires
        0 <= i < want.len(),
        views_of(items) == want.take(i),
        x@ == want[i],
    ensures
        views_of(items.push(x)) == want.take(i + 1),
{
    assert(views_of(items.push(x)) =~= views_of(items).push(x@));
    assert(want.take(i + 1) =~= want.take(i).push(want[i]));
}

/// The lists put one after another.
pub open spec fn flat<T>(lists: Seq<Seq<T>>) -> Seq<T>
    decreases lists.len(),
{
    if lists.len() == 0 {
        Seq::empty()
    } else {
        flat(lists.drop_last()) + lists.last()
    }
}

/// For each number below `n`, what `f` gives for it, one after another.
pub open spec fn gather<T>(n: int, f: spec_fn(int) -> Seq<T>) -> Seq<T>
    decreases n,
{
    if n <= 0 {
        Seq::empty()
    } else {
        gather(n - 1, f) + f(n - 1)
    }
}

/// How many numbers below `n` meet `f`.
pub open spec fn tally(n: int, f: spec_fn(int) -> bool) -> nat
    decreases n,
{
    if n <= 0 {
        0
    } else {
        tally(n - 1, f) + if f(n - 1) {
            1nat
        } else {
            0nat
        }
    }
}

/// The sum of what `f` gives for each number below `n`.
pub open spec fn sum(n: int, f: spec_fn(int) -> int) -> int
    decreases n,
{
    if n <= 0 {
        0
    } else {
        sum(n - 1, f) + f(n - 1)
    }
}

pub proof fn lemma_tally_bound(n: int, f: spec_fn(int) -> bool)
    requires
        0 <= n,
    ensures
        tally(n, f) <= n,
    decreases n,
{
    if n > 0 {
        lemma_tally_bound(n - 1, f);
    }
}

/// The numbers below `n` that meet `f`, in order.
pub open spec fn positions(n: int, f: spec_fn(int) -> bool) -> Seq<int>
    decreases n,
{
    if n <= 0 {
        Seq::empty()
    } else if f(n - 1) {
        positions(n - 1, f).push(n - 1)
    } else {
        positions(n - 1, f)
    }
}

/// The positions are in range, increasing, and those that meet `f`.
pub proof fn lemma_positions(n: int, f: spec_fn(int) -> bool)
    requires
        0 <= n,
    ensures
        positions(n, f).len() == tally(n, f),
        forall|i: int|
            0 <= i < positions(n, f).len() ==> 0 <= #[trigger] positions(n, f)[i] < n && f(
                positions(n, f)[i],
            ),
        forall|i: int, j: int|
            0 <= i < j < positions(n, f).len() ==> positions(n, f)[i] < positions(n, f)[j],
        forall|x: int| 0 <= x < n && #[trigger] f(x) ==> positions(n, f).contains(x),
    decreases n,
{
    if n > 0 {
        lemma_positions(n - 1, f);
        let p = positions(n - 1, f);
        assert forall|x: int| 0 <= x < n && #[trigger] f(x) implies positions(n, f).contains(x) by {
            if x < n - 1 {
                assert(p.contains(x));
                let i = p.index_of(x);
                assert(positions(n, f)[i] == x);
            } else {
                assert(positions(n, f)[p.len() as int] == x);
            }
        }
    }
}

/// An item with `x` at its end: what it contains.
pub proof fn lemma_push_has<T>(s: Seq<T>, x: T)
    ensures
        forall|y: T| #[trigger] s.push(x).contains(y) <==> s.contains(y) || y == x,
{
    assert forall|y: T| #[trigger] s.push(x).contains(y) <==> s.contains(y) || y == x by {
        if s.contains(y) {
            let i = s.index_of(y);
            assert(s.push(x)[i] == y);
        }
        if y == x {
            assert(s.push(x)[s.len() as int] == y);
        }
    }
}

/// The filtered list holds exactly the items that meet `keep`.
pub proof fn lemma_filter_has<T>(s: Seq<T>, keep: spec_fn(T) -> bool)
    ensures
        forall|x: T| #[trigger] s.filter(keep).contains(x) <==> s.contains(x) && keep(x),
    decreases s.len(),
{
    reveal(Seq::filter);
    if s.len() > 0 {
        let front = s.drop_last();
        lemma_filter_has(front, keep);
        lemma_push_has(front, s.last());
        lemma_push_has(front.filter(keep), s.last());
        assert(s =~= front.push(s.last()));
        assert forall|x: T| #[trigger] s.filter(keep).contains(x) <==> s.contains(x) && keep(x) by {
            assert(front.filter(keep).contains(x) <==> front.contains(x) && keep(x));
        }
    }
}

/// The items without repeats, each at its first place.
pub open spec fn uniques<T>(s: Seq<T>) -> Seq<T>
    decreases s.len(),
{
    if s.len() == 0 {
        s
    } else {
        let front = uniques(s.drop_last());
        if front.contains(s.last()) {
            front
        } else {
            front.push(s.last())
        }
    }
}

pub proof fn lemma_uniques<T>(s: Seq<T>)
    ensures
        uniques(s).no_duplicates(),
        uniques(s).len() <= s.len(),
        forall|x: T| #[trigger] uniques(s).contains(x) <==> s.contains(x),
    decreases s.len(),
{
    if s.len() > 0 {
        let rest = s.drop_last();
        let front = uniques(rest);
        lemma_uniques(rest);
        lemma_push_has(rest, s.last());
        lemma_push_has(front, s.last());
        assert(rest.push(s.last()) =~= s);
        let all = uniques(s);
        assert forall|x: T| #[trigger] all.contains(x) <==> s.contains(x) by {
            assert(front.contains(x) <==> rest.contains(x));
        }
        assert forall|i: int, j: int| 0 <= i < all.len() && 0 <= j < all.len() && i != j implies all[i]
            != all[j] by {
            if !front.contains(s.last()) {
                if i == front.len() {
                    assert(front.contains(front[j]));
                } else if j == front.len() {
                    assert(front.contains(front[i]));
                }
            }
        }
    }
}

/// The sum of `w` over a list.
pub open spec fn weight<T>(s: Seq<T>, w: spec_fn(T) -> int) -> int
    decreases s.len(),
{
    if s.len() == 0 {
        0
    } else {
        weight(s.drop_last(), w) + w(s.last())
    }
}

/// The items with the key `k`.
pub open spec fn group_of<T, K>(s: Seq<T>, key: spec_fn(T) -> Option<K>, k: K) -> Seq<T> {
    s.filter(|x: T| key(x) == Some(k))
}

/// The items without a key.
pub open spec fn ungrouped<T, K>(s: Seq<T>, key: spec_fn(T) -> Option<K>) -> Seq<T> {
    s.filter(|x: T| key(x) is None)
}

/// The weight of the items whose key is one of `keys`.
pub open spec fn keyed_weight<T, K>(
    s: Seq<T>,
    key: spec_fn(T) -> Option<K>,
    keys: Seq<K>,
    w: spec_fn(T) -> int,
) -> int
    decreases keys.len(),
{
    if keys.len() == 0 {
        0
    } else {
        keyed_weight(s, key, keys.drop_last(), w) + weight(group_of(s, key, keys.last()), w)
    }
}

/// A list is the sum of its groups: the items without a key, and those of each key.
pub proof fn lemma_partition<T, K>(
    s: Seq<T>,
    key: spec_fn(T) -> Option<K>,
    keys: Seq<K>,
    w: spec_fn(T) -> int,
)
    requires
        keys.no_duplicates(),
        forall|i: int| 0 <= i < s.len() && key(#[trigger] s[i]) is Some ==> keys.contains(key(s[i])->0),
    ensures
        weight(s, w) == weight(ungrouped(s, key), w) + keyed_weight(s, key, keys, w),
    decreases s.len(),
{
    reveal(Seq::filter);
    if s.len() == 0 {
        lemma_keyed_weight_empty(s, key, keys, w);
    } else {
        let rest = s.drop_last();
        let x = s.last();
        assert forall|i: int| 0 <= i < rest.len() && key(#[trigger] rest[i]) is Some implies keys.contains(
            key(rest[i])->0,
        ) by {
            assert(rest[i] == s[i]);
        }
        lemma_partition(rest, key, keys, w);
        if key(x) is Some {
            assert(s[s.len() - 1] == x);
            lemma_keyed_weight_step(s, key, keys, w);
        } else {
            lemma_keyed_weight_same(s, key, keys, w);
            assert(ungrouped(s, key).drop_last() =~= ungrouped(rest, key));
        }
    }
}

proof fn lemma_keyed_weight_empty<T, K>(
    s: Seq<T>,
    key: spec_fn(T) -> Option<K>,
    keys: Seq<K>,
    w: spec_fn(T) -> int,
)
    requires
        s.len() == 0,
    ensures
        keyed_weight(s, key, keys, w) == 0,
    decreases keys.len(),
{
    reveal(Seq::filter);
    if keys.len() > 0 {
        lemma_keyed_weight_empty(s, key, keys.drop_last(), w);
    }
}

proof fn lemma_keyed_weight_same<T, K>(
    s: Seq<T>,
    key: spec_fn(T) -> Option<K>,
    keys: Seq<K>,
    w: spec_fn(T) -> int,
)
    requires
        s.len() > 0,
        key(s.last()) is Some ==> !keys.contains(key(s.last())->0),
    ensures
        keyed_weight(s, key, keys, w) == keyed_weight(s.drop_last(), key, keys, w),
    decreases keys.len(),
{
    reveal(Seq::filter);
    if keys.len() > 0 {
        lemma_push_has(keys.drop_last(), keys.last());
        assert(keys.drop_last().push(keys.last()) =~= keys);
        lemma_keyed_weight_same(s, key, keys.drop_last(), w);
        assert(key(s.last()) != Some(keys.last()));
    }
}

proof fn lemma_keyed_weight_step<T, K>(
    s: Seq<T>,
    key: spec_fn(T) -> Option<K>,
    keys: Seq<K>,
    w: spec_fn(T) -> int,
)
    requires
        s.len() > 0,
        keys.no_duplicates(),
        key(s.last()) is Some,
        keys.contains(key(s.last())->0),
    ensures
        keyed_weight(s, key, keys, w) == keyed_weight(s.drop_last(), key, keys, w) + w(s.last()),
    decreases keys.len(),
{
    reveal(Seq::filter);
    let k = key(s.last())->0;
    let front = keys.drop_last();
    lemma_push_has(front, keys.last());
    assert(front.push(keys.last()) =~= keys);
    if keys.last() == k {
        assert(!front.contains(k)) by {
            if front.contains(k) {
                let i = front.index_of(k);
                assert(keys[i] == keys[keys.len() - 1]);
            }
        }
        lemma_keyed_weight_same(s, key, front, w);
        let group = group_of(s, key, k);
        assert(group.drop_last() =~= group_of(s.drop_last(), key, k));
    } else {
        lemma_keyed_weight_step(s, key, front, w);
    }
}

/// Each item weighs one: the weight is the length.
pub proof fn lemma_weight_len<T>(s: Seq<T>)
    ensures
        weight(s, |x: T| 1int) == s.len(),
    decreases s.len(),
{
    if s.len() > 0 {
        lemma_weight_len(s.drop_last());
    }
}

/// Machine numbers as integers.
pub open spec fn ints(s: Seq<usize>) -> Seq<int> {
    s.map_values(|i: usize| i as int)
}

pub proof fn lemma_ints_push(s: Seq<usize>, x: usize)
    ensures
        ints(s.push(x)) == ints(s).push(x as int),
{
    assert(ints(s.push(x)) =~= ints(s).push(x as int));
}

/// The first number from `i` on, below `n`, that meets `f`.
pub open spec fn first_from(n: int, f: spec_fn(int) -> bool, i: int) -> Option<int>
    decreases n - i,
{
    if i >= n {
        None
    } else if f(i) {
        Some(i)
    } else {
        first_from(n, f, i + 1)
    }
}

/// The first number below `n` that meets `f`.
pub open spec fn first_where(n: int, f: spec_fn(int) -> bool) -> Option<int> {
    first_from(n, f, 0)
}

pub proof fn lemma_first_from(n: int, f: spec_fn(int) -> bool, i: int)
    ensures
        match first_from(n, f, i) {
            Some(k) => i <= k < n && f(k) && forall|j: int| i <= j < k ==> !#[trigger] f(j),
            None => forall|j: int| i <= j < n ==> !#[trigger] f(j),
        },
    decreases n - i,
{
    if i < n && !f(i) {
        lemma_first_from(n, f, i + 1);
    }
}

/// What is gathered is what is gathered at some place.
pub proof fn lemma_gather_has<T>(n: int, f: spec_fn(int) -> Seq<T>, x: T)
    ensures
        gather(n, f).contains(x) <==> exists|i: int| 0 <= i < n && #[trigger] f(i).contains(x),
    decreases n,
{
    if n > 0 {
        lemma_gather_has(n - 1, f, x);
        let front = gather(n - 1, f);
        let back = f(n - 1);
        let all = front + back;
        if front.contains(x) {
            assert(all[front.index_of(x)] == x);
        }
        if back.contains(x) {
            assert(all[front.len() + back.index_of(x)] == x);
        }
        if all.contains(x) {
            let k = all.index_of(x);
            if k < front.len() {
                assert(front[k] == x);
            } else {
                assert(back[k - front.len()] == x);
            }
        }
    }
}

/// Nothing is counted exactly when nothing holds.
pub proof fn lemma_tally_zero(n: int, f: spec_fn(int) -> bool)
    ensures
        tally(n, f) == 0 <==> forall|i: int| 0 <= i < n ==> !#[trigger] f(i),
    decreases n,
{
    if n > 0 {
        lemma_tally_zero(n - 1, f);
        assert(f(n - 1) || !f(n - 1));
    }
}

} // verus!
