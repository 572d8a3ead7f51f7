//! Stable ordering of a list by composite keys.

use crate::seqs::ints;
use crate::text::{lemma_text_lt_total, lemma_text_lt_trans, same, text_before, text_lt};
use vstd::prelude::*;

verus! {

/// What an item is ordered by: the ranks one after another, then the text, then
/// the minor number. Items with equal keys keep their places.
pub struct SortKey {
    pub ranks: Vec<u64>,
    pub text: String,
    pub minor: u64,
}

/// The mathematical content of a [`SortKey`].
pub struct KeyModel {
    pub ranks: Seq<u64>,
    pub text: Seq<char>,
    pub minor: u64,
}

impl View for SortKey {
    type V = KeyModel;

    open spec fn view(&self) -> KeyModel {
        KeyModel { ranks: self.ranks@, text: self.text@, minor: self.minor }
    }
}

/// A key made of ranks alone.
pub open spec fn rank_key(ranks: Seq<u64>) -> KeyModel {
    KeyModel { ranks, text: Seq::empty(), minor: 0 }
}

/// A key made of ranks and a text.
pub open spec fn text_key(ranks: Seq<u64>, text: Seq<char>) -> KeyModel {
    KeyModel { ranks, text, minor: 0 }
}

/// The rank that puts greater numbers first.
pub open spec fn descending(n: int) -> u64 {
    (u64::MAX - n) as u64
}

/// The order of rank lists: number by number.
pub open spec fn ranks_lt(a: Seq<u64>, b: Seq<u64>) -> bool
    decreases a.len(),
{
    if b.len() == 0 {
        false
    } else if a.len() == 0 {
        true
    } else if a[0] == b[0] {
        ranks_lt(a.skip(1), b.skip(1))
    } else {
        a[0] < b[0]
    }
}

/// The order of keys.
pub open spec fn key_lt(a: KeyModel, b: KeyModel) -> bool {
    ||| ranks_lt(a.ranks, b.ranks)
    ||| a.ranks == b.ranks && text_lt(a.text, b.text)
    ||| a.ranks == b.ranks && a.text == b.text && a.minor < b.minor
}

/// Item `i` is placed before item `j`: its key is smaller, or the keys are equal
/// and it already came first.
pub open spec fn placed_before(keys: Seq<KeyModel>, i: int, j: int) -> bool {
    key_lt(keys[i], keys[j]) || (keys[i] == keys[j] && i < j)
}

/// `p` lists every item once, each placed before all that follow it.
pub open spec fn is_order(p: Seq<int>, keys: Seq<KeyModel>) -> bool {
    &&& p.len() == keys.len()
    &&& forall|i: int| 0 <= i < p.len() ==> 0 <= #[trigger] p[i] < keys.len()
    &&& forall|x: int| 0 <= x < keys.len() ==> p.contains(x)
    &&& increasing(p, keys)
}

/// Each position of `p` is placed before all that follow it.
pub open spec fn increasing(p: Seq<int>, keys: Seq<KeyModel>) -> bool {
    forall|i: int, j: int| 0 <= i < j < p.len() ==> placed_before(keys, #[trigger] p[i], #[trigger] p[j])
}

/// The positions of the items in sorted order. There is exactly one such list.
pub open spec fn stable_order(keys: Seq<KeyModel>) -> Seq<int> {
    choose|p: Seq<int>| is_order(p, keys)
}

/// The items in the order of their keys.
pub open spec fn arrange<T>(items: Seq<T>, keys: Seq<KeyModel>) -> Seq<T> {
    stable_order(keys).map_values(|i: int| items[i])
}

/// The keys of a list, as models.
pub open spec fn key_views(keys: Seq<SortKey>) -> Seq<KeyModel> {
    keys.map_values(|k: SortKey| k@)
}

pub proof fn lemma_ranks_lt_total(a: Seq<u64>, b: Seq<u64>)
    ensures
        !(ranks_lt(a, b) && ranks_lt(b, a)),
        a != b ==> ranks_lt(a, b) || ranks_lt(b, a),
        a == b ==> !ranks_lt(a, b),
    decreases a.len(),
{
    if a.len() > 0 && b.len() > 0 {
        if a[0] == b[0] {
            lemma_ranks_lt_total(a.skip(1), b.skip(1));
            if a.skip(1) == b.skip(1) {
                assert(a =~= seq![a[0]] + a.skip(1));
                assert(b =~= seq![b[0]] + b.skip(1));
            }
        }
    } else if a.len() == 0 && b.len() == 0 {
        assert(a =~= b);
    }
}

pub proof fn lemma_ranks_lt_trans(a: Seq<u64>, b: Seq<u64>, c: Seq<u64>)
    requires
        ranks_lt(a, b),
        ranks_lt(b, c),
    ensures
        ranks_lt(a, c),
    decreases a.len(),
{
    if a.len() > 0 && a[0] == b[0] && b[0] == c[0] {
        lemma_ranks_lt_trans(a.skip(1), b.skip(1), c.skip(1));
    }
}

/// Keys are totally ordered.
pub proof fn lemma_key_lt_total(a: KeyModel, b: KeyModel)
    ensures
        !(key_lt(a, b) && key_lt(b, a)),
        a != b ==> key_lt(a, b) || key_lt(b, a),
        !key_lt(a, a),
{
    lemma_ranks_lt_total(a.ranks, b.ranks);
    lemma_text_lt_total(a.text, b.text);
    lemma_ranks_lt_total(a.ranks, a.ranks);
    lemma_text_lt_total(a.text, a.text);
}

pub proof fn lemma_key_lt_trans(a: KeyModel, b: KeyModel, c: KeyModel)
    requires
        key_lt(a, b),
        key_lt(b, c),
    ensures
        key_lt(a, c),
{
    if ranks_lt(a.ranks, b.ranks) && ranks_lt(b.ranks, c.ranks) {
        lemma_ranks_lt_trans(a.ranks, b.ranks, c.ranks);
    }
    if text_lt(a.text, b.text) && text_lt(b.text, c.text) {
        lemma_text_lt_trans(a.text, b.text, c.text);
    }
}

proof fn lemma_placed_total(keys: Seq<KeyModel>, i: int, j: int)
    ensures
        !(placed_before(keys, i, j) && placed_before(keys, j, i)),
        i != j ==> placed_before(keys, i, j) || placed_before(keys, j, i),
        !placed_before(keys, i, i),
{
    lemma_key_lt_total(keys[i], keys[j]);
}

proof fn lemma_placed_trans(keys: Seq<KeyModel>, i: int, j: int, k: int)
    requires
        placed_before(keys, i, j),
        placed_before(keys, j, k),
    ensures
        placed_before(keys, i, k),
{
    if key_lt(keys[i], keys[j]) && key_lt(keys[j], keys[k]) {
        lemma_key_lt_trans(keys[i], keys[j], keys[k]);
    }
}

/// Two orders of the same keys are the same list.
pub proof fn lemma_order_unique(p: Seq<int>, q: Seq<int>, keys: Seq<KeyModel>)
    requires
        is_order(p, keys),
        is_order(q, keys),
    ensures
        p == q,
{
    assert forall|i: int| 0 <= i < p.len() implies p[i] == q[i] by {
        lemma_order_agree(p, q, keys, i);
    }
    assert(p =~= q);
}

proof fn lemma_order_agree(p: Seq<int>, q: Seq<int>, keys: Seq<KeyModel>, i: int)
    requires
        is_order(p, keys),
        is_order(q, keys),
        0 <= i < p.len(),
    ensures
        p[i] == q[i],
    decreases i,
{
    assert forall|k: int| 0 <= k < i implies p[k] == q[k] by {
        lemma_order_agree(p, q, keys, k);
    }
    if p[i] != q[i] {
        assert(q.contains(p[i]));
        let j = q.index_of(p[i]);
        assert(q[j] == p[i]);
        if j < i {
            assert(p[j] == q[j]);
            assert(placed_before(keys, p[j], p[i]));
            lemma_placed_total(keys, p[i], p[i]);
            assert(false);
        }
        assert(p.contains(q[i]));
        let k = p.index_of(q[i]);
        assert(p[k] == q[i]);
        if k < i {
            assert(p[k] == q[k]);
            assert(placed_before(keys, q[k], q[i]));
            lemma_placed_total(keys, q[i], q[i]);
            assert(false);
        }
        assert(i < j && i < k);
        assert(placed_before(keys, q[i], q[j]));
        assert(placed_before(keys, p[i], p[k]));
        lemma_placed_total(keys, p[i], q[i]);
        assert(false);
    }
}

/// The ordering of `a` before `b` as keys.
pub fn key_before(a: &SortKey, b: &SortKey) -> (r: bool)
    ensures
        r == key_lt(a@, b@),
{
    proof {
        lemma_ranks_lt_total(a.ranks@, b.ranks@);
        lemma_text_lt_total(a.text@, b.text@);
    }
    if ranks_before(&a.ranks, &b.ranks) {
        return true;
    }
    if ranks_before(&b.ranks, &a.ranks) {
        return false;
    }
    if text_before(a.text.as_str(), b.text.as_str()) {
        return true;
    }
    same(a.text.as_str(), b.text.as_str()) && a.minor < b.minor
}

fn ranks_before(a: &Vec<u64>, b: &Vec<u64>) -> (r: bool)
    ensures
        r == ranks_lt(a@, b@),
{
    let mut i: usize = 0;
    proof {
        assert(a@.skip(0) =~= a@);
        assert(b@.skip(0) =~= b@);
    }
    loop
        invariant
            i <= a@.len(),
            i <= b@.len(),
            ranks_lt(a@, b@) == ranks_lt(a@.skip(i as int), b@.skip(i as int)),
        decreases a@.len() - i,
    {
        if i >= b.len() {
            return false;
        }
        if i >= a.len() {
            return true;
        }
        if a[i] != b[i] {
            return a[i] < b[i];
        }
        proof {
            assert(a@.skip(i as int).skip(1) =~= a@.skip(i + 1));
            assert(b@.skip(i as int).skip(1) =~= b@.skip(i + 1));
        }
        i += 1;
    }
}

/// Merge two sorted runs; every position of `left` is smaller than every
/// position of `right`.
fn merge(left: &Vec<usize>, right: &Vec<usize>, keys: &Vec<SortKey>) -> (out: Vec<usize>)
    requires
        increasing(ints(left@), key_views(keys@)),
        increasing(ints(right@), key_views(keys@)),
        forall|i: int| 0 <= i < left@.len() ==> #[trigger] left@[i] < keys@.len(),
        forall|i: int| 0 <= i < right@.len() ==> #[trigger] right@[i] < keys@.len(),
        forall|i: int, j: int|
            0 <= i < left@.len() && 0 <= j < right@.len() ==> #[trigger] left@[i] < #[trigger] right@[j],
    ensures
        out@.len() == left@.len() + right@.len(),
        increasing(ints(out@), key_views(keys@)),
        forall|x: usize| out@.contains(x) <==> left@.contains(x) || right@.contains(x),
{
    let ghost k = key_views(keys@);
    let mut out: Vec<usize> = Vec::new();
    let mut i: usize = 0;
    let mut j: usize = 0;
    while i < left.len() || j < right.len()
        invariant
            k == key_views(keys@),
            i <= left@.len(),
            j <= right@.len(),
            out@.len() == i + j,
            increasing(ints(left@), k),
            increasing(ints(right@), k),
            increasing(ints(out@), k),
            forall|a: int| 0 <= a < left@.len() ==> #[trigger] left@[a] < keys@.len(),
            forall|a: int| 0 <= a < right@.len() ==> #[trigger] right@[a] < keys@.len(),
            forall|a: int, b: int|
                0 <= a < left@.len() && 0 <= b < right@.len() ==> #[trigger] left@[a]
                    < #[trigger] right@[b],
            forall|x: usize|
                out@.contains(x) <==> left@.take(i as int).contains(x) || right@.take(
                    j as int,
                ).contains(x),
            forall|a: int, b: int|
                0 <= a < out@.len() && i <= b < left@.len() ==> placed_before(
                    k,
                    #[trigger] out@[a] as int,
                    #[trigger] left@[b] as int,
                ),
            forall|a: int, b: int|
                0 <= a < out@.len() && j <= b < right@.len() ==> placed_before(
                    k,
                    #[trigger] out@[a] as int,
                    #[trigger] right@[b] as int,
                ),
        decreases left@.len() - i + right@.len() - j,
    {
        let from_left = if i >= left.len() {
            false
        } else if j >= right.len() {
            true
        } else {
            !key_before(&keys[right[j]], &keys[left[i]])
        };
        let ghost prev = out@;
        if from_left {
            let x: usize = left[i];
            out.push(x);
            proof {
                assert forall|b: int| j <= b < right@.len() implies placed_before(
                    k,
                    x as int,
                    #[trigger] right@[b] as int,
                ) by {
                    lemma_key_lt_total(k[x as int], k[right@[j as int] as int]);
                    assert(placed_before(k, x as int, right@[j as int] as int));
                    if b > j {
                        assert(placed_before(k, ints(right@)[j as int], ints(right@)[b]));
                        lemma_placed_trans(k, x as int, right@[j as int] as int, right@[b] as int);
                    }
                }
                assert forall|b: int| i < b < left@.len() implies placed_before(
                    k,
                    x as int,
                    #[trigger] left@[b] as int,
                ) by {
                    assert(placed_before(k, ints(left@)[i as int], ints(left@)[b]));
                }
                assert(left@.take(i + 1) =~= left@.take(i as int).push(x));
                lemma_push_contains(left@.take(i as int), x);
            }
            i += 1;
        } else {
            let x: usize = right[j];
            out.push(x);
            proof {
                assert forall|b: int| i <= b < left@.len() implies placed_before(
                    k,
                    x as int,
                    #[trigger] left@[b] as int,
                ) by {
                    assert(placed_before(k, x as int, left@[i as int] as int));
                    if b > i {
                        assert(placed_before(k, ints(left@)[i as int], ints(left@)[b]));
                        lemma_placed_trans(k, x as int, left@[i as int] as int, left@[b] as int);
                    }
                }
                assert forall|b: int| j < b < right@.len() implies placed_before(
                    k,
                    x as int,
                    #[trigger] right@[b] as int,
                ) by {
                    assert(placed_before(k, ints(right@)[j as int], ints(right@)[b]));
                }
                assert(right@.take(j + 1) =~= right@.take(j as int).push(x));
                lemma_push_contains(right@.take(j as int), x);
            }
            j += 1;
        }
        proof {
            let x = out@.last();
            lemma_push_contains(prev, x);
            assert(out@ =~= prev.push(x));
            assert forall|a: int, b: int| 0 <= a < b < ints(out@).len() implies placed_before(
                k,
                #[trigger] ints(out@)[a],
                #[trigger] ints(out@)[b],
            ) by {
                if b < prev.len() {
                    assert(placed_before(k, ints(prev)[a], ints(prev)[b]));
                } else {
                    assert(prev[a] == out@[a]);
                }
            }
        }
    }
    assert(left@.take(left@.len() as int) =~= left@);
    assert(right@.take(right@.len() as int) =~= right@);
    out
}

proof fn lemma_push_contains<T>(s: Seq<T>, x: T)
    ensures
        forall|y: T| #[trigger] s.push(x).contains(y) <==> s.contains(y) || y == x,
{
    assert forall|y: T| #[trigger] s.push(x).contains(y) <==> s.contains(y) || y == x by {
        if s.contains(y) {
            let i = s.index_of(y);
            assert(s.push(x)[i] == y);
        }
        if y == x {
            assert(s.push(x)[s.len() as int] == y);
        }
    }
}

/// The positions `from..to` in sorted order.
fn sort_span(keys: &Vec<SortKey>, from: usize, to: usize) -> (out: Vec<usize>)
    requires
        from <= to <= keys@.len(),
    ensures
        out@.len() == to - from,
        increasing(ints(out@), key_views(keys@)),
        forall|x: usize| out@.contains(x) <==> from <= x < to,
    decreases to - from,
{
    if to - from == 0 {
        let out: Vec<usize> = Vec::new();
        return out;
    }
    if to - from == 1 {
        let mut out: Vec<usize> = Vec::new();
        out.push(from);
        assert(out@ =~= seq![from]);
        assert(out@[0] == from);
        return out;
    }
    let mid: usize = from + (to - from) / 2;
    let left = sort_span(keys, from, mid);
    let right = sort_span(keys, mid, to);
    proof {
        assert forall|i: int| 0 <= i < left@.len() implies from <= #[trigger] left@[i] < mid by {
            assert(left@.contains(left@[i]));
        }
        assert forall|i: int| 0 <= i < right@.len() implies mid <= #[trigger] right@[i] < to by {
            assert(right@.contains(right@[i]));
        }
    }
    merge(&left, &right, keys)
}

/// The positions of the items in the order of their keys.
pub fn sort_order(keys: &Vec<SortKey>) -> (out: Vec<usize>)
    ensures
        out@.len() == keys@.len(),
        out@.map_values(|i: usize| i as int) == stable_order(key_views(keys@)),
        is_order(out@.map_values(|i: usize| i as int), key_views(keys@)),
        forall|i: int| 0 <= i < out@.len() ==> #[trigger] out@[i] < keys@.len(),
{
    let out = sort_span(keys, 0, keys.len());
    proof {
        let k = key_views(keys@);
        let p = ints(out@);
        assert forall|i: int| 0 <= i < out@.len() implies #[trigger] out@[i] < keys@.len() by {
            assert(out@.contains(out@[i]));
        }
        assert forall|x: int| 0 <= x < k.len() implies p.contains(x) by {
            assert(out@.contains(x as usize));
            let i = out@.index_of(x as usize);
            assert(p[i] == x);
        }
        assert(is_order(p, k));
        lemma_order_unique(p, stable_order(k), k);
        assert(p =~= out@.map_values(|i: usize| i as int));
    }
    out
}

/// The items in the order of their keys.
pub fn arranged<T: Copy>(items: &Vec<T>, keys: &Vec<SortKey>) -> (r: Vec<T>)
    requires
        items@.len() == keys@.len(),
    ensures
        r@ == arrange(items@, key_views(keys@)),
{
    let order = sort_order(keys);
    let ghost want = arrange(items@, key_views(keys@));
    let mut out: Vec<T> = Vec::new();
    let mut i: usize = 0;
    while i < order.len()
        invariant
            i <= order@.len() == want.len(),
            items@.len() == keys@.len(),
            order@.map_values(|x: usize| x as int) == stable_order(key_views(keys@)),
            forall|j: int| 0 <= j < order@.len() ==> #[trigger] order@[j] < keys@.len(),
            want == arrange(items@, key_views(keys@)),
            out@ == want.take(i as int),
        decreases order@.len() - i,
    {
        let x = items[order[i]];
        out.push(x);
        proof {
            assert(order@.map_values(|x: usize| x as int)[i as int] == order@[i as int]);
            assert(want[i as int] == x);
            assert(want.take(i + 1) =~= want.take(i as int).push(x));
        }
        i += 1;
    }
    assert(want.take(order@.len() as int) =~= want);
    out
}

/// Keys that match the first items of `want` still do after the next one.
pub proof fn lemma_key_push(keys: Seq<SortKey>, key: SortKey, want: Seq<KeyModel>, i: int)
    requires
        0 <= i < want.len(),
        key_views(keys) == want.take(i),
        key@ == want[i],
    ensures
        key_views(keys.push(key)) == want.take(i + 1),
{
    assert(want.take(i + 1) =~= want.take(i).push(key@));
    assert(key_views(keys.push(key)) =~= key_views(keys).push(key@));
}

/// A list of keys has an order.
pub proof fn lemma_order_exists(keys: Seq<KeyModel>)
    ensures
        is_order(stable_order(keys), keys),
    decreases keys.len(),
{
    if keys.len() == 0 {
        assert(is_order(Seq::empty(), keys));
    } else {
        let front = keys.drop_last();
        let n = keys.len() - 1;
        lemma_order_exists(front);
        let q = stable_order(front);
        let m = insert_at(q, keys, n, q.len() as int);
        lemma_insert_at(q, keys, n, q.len() as int);
        assert forall|i: int| 0 <= i < q.len() implies keys[#[trigger] q[i]] == front[q[i]] by {}
        let p = q.insert(m, n);
        assert forall|i: int| 0 <= i < p.len() implies 0 <= #[trigger] p[i] < keys.len() by {
            if i < m {
                assert(p[i] == q[i]);
            } else if i > m {
                assert(p[i] == q[i - 1]);
            }
        }
        assert forall|x: int| 0 <= x < keys.len() implies p.contains(x) by {
            if x == n {
                assert(p[m] == n);
            } else {
                assert(q.contains(x));
                let i = q.index_of(x);
                if i < m {
                    assert(p[i] == x);
                } else {
                    assert(p[i + 1] == x);
                }
            }
        }
        assert forall|i: int, j: int| 0 <= i < j < p.len() implies placed_before(
            keys,
            #[trigger] p[i],
            #[trigger] p[j],
        ) by {
            let a = if i < m {
                i
            } else {
                i - 1
            };
            let b = if j < m {
                j
            } else {
                j - 1
            };
            if i != m && j != m {
                assert(p[i] == q[a] && p[j] == q[b]);
                assert(placed_before(front, q[a], q[b]));
            } else if i == m {
                assert(p[j] == q[b]);
                assert(placed_before(keys, n, q[b]));
            } else {
                assert(p[i] == q[a]);
                assert(placed_before(keys, q[a], n));
            }
        }
        assert(is_order(p, keys));
    }
}

/// Where `n` goes among the first `m` of `q`.
spec fn insert_at(q: Seq<int>, keys: Seq<KeyModel>, n: int, m: int) -> int
    decreases m,
{
    if m <= 0 || placed_before(keys, q[m - 1], n) {
        m
    } else {
        insert_at(q, keys, n, m - 1)
    }
}

proof fn lemma_insert_at(q: Seq<int>, keys: Seq<KeyModel>, n: int, m: int)
    requires
        keys.len() == q.len() + 1,
        n == keys.len() - 1,
        is_order(q, keys.drop_last()),
        0 <= m <= q.len(),
        forall|i: int| m <= i < q.len() ==> placed_before(keys, n, #[trigger] q[i]),
    ensures
        0 <= insert_at(q, keys, n, m) <= q.len(),
        forall|i: int|
            0 <= i < insert_at(q, keys, n, m) ==> placed_before(keys, #[trigger] q[i], n),
        forall|i: int|
            insert_at(q, keys, n, m) <= i < q.len() ==> placed_before(keys, n, #[trigger] q[i]),
    decreases m,
{
    let front = keys.drop_last();
    if m > 0 {
        assert(0 <= q[m - 1] < front.len());
        lemma_placed_total(keys, q[m - 1], n);
        if placed_before(keys, q[m - 1], n) {
            assert forall|i: int| 0 <= i < m implies placed_before(keys, #[trigger] q[i], n) by {
                if i < m - 1 {
                    assert(placed_before(front, q[i], q[m - 1]));
                    assert(0 <= q[i] < front.len());
                    assert(placed_before(keys, q[i], q[m - 1]));
                    lemma_placed_trans(keys, q[i], q[m - 1], n);
                }
            }
        } else {
            lemma_insert_at(q, keys, n, m - 1);
        }
    }
}

/// Arranging a list keeps its items and adds none.
pub proof fn lemma_arrange_has<T>(items: Seq<T>, keys: Seq<KeyModel>)
    requires
        items.len() == keys.len(),
    ensures
        arrange(items, keys).len() == items.len(),
        forall|x: T| #[trigger] arrange(items, keys).contains(x) <==> items.contains(x),
{
    lemma_order_exists(keys);
    let p = stable_order(keys);
    let s = arrange(items, keys);
    assert forall|x: T| #[trigger] s.contains(x) <==> items.contains(x) by {
        if s.contains(x) {
            let i = s.index_of(x);
            assert(items[p[i]] == x);
        }
        if items.contains(x) {
            let k = items.index_of(x);
            assert(p.contains(k));
            assert(s[p.index_of(k)] == x);
        }
    }
}

} // verus!
