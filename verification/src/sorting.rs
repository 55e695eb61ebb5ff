use vstd::prelude::*;

use crate::io::key_view;
use crate::order::{lemma_lex_basics, lemma_lex_transitive, lex_compare, lex_order};

verus! {

/// Position `i` sorts before position `j` when its key sorts first, or the
/// keys are equal and `i` comes first.
pub open spec fn pos_lt(keys: Seq<Seq<u8>>, i: int, j: int) -> bool {
    lex_order(keys[i], keys[j]) < 0 || (keys[i] == keys[j] && i < j)
}

/// `r` lists the positions `0..n` of `keys`, each once, in strictly
/// increasing `pos_lt` order: a stable sort of the positions by key.
pub open spec fn sorts_positions(keys: Seq<Seq<u8>>, r: Seq<usize>) -> bool {
    &&& r.len() == keys.len()
    &&& forall|x: usize| #[trigger] r.contains(x) <==> x < keys.len()
    &&& forall|a: int, b: int|
        0 <= a < b < r.len() ==> pos_lt(keys, #[trigger] r[a] as int, #[trigger] r[b] as int)
}

/// The positions of `keys` in stable sorted order. There is exactly one such
/// order (see `lemma_sorted_positions_unique`).
pub open spec fn sorted_positions(keys: Seq<Seq<u8>>) -> Seq<usize> {
    choose|r: Seq<usize>| sorts_positions(keys, r)
}

/// `pos_lt` is a strict order: irreflexive, asymmetric and transitive.
pub proof fn lemma_pos_lt_order(keys: Seq<Seq<u8>>, i: int, j: int, k: int)
    ensures
        !pos_lt(keys, i, i),
        pos_lt(keys, i, j) ==> !pos_lt(keys, j, i),
        pos_lt(keys, i, j) && pos_lt(keys, j, k) ==> pos_lt(keys, i, k),
        i != j ==> pos_lt(keys, i, j) || pos_lt(keys, j, i),
{
    lemma_lex_basics(keys[i], keys[i]);
    lemma_lex_basics(keys[i], keys[j]);
    lemma_lex_basics(keys[j], keys[k]);
    lemma_lex_basics(keys[i], keys[k]);
    if lex_order(keys[i], keys[j]) <= 0 && lex_order(keys[j], keys[k]) <= 0 {
        lemma_lex_transitive(keys[i], keys[j], keys[k]);
    }
}

/// Inserting position `k` at `p`, after every position whose key is not
/// greater and before the first whose key is greater, keeps the list sorted.
pub(crate) proof fn lemma_insert_position(kv: Seq<Seq<u8>>, s: Seq<usize>, p: int, k: usize)
    requires
        k < kv.len(),
        s.len() == k,
        0 <= p <= s.len(),
        forall|x: usize| #[trigger] s.contains(x) <==> x < k,
        forall|a: int, b: int| 0 <= a < b < s.len() ==> pos_lt(kv, #[trigger] s[a] as int, #[trigger] s[b] as int),
        forall|q: int| 0 <= q < p ==> lex_order(kv[k as int], kv[#[trigger] s[q] as int]) >= 0,
        p < s.len() ==> lex_order(kv[k as int], kv[s[p] as int]) < 0,
    ensures
        forall|x: usize| #[trigger] s.insert(p, k).contains(x) <==> x < k + 1,
        forall|a: int, b: int|
            0 <= a < b < s.insert(p, k).len() ==> pos_lt(
                kv,
                #[trigger] s.insert(p, k)[a] as int,
                #[trigger] s.insert(p, k)[b] as int,
            ),
{
    let t = s.insert(p, k);
    s.insert_ensures(p, k);
    assert forall|x: usize| #[trigger] t.contains(x) <==> x < k + 1 by {
        if x < k {
            assert(s.contains(x));
            let i = choose|i: int| 0 <= i < s.len() && s[i] == x;
            if i < p {
                assert(t[i] == x);
            } else {
                assert(t[i + 1] == x);
            }
        } else if x == k {
            assert(t[p] == x);
        }
        if t.contains(x) {
            let i = choose|i: int| 0 <= i < t.len() && t[i] == x;
            if i < p {
                assert(s.contains(s[i]));
            } else if i > p {
                assert(s[i - 1] == t[i]);
                assert(s.contains(s[i - 1]));
            }
        }
    }
    assert forall|a: int, b: int| 0 <= a < b < t.len() implies pos_lt(
        kv,
        #[trigger] t[a] as int,
        #[trigger] t[b] as int,
    ) by {
        if b < p {
            assert(t[a] == s[a] && t[b] == s[b]);
        } else if b == p {
            assert(t[a] == s[a]);
            assert(s.contains(s[a]));
            lemma_lex_basics(kv[k as int], kv[s[a] as int]);
        } else if a < p {
            assert(t[a] == s[a]);
            assert(t[b] == s[b - 1]);
        } else if a == p {
            assert(t[b] == s[b - 1]);
            assert(s.contains(s[p]));
            if b - 1 > p {
                assert(pos_lt(kv, s[p] as int, s[b - 1] as int));
                lemma_pos_lt_order(kv, k as int, s[p] as int, s[b - 1] as int);
            }
        } else {
            assert(t[a] == s[a - 1]);
            assert(t[b] == s[b - 1]);
        }
    }
}

/// Two lists that both sort the positions of `keys` are the same list.
pub proof fn lemma_sorted_positions_unique(keys: Seq<Seq<u8>>, r1: Seq<usize>, r2: Seq<usize>)
    requires
        sorts_positions(keys, r1),
        sorts_positions(keys, r2),
    ensures
        r1 == r2,
{
    assert forall|i: int| 0 <= i < r1.len() implies r1[i] == r2[i] by {
        lemma_sorted_prefix_agrees(keys, r1, r2, i);
    }
    assert(r1 =~= r2);
}

/// Two sorted lists of the same positions agree at every index up to `i`.
proof fn lemma_sorted_prefix_agrees(keys: Seq<Seq<u8>>, r1: Seq<usize>, r2: Seq<usize>, i: int)
    requires
        sorts_positions(keys, r1),
        sorts_positions(keys, r2),
        0 <= i < r1.len(),
    ensures
        forall|j: int| 0 <= j <= i ==> r1[j] == r2[j],
    decreases i,
{
    if i > 0 {
        lemma_sorted_prefix_agrees(keys, r1, r2, i - 1);
    }
    let a = r1[i];
    let b = r2[i];
    if a != b {
        assert(r1.contains(a));
        assert(r2.contains(a));
        assert(r2.contains(b));
        assert(r1.contains(b));
        let m = choose|m: int| 0 <= m < r2.len() && r2[m] == a;
        let k = choose|k: int| 0 <= k < r1.len() && r1[k] == b;
        if m < i {
            assert(r1[m] == a);
            assert(pos_lt(keys, r1[m] as int, r1[i] as int));
            lemma_pos_lt_order(keys, a as int, a as int, a as int);
        }
        if k < i {
            assert(r2[k] == b);
            assert(pos_lt(keys, r2[k] as int, r2[i] as int));
            lemma_pos_lt_order(keys, b as int, b as int, b as int);
        }
        assert(m > i);
        assert(k > i);
        assert(pos_lt(keys, r1[i] as int, r1[k] as int));
        assert(pos_lt(keys, r2[i] as int, r2[m] as int));
        lemma_pos_lt_order(keys, a as int, b as int, a as int);
    }
}

/// Scanning from `p`, the place where position `k` goes: every listed
/// position before it has a key that is not greater, the one at it (if any)
/// a greater key.
proof fn lemma_insert_point(kv: Seq<Seq<u8>>, s: Seq<usize>, k: int, p: int) -> (q: int)
    requires
        0 <= k < kv.len(),
        0 <= p <= s.len(),
        forall|j: int| 0 <= j < s.len() ==> (#[trigger] s[j] as int) < kv.len(),
        forall|j: int| 0 <= j < p ==> lex_order(kv[k], kv[#[trigger] s[j] as int]) >= 0,
    ensures
        p <= q <= s.len(),
        forall|j: int| 0 <= j < q ==> lex_order(kv[k], kv[#[trigger] s[j] as int]) >= 0,
        q < s.len() ==> lex_order(kv[k], kv[s[q] as int]) < 0,
    decreases s.len() - p,
{
    if p == s.len() {
        p
    } else if lex_order(kv[k], kv[s[p] as int]) < 0 {
        p
    } else {
        lemma_insert_point(kv, s, k, p + 1)
    }
}

/// The first `k` positions of `keys` can be listed in sorted order.
proof fn lemma_sorted_prefix_exists(keys: Seq<Seq<u8>>, k: int)
    requires
        0 <= k <= keys.len(),
        keys.len() <= usize::MAX,
    ensures
        exists|r: Seq<usize>|
            #![trigger r.len()]
            r.len() == k && (forall|x: usize| #[trigger] r.contains(x) <==> x < k) && (forall|a: int, b: int|
                0 <= a < b < r.len() ==> pos_lt(keys, #[trigger] r[a] as int, #[trigger] r[b] as int)),
    decreases k,
{
    if k == 0 {
        let r = Seq::<usize>::empty();
        assert(r.len() == 0);
    } else {
        lemma_sorted_prefix_exists(keys, k - 1);
        let s = choose|r: Seq<usize>|
            #![trigger r.len()]
            r.len() == k - 1 && (forall|x: usize| #[trigger] r.contains(x) <==> x < k - 1) && (forall|a: int, b: int|
                0 <= a < b < r.len() ==> pos_lt(keys, #[trigger] r[a] as int, #[trigger] r[b] as int));
        assert forall|j: int| 0 <= j < s.len() implies (#[trigger] s[j] as int) < keys.len() by {
            assert(s.contains(s[j]));
        }
        let q = lemma_insert_point(keys, s, k - 1, 0);
        let ku = (k - 1) as usize;
        lemma_insert_position(keys, s, q, ku);
        let r = s.insert(q, ku);
        assert(r.len() == k);
    }
}

/// Every list of keys short enough to index has its stable sorted order.
pub proof fn lemma_sorted_positions_sorts(keys: Seq<Seq<u8>>)
    requires
        keys.len() <= usize::MAX,
    ensures
        sorts_positions(keys, sorted_positions(keys)),
{
    lemma_sorted_prefix_exists(keys, keys.len() as int);
    let r = choose|r: Seq<usize>|
        #![trigger r.len()]
        r.len() == keys.len() && (forall|x: usize| #[trigger] r.contains(x) <==> x < keys.len()) && (forall|a: int, b: int|
            0 <= a < b < r.len() ==> pos_lt(keys, #[trigger] r[a] as int, #[trigger] r[b] as int));
    assert(sorts_positions(keys, r));
}

/// A sorted order of positions lists their keys in ascending order.
pub proof fn lemma_sorted_positions_ascending(keys: Seq<Seq<u8>>, a: int, b: int)
    requires
        keys.len() <= usize::MAX,
        0 <= a < b < keys.len(),
    ensures
        (sorted_positions(keys)[a] as int) < keys.len(),
        (sorted_positions(keys)[b] as int) < keys.len(),
        lex_order(keys[sorted_positions(keys)[a] as int], keys[sorted_positions(keys)[b] as int]) <= 0,
{
    lemma_sorted_positions_sorts(keys);
    let r = sorted_positions(keys);
    assert(r.contains(r[a]));
    assert(r.contains(r[b]));
    assert(pos_lt(keys, r[a] as int, r[b] as int));
    lemma_lex_basics(keys[r[a] as int], keys[r[b] as int]);
}


/// Position `x` after the position `i` is taken out.
pub open spec fn shift_down(i: int, x: usize) -> usize {
    if x as int > i {
        (x - 1) as usize
    } else {
        x
    }
}

/// Position `x` after a new position is put in at `i`.
pub open spec fn shift_up(i: int, x: usize) -> usize {
    if x as int >= i {
        (x + 1) as usize
    } else {
        x
    }
}

/// Sorted positions name each position once.
pub proof fn lemma_sorted_positions_distinct(keys: Seq<Seq<u8>>)
    requires
        keys.len() <= usize::MAX,
    ensures
        forall|a: int, b: int|
            0 <= a < b < keys.len() ==> #[trigger] sorted_positions(keys)[a] != #[trigger] sorted_positions(keys)[b],
        forall|j: int| 0 <= j < keys.len() ==> (#[trigger] sorted_positions(keys)[j] as int) < keys.len(),
{
    lemma_sorted_positions_sorts(keys);
    let pos = sorted_positions(keys);
    assert forall|a: int, b: int| 0 <= a < b < keys.len() implies #[trigger] pos[a] != #[trigger] pos[b] by {
        lemma_pos_lt_order(keys, pos[a] as int, pos[b] as int, pos[a] as int);
    }
    assert forall|j: int| 0 <= j < keys.len() implies (#[trigger] pos[j] as int) < keys.len() by {
        assert(pos.contains(pos[j]));
    }
}

/// Taking key `lp` out takes its position out of the sorted order, from
/// where it stands at `q`, and moves the later positions down by one.
pub proof fn lemma_sorted_positions_remove(keys: Seq<Seq<u8>>, lp: int, q: int)
    requires
        keys.len() <= usize::MAX,
        0 <= lp < keys.len(),
        0 <= q < keys.len(),
        sorted_positions(keys)[q] as int == lp,
    ensures
        sorted_positions(keys.remove(lp)) == Seq::new(
            (keys.len() - 1) as nat,
            |j: int| shift_down(lp, sorted_positions(keys).remove(q)[j]),
        ),
{
    lemma_sorted_positions_sorts(keys);
    lemma_sorted_positions_distinct(keys);
    let pos = sorted_positions(keys);
    let n = keys.len() as int;
    let keys2 = keys.remove(lp);
    let rest = pos.remove(q);
    let pos2 = Seq::new((n - 1) as nat, |j: int| shift_down(lp, rest[j]));
    assert forall|j: int| 0 <= j < n - 1 implies (#[trigger] rest[j] as int) != lp && (rest[j] as int) < n by {
        let a = if j < q { j } else { j + 1 };
        assert(rest[j] == pos[a]);
    }
    assert forall|x: usize| #[trigger] pos2.contains(x) <==> x < n - 1 by {
        if x < n - 1 {
            let y: usize = if (x as int) < lp { x } else { (x + 1) as usize };
            assert(pos.contains(y));
            let a = choose|a: int| 0 <= a < n && pos[a] == y;
            assert(a != q);
            let j = if a < q { a } else { a - 1 };
            assert(rest[j] == y);
            assert(pos2[j] == x);
        }
        if pos2.contains(x) {
            let j = choose|j: int| 0 <= j < pos2.len() && pos2[j] == x;
            assert(rest[j] as int != lp);
        }
    }
    assert forall|a: int, b: int| 0 <= a < b < pos2.len() implies pos_lt(keys2, #[trigger] pos2[a] as int, #[trigger] pos2[b] as int) by {
        let a1 = if a < q { a } else { a + 1 };
        let b1 = if b < q { b } else { b + 1 };
        assert(rest[a] == pos[a1]);
        assert(rest[b] == pos[b1]);
        assert(pos_lt(keys, pos[a1] as int, pos[b1] as int));
        assert(keys2[pos2[a] as int] == keys[rest[a] as int]);
        assert(keys2[pos2[b] as int] == keys[rest[b] as int]);
    }
    assert(sorts_positions(keys2, pos2));
    lemma_sorted_positions_sorts(keys2);
    lemma_sorted_positions_unique(keys2, pos2, sorted_positions(keys2));
}

/// Putting key `k` in at `i` puts position `i` into the sorted order at `p`,
/// where the positions before sort before it and those from `p` on after
/// it, and moves the positions from `i` on up by one.
pub proof fn lemma_sorted_positions_insert(keys: Seq<Seq<u8>>, i: int, k: Seq<u8>, p: int)
    requires
        keys.len() < usize::MAX,
        0 <= i <= keys.len(),
        0 <= p <= keys.len(),
        forall|j: int|
            0 <= j < p ==> lex_order(keys[#[trigger] sorted_positions(keys)[j] as int], k) < 0 || (keys[sorted_positions(
                keys,
            )[j] as int] == k && (sorted_positions(keys)[j] as int) < i),
        forall|j: int|
            p <= j < keys.len() ==> lex_order(keys[#[trigger] sorted_positions(keys)[j] as int], k) > 0 || (keys[sorted_positions(
                keys,
            )[j] as int] == k && (sorted_positions(keys)[j] as int) >= i),
    ensures
        sorted_positions(keys.insert(i, k)) == Seq::new(
            keys.len() as nat,
            |j: int| shift_up(i, sorted_positions(keys)[j]),
        ).insert(p, i as usize),
{
    lemma_sorted_positions_sorts(keys);
    lemma_sorted_positions_distinct(keys);
    let pos = sorted_positions(keys);
    let n = keys.len() as int;
    let keys2 = keys.insert(i, k);
    let up = Seq::new(n as nat, |j: int| shift_up(i, pos[j]));
    let pos2 = up.insert(p, i as usize);
    assert forall|x: int| 0 <= x < n implies #[trigger] keys2[shift_up(i, x as usize) as int] == keys[x] by {}
    assert(keys2[i] == k);
    assert forall|j: int| 0 <= j < n + 1 && j != p implies (#[trigger] pos2[j] as int) != i by {
        let a = if j < p { j } else { j - 1 };
        assert(pos2[j] == up[a]);
    }
    assert forall|x: usize| #[trigger] pos2.contains(x) <==> x < n + 1 by {
        if x < n + 1 {
            if x as int == i {
                assert(pos2[p] == x);
            } else {
                let y: usize = if (x as int) < i { x } else { (x - 1) as usize };
                assert(pos.contains(y));
                let a = choose|a: int| 0 <= a < n && pos[a] == y;
                let j = if a < p { a } else { a + 1 };
                assert(pos2[j] == up[a]);
                assert(pos2[j] == x);
            }
        }
        if pos2.contains(x) {
            let j = choose|j: int| 0 <= j < pos2.len() && pos2[j] == x;
            if j != p {
                let a = if j < p { j } else { j - 1 };
                assert(pos2[j] == up[a]);
            }
        }
    }
    assert forall|a: int, b: int| 0 <= a < b < pos2.len() implies pos_lt(keys2, #[trigger] pos2[a] as int, #[trigger] pos2[b] as int) by {
        if a == p {
            let b1 = b - 1;
            assert(pos2[b] == up[b1]);
            lemma_lex_basics(keys[pos[b1] as int], k);
        } else if b == p {
            assert(pos2[a] == up[a]);
            lemma_lex_basics(keys[pos[a] as int], k);
        } else {
            let a1 = if a < p { a } else { a - 1 };
            let b1 = if b < p { b } else { b - 1 };
            assert(pos2[a] == up[a1]);
            assert(pos2[b] == up[b1]);
            assert(pos_lt(keys, pos[a1] as int, pos[b1] as int));
        }
    }
    assert(sorts_positions(keys2, pos2));
    lemma_sorted_positions_sorts(keys2);
    lemma_sorted_positions_unique(keys2, pos2, sorted_positions(keys2));
}

/// The positions of `keys`, stably sorted by key.
pub fn sort_positions(keys: &Vec<Vec<u8>>) -> (r: Vec<usize>)
    ensures
        sorts_positions(key_view(*keys), r@),
        r@ == sorted_positions(key_view(*keys)),
{
    let ghost kv = key_view(*keys);
    let n = keys.len();
    let mut r: Vec<usize> = Vec::new();
    let mut k: usize = 0;
    while k < n
        invariant
            0 <= k <= n,
            n == kv.len(),
            kv == key_view(*keys),
            r@.len() == k,
            forall|x: usize| #[trigger] r@.contains(x) <==> x < k,
            forall|a: int, b: int| 0 <= a < b < r@.len() ==> pos_lt(kv, #[trigger] r@[a] as int, #[trigger] r@[b] as int),
        decreases n - k,
    {
        let mut p: usize = 0;
        let mut found = false;
        while p < r.len() && !found
            invariant
                0 <= p <= r@.len(),
                r@.len() == k,
                k < n,
                n == kv.len(),
                kv == key_view(*keys),
                forall|x: usize| #[trigger] r@.contains(x) <==> x < k,
                forall|q: int| 0 <= q < p ==> lex_order(kv[k as int], kv[#[trigger] r@[q] as int]) >= 0,
                found ==> p < r@.len() && lex_order(kv[k as int], kv[r@[p as int] as int]) < 0,
            decreases r@.len() - p + if found { 0int } else { 1int },
        {
            assert(r@.contains(r@[p as int]));
            let c = lex_compare(keys[k].as_slice(), keys[r[p]].as_slice());
            if c < 0 {
                found = true;
            } else {
                p = p + 1;
            }
        }
        let ghost s = r@;
        proof {
            if p < s.len() {
                assert(s.contains(s[p as int]));
            }
            lemma_insert_position(kv, s, p as int, k);
        }
        r.insert(p, k);
        k = k + 1;
    }
    proof {
        assert(sorts_positions(kv, r@));
        lemma_sorted_positions_unique(kv, r@, sorted_positions(kv));
    }
    r
}

} // verus!
