use vstd::prelude::*;
use vstd::slice::slice_to_vec;

use crate::error::Error;
use crate::io::{
    after_records, key_view, lemma_after_records_twice, lemma_skip_end_ahead, names_of, read_all, read_records, ReadOutcome,
    Reader,
};
use crate::layout::{lemma_field_bounds, offset_of};
use crate::layout::{field_view, RecordLayout};
use crate::list::{field_keys, first_of, key_bytes, keys_by, key_matches, key_matches_exec, matching, views, KeyBound, KeyMatch, Matcher};
use crate::order::{lex_compare, lex_order};
use crate::sorting::{
    lemma_pos_lt_order, lemma_sorted_positions_distinct, lemma_sorted_positions_insert, lemma_sorted_positions_remove,
    lemma_sorted_positions_sorts, pos_lt, shift_down, shift_up, sort_positions, sorted_positions,
};
use crate::field_order::{fields_order, lemma_fields_order_is_key_order};
use crate::record::{record_len, width_of, Record};

verus! {

/// `v` extended to `w` bytes with `fill`.
pub open spec fn pad_to(v: Seq<u8>, fill: u8, w: int) -> Seq<u8> {
    v + Seq::new((w - v.len()) as nat, |_i: int| fill)
}

/// A range bound extended to the field width with `fill`.
pub open spec fn padded_bound(b: Option<(Seq<u8>, bool)>, fill: u8, w: int) -> Option<(Seq<u8>, bool)> {
    match b {
        None => None,
        Some((v, inclusive)) => Some((pad_to(v, fill, w), inclusive)),
    }
}

/// A bound is no wider than `w` bytes (or absent).
pub open spec fn bound_within(b: Option<(Seq<u8>, bool)>, w: int) -> bool {
    match b {
        None => true,
        Some((v, _)) => v.len() <= w,
    }
}

/// The width of a bound's value; none when there is no bound.
pub open spec fn bound_len(b: Option<(Seq<u8>, bool)>) -> int {
    match b {
        None => 0,
        Some((v, _)) => v.len() as int,
    }
}

/// The value of a bound; empty when there is no bound.
pub open spec fn bound_value(b: Option<(Seq<u8>, bool)>) -> Seq<u8> {
    match b {
        None => Seq::empty(),
        Some((v, _)) => v,
    }
}

/// The padded start lies after the padded end.
pub open spec fn range_reversed(lo: Option<(Seq<u8>, bool)>, hi: Option<(Seq<u8>, bool)>) -> bool {
    match (lo, hi) {
        (Some((a, _)), Some((b, _))) => lex_order(a, b) > 0,
        _ => false,
    }
}

/// The padded bounds are one value left out at both ends: nothing lies between.
pub open spec fn range_void(lo: Option<(Seq<u8>, bool)>, hi: Option<(Seq<u8>, bool)>) -> bool {
    match (lo, hi) {
        (Some((a, ia)), Some((b, ib))) => lex_order(a, b) == 0 && !ia && !ib,
        _ => false,
    }
}

/// The bytes of a sequence of records.
pub open spec fn record_views<F: RecordLayout>(s: Seq<Record<F>>) -> Seq<Seq<u8>> {
    Seq::new(s.len(), |i: int| s[i]@)
}

/// How many records of `rs` the search `m` keeps on field `f`.
pub open spec fn match_count<F: RecordLayout>(rs: Seq<Seq<u8>>, f: F, m: KeyMatch) -> nat {
    matching(rs, f, m).len()
}

/// The records of `rs` for which `keep` is set, in order.
pub open spec fn kept<A>(rs: Seq<A>, keep: Seq<bool>) -> Seq<A>
    decreases rs.len(),
{
    if rs.len() == 0 || keep.len() == 0 {
        Seq::empty()
    } else if keep.last() {
        kept(rs.drop_last(), keep.drop_last()).push(rs.last())
    } else {
        kept(rs.drop_last(), keep.drop_last())
    }
}

/// The records of `rs` ordered by field `f`; records with equal fields keep
/// their list order.
pub open spec fn by_field<F: RecordLayout>(rs: Seq<Seq<u8>>, f: F) -> Seq<Seq<u8>> {
    let pos = sorted_positions(field_keys(rs, f));
    Seq::new(pos.len(), |j: int| rs[pos[j] as int])
}

/// The records of `v` that the search `m` keeps on field `f`, in order.
fn collect_refs<'a, F: RecordLayout>(v: &Vec<&'a Record<F>>, f: F, m: &Matcher) -> (r: Vec<&'a Record<F>>)
    ensures
        views(r@) == matching(views(v@), f, m.spec_match()),
{
    let ghost vv = views(v@);
    let mut r: Vec<&Record<F>> = Vec::new();
    let mut i: usize = 0;
    while i < v.len()
        invariant
            0 <= i <= v@.len(),
            vv == views(v@),
            views(r@) == matching(vv.subrange(0, i as int), f, m.spec_match()),
        decreases v@.len() - i,
    {
        let rec = v[i];
        let ghost r0 = r@;
        assert(vv.subrange(0, i + 1).drop_last() =~= vv.subrange(0, i as int));
        assert(vv.subrange(0, i + 1).last() == rec@);
        if key_matches_exec(m, rec.get_field_bytes(f)) {
            r.push(rec);
            assert(views(r@) =~= views(r0).push(rec@));
        }
        i = i + 1;
    }
    assert(vv.subrange(0, i as int) =~= vv);
    r
}

/// The first of `v`, if there is one.
fn first_ref<'a, F: RecordLayout>(v: Vec<&'a Record<F>>) -> (r: Option<&'a Record<F>>)
    ensures
        match r {
            Some(x) => first_of(views(v@)) == Some(x@),
            None => first_of(views(v@)) is None,
        },
{
    if v.len() == 0 {
        None
    } else {
        Some(v[0])
    }
}

/// Position `i` holds the first record of `rs` whose field `f` the search `m`
/// keeps.
pub open spec fn first_match_at<F: RecordLayout>(rs: Seq<Seq<u8>>, f: F, m: KeyMatch, i: int) -> bool {
    &&& 0 <= i < rs.len()
    &&& key_matches(m, field_view(rs[i], F::spec_widths(), f.spec_index()))
    &&& forall|j: int| 0 <= j < i ==> !key_matches(m, field_view(#[trigger] rs[j], F::spec_widths(), f.spec_index()))
}


/// A search is the linear filter of the records by whether the search keeps
/// their field: what every search of `PositionalList` returns, whatever
/// calls came before, is this filter of the list as it then stands.
pub proof fn law_search_is_filter<F: RecordLayout>(rs: Seq<Seq<u8>>, f: F, m: KeyMatch)
    ensures
        matching(rs, f, m) == rs.filter(|r: Seq<u8>| key_matches(m, field_view(r, F::spec_widths(), f.spec_index()))),
    decreases rs.len(),
{
    reveal(Seq::filter);
    if rs.len() > 0 {
        law_search_is_filter(rs.drop_last(), f, m);
    }
}

/// `sort_by(fields)` rearranges the records stably into ascending order of
/// the listed fields: it takes every old position once, records with equal
/// fields keep their order, and neighbours compare as `compare_by_fields`
/// says they are in order.
pub proof fn law_sort_by_permutes_stably<F: RecordLayout>(rs: Seq<Seq<u8>>, fields: Seq<F>)
    requires
        rs.len() <= usize::MAX,
        forall|i: int| 0 <= i < rs.len() ==> (#[trigger] rs[i]).len() == record_len::<F>(),
    ensures
        ({
            let keys = keys_by(rs, fields);
            let pos = sorted_positions(keys);
            let out = Seq::new(rs.len(), |j: int| rs[pos[j] as int]);
            &&& pos.len() == rs.len()
            &&& forall|x: usize| #[trigger] pos.contains(x) <==> x < rs.len()
            &&& forall|a: int, b: int|
                0 <= a < b < rs.len() && #[trigger] keys[pos[a] as int] == #[trigger] keys[pos[b] as int] ==> pos[a] < pos[b]
            &&& forall|a: int, b: int| 0 <= a < b < rs.len() ==> fields_order(#[trigger] out[a], #[trigger] out[b], fields) <= 0
        }),
{
    let keys = keys_by(rs, fields);
    lemma_sorted_positions_sorts(keys);
    let pos = sorted_positions(keys);
    let out = Seq::new(rs.len(), |j: int| rs[pos[j] as int]);
    assert forall|a: int, b: int| 0 <= a < b < rs.len() && #[trigger] keys[pos[a] as int] == #[trigger] keys[pos[b] as int]
        implies pos[a] < pos[b] by {
        assert(pos_lt(keys, pos[a] as int, pos[b] as int));
        crate::order::lemma_lex_basics(keys[pos[a] as int], keys[pos[b] as int]);
    }
    assert forall|a: int, b: int| 0 <= a < b < rs.len() implies fields_order(#[trigger] out[a], #[trigger] out[b], fields) <= 0 by {
        assert(pos.contains(pos[a]));
        assert(pos.contains(pos[b]));
        assert(pos_lt(keys, pos[a] as int, pos[b] as int));
        crate::order::lemma_lex_basics(keys[pos[a] as int], keys[pos[b] as int]);
        lemma_fields_order_is_key_order(rs[pos[a] as int], rs[pos[b] as int], fields);
    }
}

/// `first_sorted_by(f)` gives the first record, in list order, whose field
/// `f` is least, and nothing only for an empty list.
pub proof fn law_first_sorted_is_first_least<F: RecordLayout>(rs: Seq<Seq<u8>>, f: F)
    requires
        rs.len() <= usize::MAX,
    ensures
        first_of(by_field(rs, f)) is None <==> rs.len() == 0,
        rs.len() > 0 ==> exists|m: int|
            0 <= m < rs.len() && first_of(by_field(rs, f)) == Some(rs[m]) && (forall|j: int|
                0 <= j < rs.len() ==> lex_order(
                    field_view(rs[m], F::spec_widths(), f.spec_index()),
                    field_view(#[trigger] rs[j], F::spec_widths(), f.spec_index()),
                ) <= 0) && (forall|j: int|
                0 <= j < m ==> lex_order(
                    field_view(rs[m], F::spec_widths(), f.spec_index()),
                    field_view(#[trigger] rs[j], F::spec_widths(), f.spec_index()),
                ) < 0),
{
    let keys = field_keys(rs, f);
    lemma_sorted_positions_sorts(keys);
    let pos = sorted_positions(keys);
    if rs.len() > 0 {
        assert(pos.contains(pos[0]));
        let m = pos[0] as int;
        assert forall|j: int| 0 <= j < rs.len() implies lex_order(
            field_view(rs[m], F::spec_widths(), f.spec_index()),
            field_view(#[trigger] rs[j], F::spec_widths(), f.spec_index()),
        ) <= 0 && (j < m ==> lex_order(
            field_view(rs[m], F::spec_widths(), f.spec_index()),
            field_view(rs[j], F::spec_widths(), f.spec_index()),
        ) < 0) by {
            crate::order::lemma_lex_basics(keys[m], keys[j]);
            if j != m {
                assert(pos.contains(j as usize));
                let b = choose|b: int| 0 <= b < pos.len() && pos[b] == j as usize;
                assert(b != 0);
                assert(pos_lt(keys, pos[0] as int, pos[b] as int));
            }
        }
        assert(by_field(rs, f)[0] == rs[m]);
    }
}


/// The positions of `rs` in order of field `f`: the index kept for `f`.
pub open spec fn field_order<F: RecordLayout>(rs: Seq<Seq<u8>>, f: F) -> Seq<usize> {
    sorted_positions(field_keys(rs, f))
}

/// The index of field `f` for `records`, built afresh.
fn field_positions<F: RecordLayout>(records: &Vec<Record<F>>, f: F) -> (r: Vec<usize>)
    ensures
        r@ == field_order(record_views(records@), f),
{
    let ghost rs = record_views(records@);
    let mut keys: Vec<Vec<u8>> = Vec::new();
    let mut k: usize = 0;
    while k < records.len()
        invariant
            0 <= k <= records@.len(),
            rs == record_views(records@),
            keys@.len() == k,
            forall|i: int| 0 <= i < k ==> keys@[i]@ == field_keys(rs, f)[i],
        decreases records@.len() - k,
    {
        let b = slice_to_vec(records[k].get_field_bytes(f));
        keys.push(b);
        k = k + 1;
    }
    assert(key_view(keys) =~= field_keys(rs, f));
    sort_positions(&keys)
}

/// `idx` without the entry `i`, which stands at `q` only, and with the
/// entries above `i` moved down by one.
fn index_without(idx: &Vec<usize>, i: usize, Ghost(q): Ghost<int>) -> (r: Vec<usize>)
    requires
        0 <= q < idx@.len(),
        idx@[q] == i,
        forall|j: int| 0 <= j < idx@.len() && j != q ==> #[trigger] idx@[j] != i,
    ensures
        r@ == Seq::new((idx@.len() - 1) as nat, |j: int| shift_down(i as int, idx@.remove(q)[j])),
{
    let ghost target = Seq::new((idx@.len() - 1) as nat, |j: int| shift_down(i as int, idx@.remove(q)[j]));
    let mut r: Vec<usize> = Vec::new();
    let mut j: usize = 0;
    while j < idx.len()
        invariant
            0 <= j <= idx@.len(),
            0 <= q < idx@.len(),
            idx@[q] == i,
            forall|a: int| 0 <= a < idx@.len() && a != q ==> #[trigger] idx@[a] != i,
            target == Seq::new((idx@.len() - 1) as nat, |a: int| shift_down(i as int, idx@.remove(q)[a])),
            r@ == target.subrange(0, if j <= q { j as int } else { j - 1 }),
        decreases idx@.len() - j,
    {
        let x = idx[j];
        if x != i {
            let y = if x > i { x - 1 } else { x };
            let ghost r0 = r@;
            r.push(y);
            proof {
                let a = if j < q { j as int } else { j - 1 };
                assert(idx@.remove(q)[a] == x);
                assert(r@ =~= target.subrange(0, a + 1));
            }
        }
        j = j + 1;
    }
    assert(target.subrange(0, idx@.len() - 1) =~= target);
    r
}

/// `idx` with its entries from `i` on moved up by one and `i` put in at `p`.
fn index_with(idx: &Vec<usize>, i: usize, p: usize) -> (r: Vec<usize>)
    requires
        p <= idx@.len(),
        forall|j: int| 0 <= j < idx@.len() ==> (#[trigger] idx@[j] as int) < usize::MAX,
    ensures
        r@ == Seq::new(idx@.len() as nat, |j: int| shift_up(i as int, idx@[j])).insert(p as int, i),
{
    let ghost up = Seq::new(idx@.len() as nat, |j: int| shift_up(i as int, idx@[j]));
    let ghost target = up.insert(p as int, i);
    let mut r: Vec<usize> = Vec::new();
    let mut j: usize = 0;
    while j < idx.len()
        invariant
            0 <= j <= idx@.len(),
            p <= idx@.len(),
            forall|a: int| 0 <= a < idx@.len() ==> (#[trigger] idx@[a] as int) < usize::MAX,
            up == Seq::new(idx@.len() as nat, |a: int| shift_up(i as int, idx@[a])),
            target == up.insert(p as int, i),
            r@ == target.subrange(0, if j <= p { j as int } else { j + 1 }),
        decreases idx@.len() - j,
    {
        if j == p {
            r.push(i);
            assert(target[p as int] == i);
            assert(r@ =~= target.subrange(0, j + 1));
        }
        let x = idx[j];
        let y = if x >= i { x + 1 } else { x };
        r.push(y);
        proof {
            if j < p {
                assert(target[j as int] == up[j as int]);
                assert(r@ =~= target.subrange(0, j + 1));
            } else {
                assert(target[j + 1] == up[j as int]);
                assert(r@ =~= target.subrange(0, j + 2));
            }
        }
        j = j + 1;
    }
    if j == p {
        r.push(i);
        assert(target[p as int] == i);
    }
    assert(r@ =~= target);
    r
}

/// Position `x` after a new position is put in at `i`.
fn shift_up_exec(i: usize, x: usize) -> (r: usize)
    requires
        x < usize::MAX,
    ensures
        r == shift_up(i as int, x),
{
    if x >= i {
        x + 1
    } else {
        x
    }
}

/// Whether the field `other` at position `slot` sorts before the field `key`
/// put in at position `i`: a smaller field, or an equal field before `i`.
fn sorts_before(other: &[u8], slot: usize, key: &[u8], i: usize) -> (b: bool)
    ensures
        b == (lex_order(other@, key@) < 0 || (other@ == key@ && slot < i)),
{
    proof {
        crate::order::lemma_lex_basics(other@, key@);
    }
    let c = lex_compare(other, key);
    c < 0 || (c == 0 && slot < i)
}

/// In a sorted order, once an entry sorts after `(k, i)`, so do all later ones.
proof fn lemma_after_stays_after(keys: Seq<Seq<u8>>, k: Seq<u8>, i: int, p: int)
    requires
        keys.len() <= usize::MAX,
        0 <= p < keys.len(),
        lex_order(keys[sorted_positions(keys)[p] as int], k) > 0 || (keys[sorted_positions(keys)[p] as int] == k
            && (sorted_positions(keys)[p] as int) >= i),
    ensures
        forall|j: int|
            p <= j < keys.len() ==> lex_order(keys[#[trigger] sorted_positions(keys)[j] as int], k) > 0 || (
            keys[sorted_positions(keys)[j] as int] == k && (sorted_positions(keys)[j] as int) >= i),
{
    lemma_sorted_positions_sorts(keys);
    let pos = sorted_positions(keys);
    assert forall|j: int| p <= j < keys.len() implies lex_order(keys[#[trigger] pos[j] as int], k) > 0 || (
        keys[pos[j] as int] == k && (pos[j] as int) >= i) by {
        if j > p {
            assert(pos.contains(pos[p]));
            assert(pos.contains(pos[j]));
            assert(pos_lt(keys, pos[p] as int, pos[j] as int));
            crate::order::lemma_lex_basics(keys[pos[p] as int], keys[pos[j] as int]);
            crate::order::lemma_lex_basics(keys[pos[p] as int], k);
            crate::order::lemma_lex_basics(keys[pos[j] as int], k);
            crate::order::lemma_lex_basics(k, keys[pos[p] as int]);
            if lex_order(keys[pos[p] as int], k) > 0 {
                crate::order::lemma_lex_transitive(k, keys[pos[p] as int], keys[pos[j] as int]);
            } else if lex_order(keys[pos[p] as int], keys[pos[j] as int]) < 0 {
                crate::order::lemma_lex_transitive(k, keys[pos[p] as int], keys[pos[j] as int]);
            }
        }
    }
}

/// A list of records addressed by their current position.
///
/// Inserting or removing a record shifts the positions of the records after
/// it. Searches give their results in list order.
///
/// For each field the list keeps an index: the positions in the order of
/// that field, positions with equal fields in list order. `push`, `insert`,
/// `update`, `remove` and `pop` move the entries they affect and shift the
/// others; the operations that touch many records build the indexes afresh.
/// The index is a sorted vector of positions rather than a map from field
/// values: fields of different widths are different types, which code generic
/// over the record layout cannot name, and a map keyed by them would rest on
/// an ordering the proofs cannot see.
pub struct PositionalList<F: RecordLayout> {
    records: Vec<Record<F>>,
    indexes: Vec<Vec<usize>>,
}

impl<F: RecordLayout> View for PositionalList<F> {
    type V = Seq<Seq<u8>>;

    /// The bytes of the records, in list order.
    closed spec fn view(&self) -> Seq<Seq<u8>> {
        record_views(self.records@)
    }
}

impl<F: RecordLayout> PositionalList<F> {
    /// The records, in list order.
    pub closed spec fn records(&self) -> Seq<Record<F>> {
        self.records@
    }

    /// The index kept for field `f`: positions, in the order of that field.
    pub closed spec fn field_index(&self, f: F) -> Seq<usize> {
        self.indexes@[f.spec_index()]@
    }

    /// The list's invariant: one index for each field, in declaration order,
    /// each listing the positions in the order of its field, positions with
    /// equal fields in list order.
    pub closed spec fn wf(&self) -> bool {
        &&& self.indexes@.len() == F::spec_fields().len()
        &&& forall|k: int|
            0 <= k < self.indexes@.len() ==> #[trigger] self.indexes@[k]@ == field_order(
                self@,
                F::spec_fields()[k],
            )
    }

    /// The index of every field lists the positions in the order of that
    /// field.
    pub proof fn lemma_field_index(&self, f: F)
        requires
            self.wf(),
        ensures
            self.field_index(f) == field_order(self@, f),
    {
        F::lemma_layout();
        assert(F::spec_fields()[f.spec_index()].spec_index() == f.spec_index());
    }

    /// Builds the index of every field afresh.
    fn rebuild(&mut self)
        ensures
            final(self).records() == old(self).records(),
            final(self).wf(),
    {
        proof {
            F::lemma_layout();
        }
        let fields = F::all_fields();
        let mut idx: Vec<Vec<usize>> = Vec::new();
        let mut k: usize = 0;
        while k < fields.len()
            invariant
                0 <= k <= fields@.len(),
                fields@ == F::spec_fields(),
                idx@.len() == k,
                forall|q: int| 0 <= q < k ==> #[trigger] idx@[q]@ == field_order(self@, F::spec_fields()[q]),
            decreases fields@.len() - k,
        {
            let v = field_positions(&self.records, fields[k]);
            idx.push(v);
            k = k + 1;
        }
        self.indexes = idx;
    }

    /// Takes position `i` out of every index, which described `rs`, and moves
    /// the later positions down: the indexes then describe `rs` without
    /// record `i`.
    fn unindex(&mut self, i: usize, Ghost(rs): Ghost<Seq<Seq<u8>>>)
        requires
            i < rs.len(),
            rs.len() <= usize::MAX,
            old(self).indexes@.len() == F::spec_fields().len(),
            forall|k: int|
                0 <= k < old(self).indexes@.len() ==> #[trigger] old(self).indexes@[k]@ == field_order(
                    rs,
                    F::spec_fields()[k],
                ),
        ensures
            final(self).records() == old(self).records(),
            final(self).indexes@.len() == F::spec_fields().len(),
            forall|k: int|
                0 <= k < final(self).indexes@.len() ==> #[trigger] final(self).indexes@[k]@ == field_order(
                    rs.remove(i as int),
                    F::spec_fields()[k],
                ),
    {
        let n = self.indexes.len();
        let mut out: Vec<Vec<usize>> = Vec::new();
        let mut k: usize = 0;
        while k < n
            invariant
                0 <= k <= n,
                n == self.indexes@.len(),
                n == F::spec_fields().len(),
                i < rs.len(),
                rs.len() <= usize::MAX,
                self.records() == old(self).records(),
                forall|q: int| 0 <= q < n ==> #[trigger] self.indexes@[q]@ == field_order(rs, F::spec_fields()[q]),
                out@.len() == k,
                forall|q: int| 0 <= q < k ==> #[trigger] out@[q]@ == field_order(rs.remove(i as int), F::spec_fields()[q]),
            decreases n - k,
        {
            let ghost f = F::spec_fields()[k as int];
            let ghost keys = field_keys(rs, f);
            let ghost pos = self.indexes@[k as int]@;
            proof {
                assert(pos == sorted_positions(keys));
                lemma_sorted_positions_sorts(keys);
                lemma_sorted_positions_distinct(keys);
                assert(pos.contains(i));
            }
            let ghost q = choose|q: int| 0 <= q < pos.len() && pos[q] == i;
            let v = index_without(&self.indexes[k], i, Ghost(q));
            proof {
                lemma_sorted_positions_remove(keys, i as int, q);
                assert(field_keys(rs.remove(i as int), f) =~= keys.remove(i as int));
            }
            out.push(v);
            k = k + 1;
        }
        self.indexes = out;
    }

    /// Puts position `i`, where a record was just put in, into every index,
    /// which described `rs` (the list without that record), moving the
    /// positions from `i` on up.
    fn index_new(&mut self, i: usize, Ghost(rs): Ghost<Seq<Seq<u8>>>)
        requires
            i <= rs.len(),
            rs.len() < usize::MAX,
            old(self)@ == rs.insert(i as int, old(self)@[i as int]),
            old(self).indexes@.len() == F::spec_fields().len(),
            forall|k: int|
                0 <= k < old(self).indexes@.len() ==> #[trigger] old(self).indexes@[k]@ == field_order(
                    rs,
                    F::spec_fields()[k],
                ),
        ensures
            final(self).records() == old(self).records(),
            final(self).wf(),
    {
        proof {
            F::lemma_layout();
            assert(self@.len() == rs.len() + 1);
        }
        let fields = F::all_fields();
        let n = self.indexes.len();
        let mut out: Vec<Vec<usize>> = Vec::new();
        let mut k: usize = 0;
        while k < n
            invariant
                0 <= k <= n,
                n == self.indexes@.len(),
                n == F::spec_fields().len(),
                fields@ == F::spec_fields(),
                i <= rs.len(),
                rs.len() < usize::MAX,
                self@ == rs.insert(i as int, self@[i as int]),
                self.records@.len() == rs.len() + 1,
                self.records() == old(self).records(),
                forall|q: int| 0 <= q < n ==> #[trigger] self.indexes@[q]@ == field_order(rs, F::spec_fields()[q]),
                out@.len() == k,
                forall|q: int| 0 <= q < k ==> #[trigger] out@[q]@ == field_order(self@, F::spec_fields()[q]),
            decreases n - k,
        {
            let f = fields[k];
            let ghost keys = field_keys(rs, f);
            let ghost pos = self.indexes@[k as int]@;
            let key = self.records[i].get_field_bytes(f);
            proof {
                assert(pos == sorted_positions(keys));
                lemma_sorted_positions_sorts(keys);
                lemma_sorted_positions_distinct(keys);
                assert(self@[i as int] == self.records@[i as int]@);
                rs.insert_ensures(i as int, self@[i as int]);
            }
            let mut p: usize = 0;
            while p < self.indexes[k].len() && sorts_before(
                self.records[shift_up_exec(i, self.indexes[k][p])].get_field_bytes(f),
                self.indexes[k][p],
                key,
                i,
            )
                invariant
                    0 <= p <= pos.len(),
                    k < self.indexes@.len(),
                    pos == self.indexes@[k as int]@,
                    pos == sorted_positions(keys),
                    keys == field_keys(rs, f),
                    pos.len() == rs.len(),
                    forall|j: int| 0 <= j < pos.len() ==> (#[trigger] pos[j] as int) < rs.len(),
                    i <= rs.len(),
                    rs.len() < usize::MAX,
                    self@ == rs.insert(i as int, self@[i as int]),
                    self.records@.len() == rs.len() + 1,
                    forall|x: int| 0 <= x < rs.len() ==> #[trigger] rs[x] == self@[shift_up(i as int, x as usize) as int],
                    key@ == field_view(self@[i as int], F::spec_widths(), f.spec_index()),
                    forall|j: int|
                        0 <= j < p ==> lex_order(keys[#[trigger] pos[j] as int], key@) < 0 || (keys[pos[j] as int]
                            == key@ && (pos[j] as int) < i),
                decreases pos.len() - p,
            {
                proof {
                    let x = pos[p as int] as int;
                    assert(rs[x] == self@[shift_up(i as int, x as usize) as int]);
                    assert(self@[shift_up(i as int, x as usize) as int] == self.records@[shift_up(i as int, x as usize) as int]@);
                }
                p = p + 1;
            }
            proof {
                if p < pos.len() {
                    let x = pos[p as int] as int;
                    assert(rs[x] == self@[shift_up(i as int, x as usize) as int]);
                    assert(self@[shift_up(i as int, x as usize) as int] == self.records@[shift_up(i as int, x as usize) as int]@);
                    assert(keys[x] == field_view(rs[x], F::spec_widths(), f.spec_index()));
                    crate::order::lemma_lex_basics(keys[x], key@);
                    lemma_after_stays_after(keys, key@, i as int, p as int);
                }
                lemma_sorted_positions_insert(keys, i as int, key@, p as int);
                assert(field_keys(self@, f) =~= keys.insert(i as int, key@));
            }
            let v = index_with(&self.indexes[k], i, p);
            out.push(v);
            k = k + 1;
        }
        self.indexes = out;
    }

    /// The bytes are those of the records.
    pub proof fn lemma_view(&self)
        ensures
            self@ == record_views(self.records()),
            self@.len() == self.records().len(),
    {
    }

    /// An empty list.
    pub fn new() -> (l: Self)
        ensures
            l@ == Seq::<Seq<u8>>::empty(),
            l.wf(),
    {
        let mut l = PositionalList { records: Vec::new(), indexes: Vec::new() };
        assert(l@ =~= Seq::<Seq<u8>>::empty());
        l.rebuild();
        l
    }

    /// A list of `records`, in their order.
    pub fn from_records(records: Vec<Record<F>>) -> (l: Self)
        ensures
            l.records() == records@,
            l@ == record_views(records@),
            l.wf(),
    {
        let mut l = PositionalList { records, indexes: Vec::new() };
        l.rebuild();
        l
    }

    /// The number of records.
    pub fn len(&self) -> (n: usize)
        ensures
            n == self@.len(),
    {
        self.records.len()
    }

    /// Whether the list holds no record.
    pub fn is_empty(&self) -> (b: bool)
        ensures
            b == (self@.len() == 0),
    {
        self.records.len() == 0
    }

    /// Removes every record.
    pub fn clear(&mut self)
        ensures
            final(self)@ == Seq::<Seq<u8>>::empty(),
            final(self).wf(),
    {
        self.records = Vec::new();
        assert(self@ =~= Seq::<Seq<u8>>::empty());
        self.rebuild();
    }

    /// Appends `record` and returns its position.
    pub fn push(&mut self, record: Record<F>) -> (id: usize)
        requires
            old(self).wf(),
        ensures
            id == old(self)@.len(),
            final(self)@ == old(self)@.push(record@),
            final(self).records() == old(self).records().push(record),
            final(self).wf(),
    {
        let id = self.records.len();
        self.records.push(record);
        let _ = self.records.len();
        assert(self@ =~= old(self)@.push(record@));
        assert(self@ =~= old(self)@.insert(id as int, self@[id as int]));
        self.index_new(id, Ghost(old(self)@));
        id
    }

    /// Inserts `record` at position `index`, shifting the records from there
    /// on; `false`, with nothing changed, when `index` lies past the end.
    pub fn insert(&mut self, index: usize, record: Record<F>) -> (b: bool)
        requires
            old(self).wf(),
        ensures
            final(self).wf(),
            b == (index <= old(self)@.len()),
            b ==> final(self)@ == old(self)@.insert(index as int, record@),
            b ==> final(self).records() == old(self).records().insert(index as int, record),
            !b ==> final(self).records() == old(self).records(),
            !b ==> final(self)@ == old(self)@,
    {
        if index > self.records.len() {
            return false;
        }
        self.records.insert(index, record);
        let _ = self.records.len();
        assert(self@ =~= old(self)@.insert(index as int, record@));
        self.index_new(index, Ghost(old(self)@));
        true
    }

    /// The record at position `id`.
    pub fn get(&self, id: usize) -> (r: Option<&Record<F>>)
        ensures
            r is Some == (id < self@.len()),
            r matches Some(x) ==> x@ == self@[id as int] && *x == self.records()[id as int],
    {
        if id < self.records.len() {
            Some(&self.records[id])
        } else {
            None
        }
    }

    /// Replaces the record at position `id`; `false`, with nothing changed,
    /// when there is none.
    pub fn update(&mut self, id: usize, record: Record<F>) -> (b: bool)
        requires
            old(self).wf(),
        ensures
            final(self).wf(),
            b == (id < old(self)@.len()),
            b ==> final(self)@ == old(self)@.update(id as int, record@),
            b ==> final(self).records() == old(self).records().update(id as int, record),
            !b ==> final(self).records() == old(self).records(),
            !b ==> final(self)@ == old(self)@,
    {
        if id >= self.records.len() {
            return false;
        }
        self.records.set(id, record);
        assert(self@ =~= old(self)@.update(id as int, record@));
        self.unindex(id, Ghost(old(self)@));
        assert(self@ =~= old(self)@.remove(id as int).insert(id as int, self@[id as int]));
        self.index_new(id, Ghost(old(self)@.remove(id as int)));
        true
    }

    /// Removes the record at position `id`, shifting the records after it;
    /// `false`, with nothing changed, when there is none.
    pub fn remove(&mut self, id: usize) -> (b: bool)
        requires
            old(self).wf(),
        ensures
            final(self).wf(),
            b == (id < old(self)@.len()),
            b ==> final(self)@ == old(self)@.remove(id as int),
            b ==> final(self).records() == old(self).records().remove(id as int),
            !b ==> final(self).records() == old(self).records(),
            !b ==> final(self)@ == old(self)@,
    {
        if id >= self.records.len() {
            return false;
        }
        let _ = self.records.remove(id);
        assert(self@ =~= old(self)@.remove(id as int));
        self.unindex(id, Ghost(old(self)@));
        true
    }

    /// Removes and returns the last record.
    pub fn pop(&mut self) -> (r: Option<Record<F>>)
        requires
            old(self).wf(),
        ensures
            final(self).wf(),
            old(self)@.len() == 0 ==> r is None && final(self)@ == old(self)@,
            old(self)@.len() > 0 ==> r == Some(old(self).records().last())
                && final(self).records() == old(self).records().drop_last()
                && final(self)@ == old(self)@.drop_last(),
    {
        let n = self.records.len();
        let r = self.records.pop();
        assert(self@ =~= if old(self)@.len() == 0 { old(self)@ } else { old(self)@.drop_last() });
        if n > 0 {
            assert(old(self)@.remove(n - 1) =~= old(self)@.drop_last());
            self.unindex(n - 1, Ghost(old(self)@));
        }
        r
    }

    /// The records, in list order.
    pub fn iter(&self) -> (r: Vec<&Record<F>>)
        ensures
            views(r@) == self@,
    {
        let mut r: Vec<&Record<F>> = Vec::new();
        let mut i: usize = 0;
        while i < self.records.len()
            invariant
                0 <= i <= self.records@.len(),
                views(r@) == self@.subrange(0, i as int),
            decreases self.records@.len() - i,
        {
            let ghost r0 = r@;
            r.push(&self.records[i]);
            assert(views(r@) =~= views(r0).push(self@[i as int]));
            assert(self@.subrange(0, i + 1) =~= self@.subrange(0, i as int).push(self@[i as int]));
            i = i + 1;
        }
        assert(self@.subrange(0, i as int) =~= self@);
        r
    }

    /// The first record.
    pub fn first(&self) -> (r: Option<&Record<F>>)
        ensures
            r is Some == (self@.len() > 0),
            r matches Some(x) ==> x@ == self@[0],
    {
        self.get(0)
    }

    /// Every position, in order.
    pub fn all_ids(&self) -> (r: Vec<usize>)
        ensures
            r@.len() == self@.len(),
            forall|i: int| 0 <= i < r@.len() ==> r@[i] == i,
    {
        let mut r: Vec<usize> = Vec::new();
        let mut i: usize = 0;
        while i < self.records.len()
            invariant
                0 <= i <= self.records@.len(),
                r@.len() == i,
                forall|k: int| 0 <= k < i ==> r@[k] == k,
            decreases self.records@.len() - i,
        {
            r.push(i);
            i = i + 1;
        }
        r
    }

    /// The records the search `m` keeps on field `f`, in list order.
    fn collect(&self, f: F, m: &Matcher) -> (r: Vec<&Record<F>>)
        ensures
            views(r@) == matching(self@, f, m.spec_match()),
    {
        let mut r: Vec<&Record<F>> = Vec::new();
        let mut i: usize = 0;
        while i < self.records.len()
            invariant
                0 <= i <= self.records@.len(),
                views(r@) == matching(self@.subrange(0, i as int), f, m.spec_match()),
            decreases self.records@.len() - i,
        {
            let rec = &self.records[i];
            let ghost r0 = r@;
            assert(self@.subrange(0, i + 1).drop_last() =~= self@.subrange(0, i as int));
            assert(self@.subrange(0, i + 1).last() == rec@);
            if key_matches_exec(m, rec.get_field_bytes(f)) {
                r.push(rec);
                assert(views(r@) =~= views(r0).push(rec@));
            }
            i = i + 1;
        }
        assert(self@.subrange(0, i as int) =~= self@);
        r
    }

    /// The `FieldOverflow` error for a value wider than `field`.
    fn overflow(field: F, actual: usize) -> (e: Error)
        ensures
            e == (Error::FieldOverflow { field: field.spec_name(), size: width_of(field) as usize, actual }),
    {
        Error::FieldOverflow { field: field.name(), size: Record::<F>::size_of(field), actual }
    }

    /// The records whose field `field` equals `value`, in list order.
    /// `TooShort` when `value` is narrower than the field, `FieldOverflow`
    /// when it is wider.
    pub fn try_find_by(&self, field: F, value: &[u8]) -> (r: Result<Vec<&Record<F>>, Error>)
        ensures
            value@.len() < width_of(field) ==> r == Err::<Vec<&Record<F>>, Error>(Error::TooShort),
            value@.len() > width_of(field) ==> r == Err::<Vec<&Record<F>>, Error>(
                Error::FieldOverflow { field: field.spec_name(), size: width_of(field) as usize, actual: value@.len() as usize },
            ),
            value@.len() == width_of(field) ==> r is Ok && views(r->Ok_0@) == matching(
                self@,
                field,
                KeyMatch::Exact(value@),
            ),
    {
        let w = Record::<F>::size_of(field);
        if value.len() < w {
            return Err(Error::TooShort);
        }
        if value.len() > w {
            return Err(Self::overflow(field, value.len()));
        }
        Ok(self.collect(field, &Matcher::Exact(value)))
    }

    /// The records whose field `field` starts with `value` and continues with
    /// `0x00` or space bytes only, in list order. `FieldOverflow` when
    /// `value` is wider than the field.
    pub fn try_find_by_padded(&self, field: F, value: &[u8]) -> (r: Result<Vec<&Record<F>>, Error>)
        ensures
            value@.len() > width_of(field) ==> r == Err::<Vec<&Record<F>>, Error>(
                Error::FieldOverflow { field: field.spec_name(), size: width_of(field) as usize, actual: value@.len() as usize },
            ),
            value@.len() <= width_of(field) ==> r is Ok && views(r->Ok_0@) == matching(
                self@,
                field,
                KeyMatch::Padded(value@),
            ),
    {
        if value.len() > Record::<F>::size_of(field) {
            return Err(Self::overflow(field, value.len()));
        }
        Ok(self.collect(field, &Matcher::Padded(value)))
    }

    /// The records whose field `field` starts with `value`, in list order.
    /// `FieldOverflow` when `value` is wider than the field.
    pub fn try_find_by_prefix(&self, field: F, value: &[u8]) -> (r: Result<Vec<&Record<F>>, Error>)
        ensures
            value@.len() > width_of(field) ==> r == Err::<Vec<&Record<F>>, Error>(
                Error::FieldOverflow { field: field.spec_name(), size: width_of(field) as usize, actual: value@.len() as usize },
            ),
            value@.len() <= width_of(field) ==> r is Ok && views(r->Ok_0@) == matching(
                self@,
                field,
                KeyMatch::Prefix(value@),
            ),
    {
        if value.len() > Record::<F>::size_of(field) {
            return Err(Self::overflow(field, value.len()));
        }
        Ok(self.collect(field, &Matcher::Prefix(value)))
    }

    /// Passes each record that the search `m` keeps on field `f` through
    /// `edit`, in list order, and counts them.
    fn edit_matching<G: Fn(&mut Record<F>)>(&mut self, f: F, m: &Matcher, edit: G) -> (n: usize)
        requires
            forall|x: &mut Record<F>| #[trigger] edit.requires((x,)),
        ensures
            final(self).wf(),
            n == match_count(old(self)@, f, m.spec_match()),
            final(self).records().len() == old(self).records().len(),
            forall|i: int|
                0 <= i < old(self).records().len() ==> if key_matches(
                    m.spec_match(),
                    #[trigger] old(self).records()[i].field(f),
                ) {
                    exists|x: &mut Record<F>|
                        *x == old(self).records()[i] && *final(x) == final(self).records()[i] && edit.ensures((x,), ())
                } else {
                    final(self).records()[i] == old(self).records()[i]
                },
    {
        let ghost before = self.records@;
        let ghost bv = self@;
        let mut n: usize = 0;
        let mut i: usize = 0;
        while i < self.records.len()
            invariant
                0 <= i <= self.records@.len(),
                self.records@.len() == before.len(),
                bv == record_views(before),
                forall|x: &mut Record<F>| #[trigger] edit.requires((x,)),
                n == matching(bv.subrange(0, i as int), f, m.spec_match()).len(),
                n <= i,
                forall|k: int| i <= k < before.len() ==> self.records@[k] == before[k],
                forall|k: int|
                    0 <= k < i ==> if key_matches(m.spec_match(), #[trigger] before[k].field(f)) {
                        exists|x: &mut Record<F>|
                            *x == before[k] && *final(x) == self.records@[k] && edit.ensures((x,), ())
                    } else {
                        self.records@[k] == before[k]
                    },
            decreases self.records@.len() - i,
        {
            assert(bv.subrange(0, i + 1).drop_last() =~= bv.subrange(0, i as int));
            assert(bv.subrange(0, i + 1).last() == before[i as int]@);
            let hit = key_matches_exec(m, self.records[i].get_field_bytes(f));
            if hit {
                edit(&mut self.records[i]);
                n = n + 1;
            }
            i = i + 1;
        }
        assert(bv.subrange(0, i as int) =~= bv);
        self.rebuild();
        n
    }

    /// Passes every record whose field `field` equals `value` through `edit`,
    /// in list order, and counts them. `TooShort` or `FieldOverflow`, with
    /// nothing changed, when `value` is narrower or wider than the field.
    pub fn try_edit_by<G: Fn(&mut Record<F>)>(&mut self, field: F, value: &[u8], edit: G) -> (r: Result<usize, Error>)
        requires
            old(self).wf(),
            forall|x: &mut Record<F>| #[trigger] edit.requires((x,)),
        ensures
            final(self).wf(),
            value@.len() < width_of(field) ==> r == Err::<usize, Error>(Error::TooShort)
                && final(self).records() == old(self).records(),
            value@.len() > width_of(field) ==> r == Err::<usize, Error>(
                Error::FieldOverflow { field: field.spec_name(), size: width_of(field) as usize, actual: value@.len() as usize },
            ) && final(self).records() == old(self).records(),
            value@.len() == width_of(field) ==> r == Ok::<usize, Error>(match_count(old(self)@, field, KeyMatch::Exact(value@)) as usize),
            value@.len() == width_of(field) ==> final(self).records().len() == old(self).records().len(),
            value@.len() == width_of(field) ==> forall|i: int|
                0 <= i < old(self).records().len() ==> if key_matches(
                    KeyMatch::Exact(value@),
                    #[trigger] old(self).records()[i].field(field),
                ) {
                    exists|x: &mut Record<F>|
                        *x == old(self).records()[i] && *final(x) == final(self).records()[i] && edit.ensures((x,), ())
                } else {
                    final(self).records()[i] == old(self).records()[i]
                },
    {
        if value.len() < Record::<F>::size_of(field) {
            return Err(Error::TooShort);
        }
        if value.len() > Record::<F>::size_of(field) {
            return Err(Self::overflow(field, value.len()));
        }
        Ok(self.edit_matching(field, &Matcher::Exact(value), edit))
    }

    /// Passes every record whose field `field` starts with `value` followed
    /// only by `0x00` or space bytes through `edit`, in list order, and counts
    /// them. `FieldOverflow`, with nothing changed, when `value` is wider than
    /// the field.
    pub fn try_edit_by_padded<G: Fn(&mut Record<F>)>(&mut self, field: F, value: &[u8], edit: G) -> (r: Result<usize, Error>)
        requires
            old(self).wf(),
            forall|x: &mut Record<F>| #[trigger] edit.requires((x,)),
        ensures
            final(self).wf(),
            value@.len() > width_of(field) ==> r == Err::<usize, Error>(
                Error::FieldOverflow { field: field.spec_name(), size: width_of(field) as usize, actual: value@.len() as usize },
            ) && final(self).records() == old(self).records(),
            value@.len() <= width_of(field) ==> r == Ok::<usize, Error>(match_count(old(self)@, field, KeyMatch::Padded(value@)) as usize),
            value@.len() <= width_of(field) ==> final(self).records().len() == old(self).records().len(),
            value@.len() <= width_of(field) ==> forall|i: int|
                0 <= i < old(self).records().len() ==> if key_matches(
                    KeyMatch::Padded(value@),
                    #[trigger] old(self).records()[i].field(field),
                ) {
                    exists|x: &mut Record<F>|
                        *x == old(self).records()[i] && *final(x) == final(self).records()[i] && edit.ensures((x,), ())
                } else {
                    final(self).records()[i] == old(self).records()[i]
                },
    {
        if value.len() > Record::<F>::size_of(field) {
            return Err(Self::overflow(field, value.len()));
        }
        Ok(self.edit_matching(field, &Matcher::Padded(value), edit))
    }

    /// Passes every record whose field `field` starts with `value` through
    /// `edit`, in list order, and counts them. `FieldOverflow`, with nothing
    /// changed, when `value` is wider than the field.
    pub fn try_edit_by_prefix<G: Fn(&mut Record<F>)>(&mut self, field: F, value: &[u8], edit: G) -> (r: Result<usize, Error>)
        requires
            old(self).wf(),
            forall|x: &mut Record<F>| #[trigger] edit.requires((x,)),
        ensures
            final(self).wf(),
            value@.len() > width_of(field) ==> r == Err::<usize, Error>(
                Error::FieldOverflow { field: field.spec_name(), size: width_of(field) as usize, actual: value@.len() as usize },
            ) && final(self).records() == old(self).records(),
            value@.len() <= width_of(field) ==> r == Ok::<usize, Error>(match_count(old(self)@, field, KeyMatch::Prefix(value@)) as usize),
            value@.len() <= width_of(field) ==> final(self).records().len() == old(self).records().len(),
            value@.len() <= width_of(field) ==> forall|i: int|
                0 <= i < old(self).records().len() ==> if key_matches(
                    KeyMatch::Prefix(value@),
                    #[trigger] old(self).records()[i].field(field),
                ) {
                    exists|x: &mut Record<F>|
                        *x == old(self).records()[i] && *final(x) == final(self).records()[i] && edit.ensures((x,), ())
                } else {
                    final(self).records()[i] == old(self).records()[i]
                },
    {
        if value.len() > Record::<F>::size_of(field) {
            return Err(Self::overflow(field, value.len()));
        }
        Ok(self.edit_matching(field, &Matcher::Prefix(value), edit))
    }

    /// Passes every record through `edit`, in list order.
    pub fn for_each_mut<G: Fn(&mut Record<F>)>(&mut self, edit: G)
        requires
            forall|x: &mut Record<F>| #[trigger] edit.requires((x,)),
        ensures
            final(self).wf(),
            final(self).records().len() == old(self).records().len(),
            forall|i: int|
                #![trigger old(self).records()[i]]
                0 <= i < old(self).records().len() ==> exists|x: &mut Record<F>|
                    *x == old(self).records()[i] && *final(x) == final(self).records()[i] && edit.ensures((x,), ()),
    {
        proof {
            F::lemma_layout();
        }
        let fields = F::all_fields();
        let f0 = fields[0];
        let ghost before = self.records@;
        let _ = self.edit_matching(f0, &Matcher::All, edit);
        assert forall|i: int| #![trigger before[i]] 0 <= i < before.len() implies exists|x: &mut Record<F>|
            *x == before[i] && *final(x) == self.records@[i] && edit.ensures((x,), ()) by {
            assert(key_matches(KeyMatch::All, before[i].field(f0)));
        }
    }

    /// Keeps the records for which `keep` answers `true`, in order.
    pub fn retain<G: Fn(&Record<F>) -> bool>(&mut self, keep: G)
        requires
            forall|x: &Record<F>| #[trigger] keep.requires((x,)),
        ensures
            final(self).wf(),
            exists|answers: Seq<bool>|
                {
                    &&& answers.len() == old(self).records().len()
                    &&& forall|i: int|
                        0 <= i < answers.len() ==> keep.ensures((&old(self).records()[i],), #[trigger] answers[i])
                    &&& final(self).records() == kept(old(self).records(), answers)
                },
    {
        let ghost before = self.records@;
        let mut out: Vec<Record<F>> = Vec::new();
        let mut rest: Vec<Record<F>> = Vec::new();
        std::mem::swap(&mut rest, &mut self.records);
        let mut back: Vec<Record<F>> = Vec::new();
        while rest.len() > 0
            invariant
                before.len() == rest@.len() + back@.len(),
                forall|k: int| 0 <= k < rest@.len() ==> rest@[k] == before[k],
                forall|k: int| 0 <= k < back@.len() ==> back@[k] == before[before.len() - 1 - k],
            decreases rest@.len(),
        {
            let x = rest.pop().unwrap();
            back.push(x);
        }
        let ghost mut answers: Seq<bool> = Seq::empty();
        while back.len() > 0
            invariant
                forall|x: &Record<F>| #[trigger] keep.requires((x,)),
                before.len() == answers.len() + back@.len(),
                forall|k: int| 0 <= k < back@.len() ==> back@[k] == before[before.len() - 1 - k],
                forall|i: int| 0 <= i < answers.len() ==> keep.ensures((&before[i],), #[trigger] answers[i]),
                out@ == kept(before.subrange(0, answers.len() as int), answers),
            decreases back@.len(),
        {
            let x = back.pop().unwrap();
            let ghost i = answers.len() as int;
            let ghost a0 = answers;
            let ghost o0 = out@;
            assert(x == before[i]);
            let b = keep(&x);
            proof {
                answers = answers.push(b);
                assert(before.subrange(0, i + 1).drop_last() =~= before.subrange(0, i));
                assert(answers.drop_last() =~= a0);
                assert(before.subrange(0, i + 1).last() == before[i]);
            }
            if b {
                out.push(x);
            }
            proof {
                assert(o0 == kept(before.subrange(0, i), a0));
                assert(kept(before.subrange(0, i + 1), answers) == if b {
                    kept(before.subrange(0, i), a0).push(before[i])
                } else {
                    kept(before.subrange(0, i), a0)
                });
            }
        }
        assert(before.subrange(0, answers.len() as int) =~= before);
        self.records = out;
        self.rebuild();
    }

    /// The records `reader` reads, in order, until its source ends; the
    /// first error it reports instead, with no list.
    pub fn read_from(source: Reader<Record<F>>) -> (r: Result<Self, Error>)
        ensures
            ({
                let data = source.source();
                let n = record_len::<F>();
                source.checked_fields().len() == 0 && !source.fails() && !source.is_lenient() ==> match read_records(
                    data,
                    source.position(),
                    source.separator(),
                    n,
                ) {
                    Some(rs) => r matches Ok(l) && l@ == rs,
                    None => r matches Err(Error::IncompleteRecord { expected, actual }) && expected == n
                        && actual < n,
                }
            }),
            match read_all::<Record<F>>(
                source.source(),
                source.position(),
                source.separator(),
                source.failure(),
                source.is_lenient(),
                source.checked_fields(),
                source.allows_equal(),
                source.previous_key(),
            ) {
                ReadOutcome::Records(rs) => r matches Ok(l) && l@ == rs,
                ReadOutcome::Incomplete(e, a) => r == Err::<Self, Error>(
                    Error::IncompleteRecord { expected: e as usize, actual: a as usize },
                ),
                ReadOutcome::Failed(k) => r == Err::<Self, Error>(Error::Io(k)),
                ReadOutcome::OutOfOrder(prev, cur) => r matches Err(Error::SequenceError { fields: names, previous, current })
                    && names@ == names_of::<Record<F>>(source.checked_fields()) && key_view(previous) == prev
                    && key_view(current) == cur,
            },
    {
        proof {
            F::lemma_layout();
            lemma_field_bounds(F::spec_widths(), 0);
            reveal_with_fuel(offset_of, 2);
        }
        let ghost n = record_len::<F>();
        let ghost data = source.source();
        let ghost sep = source.separator();
        let ghost simple = source.checked_fields().len() == 0 && !source.fails() && !source.is_lenient();
        let ghost start = source.position();
        let ghost failure = source.failure();
        let ghost lenient = source.is_lenient();
        let ghost fields = source.checked_fields();
        let ghost allow = source.allows_equal();
        let ghost total = read_all::<Record<F>>(data, start, sep, failure, lenient, fields, allow, source.previous_key());
        let _ = source.consumed();
        let mut reader = source;
        let mut out: Vec<Record<F>> = Vec::new();
        assert(record_views(out@) =~= Seq::<Seq<u8>>::empty());
        proof {
            if let ReadOutcome::Records(rs) = total {
                assert(Seq::<Seq<u8>>::empty() + rs =~= rs);
            }
        }
        loop
            invariant
                0 < n <= isize::MAX,
                n == record_len::<F>(),
                data == source.source(),
                sep == source.separator(),
                start == source.position(),
                simple == (source.checked_fields().len() == 0 && !source.fails() && !source.is_lenient()),
                data == reader.source(),
                sep == reader.separator(),
                0 <= reader.position() <= data.len(),
                simple == (reader.checked_fields().len() == 0 && !reader.fails() && !reader.is_lenient()),
                simple ==> read_records(data, start, sep, n) == match read_records(data, reader.position(), sep, n) {
                    Some(rest) => Some(record_views(out@) + rest),
                    None => None,
                },
                failure == reader.failure(),
                lenient == reader.is_lenient(),
                fields == reader.checked_fields(),
                allow == reader.allows_equal(),
                fields == source.checked_fields(),
                failure == source.failure(),
                lenient == source.is_lenient(),
                allow == source.allows_equal(),
                total == read_all::<Record<F>>(data, start, sep, failure, lenient, fields, allow, source.previous_key()),
                total == after_records(
                    record_views(out@),
                    read_all::<Record<F>>(data, reader.position(), sep, failure, lenient, fields, allow, reader.previous_key()),
                ),
            decreases data.len() - reader.position(),
        {
            let ghost p = reader.position();
            let ghost o0 = out@;
            let ghost prev = reader.previous_key();
            let ghost here = read_all::<Record<F>>(data, p, sep, failure, lenient, fields, allow, prev);
            proof {
                lemma_skip_end_ahead(data, p + n, sep);
                reader.lemma_fails();
                assert(<Record<F> as crate::traits::FixedRecord>::spec_total_len() == n);
            }
            match reader.next() {
                Some(Ok(rec)) => {
                    proof {
                        lemma_skip_end_ahead(data, p + n, sep);
                        assert(data.len() - p >= n);
                        assert(rec@ == data.subrange(p, p + n));
                    }
                    out.push(rec);
                    proof {
                        assert(record_views(out@) =~= record_views(o0).push(rec@));
                        let later = read_all::<Record<F>>(
                            data,
                            reader.position(),
                            sep,
                            failure,
                            lenient,
                            fields,
                            allow,
                            reader.previous_key(),
                        );
                        assert(here == after_records(seq![rec@], later));
                        lemma_after_records_twice(record_views(o0), seq![rec@], later);
                        assert(record_views(o0) + seq![rec@] =~= record_views(out@));
                        if simple {
                            let rest = read_records(data, reader.position(), sep, n);
                            if let Some(t) = rest {
                                assert(record_views(o0) + (seq![rec@] + t) =~= record_views(out@) + t);
                            }
                        }
                    }
                },
                Some(Err(e)) => {
                    proof {
                        if simple {
                            assert(data.len() - p < n);
                            assert(read_records(data, p, sep, n) is None);
                            assert(read_records(data, start, sep, n) is None);
                            assert(e matches Error::IncompleteRecord { expected, actual } && expected == n && actual < n);
                        }
                        assert(here !is Records);
                        assert(total == here);
                    }
                    return Err(e);
                },
                None => {
                    proof {
                        if simple {
                            assert(p >= data.len());
                            assert(read_records(data, reader.position(), sep, n) == Some(Seq::<Seq<u8>>::empty()));
                            assert(record_views(out@) + Seq::<Seq<u8>>::empty() =~= record_views(out@));
                            assert(read_records(data, start, sep, n) == Some(record_views(out@)));
                        }
                        assert(here == ReadOutcome::Records(Seq::<Seq<u8>>::empty()));
                        assert(record_views(out@) + Seq::<Seq<u8>>::empty() =~= record_views(out@));
                    }
                    return Ok(PositionalList::from_records(out));
                },
            }
        }
    }

    /// Puts record `pos[j]` at position `j`, for every `j`.
    fn rearrange(&mut self, pos: Vec<usize>)
        requires
            pos@.len() == old(self).records().len(),
            forall|j: int| 0 <= j < pos@.len() ==> (#[trigger] pos@[j] as int) < pos@.len(),
            forall|a: int, b: int| 0 <= a < b < pos@.len() ==> #[trigger] pos@[a] != #[trigger] pos@[b],
        ensures
            final(self).records() == Seq::new(pos@.len(), |j: int| old(self).records()[pos@[j] as int]),
    {
        let ghost before = self.records@;
        let n = pos.len();
        let mut rest: Vec<Record<F>> = Vec::new();
        std::mem::swap(&mut rest, &mut self.records);
        let mut back: Vec<Record<F>> = Vec::new();
        while rest.len() > 0
            invariant
                before.len() == rest@.len() + back@.len(),
                forall|k: int| 0 <= k < rest@.len() ==> rest@[k] == before[k],
                forall|k: int| 0 <= k < back@.len() ==> back@[k] == before[before.len() - 1 - k],
            decreases rest@.len(),
        {
            let x = rest.pop().unwrap();
            back.push(x);
        }
        let mut slots: Vec<Option<Record<F>>> = Vec::new();
        while back.len() > 0
            invariant
                before.len() == slots@.len() + back@.len(),
                forall|k: int| 0 <= k < back@.len() ==> back@[k] == before[before.len() - 1 - k],
                forall|k: int| 0 <= k < slots@.len() ==> slots@[k] == Some(before[k]),
            decreases back@.len(),
        {
            let x = back.pop().unwrap();
            slots.push(Some(x));
        }
        let mut out: Vec<Record<F>> = Vec::new();
        let mut j: usize = 0;
        while j < n
            invariant
                0 <= j <= n,
                n == pos@.len(),
                slots@.len() == n,
                forall|q: int| 0 <= q < pos@.len() ==> (#[trigger] pos@[q] as int) < pos@.len(),
                forall|a: int, b: int| 0 <= a < b < pos@.len() ==> #[trigger] pos@[a] != #[trigger] pos@[b],
                forall|a: int| j <= a < n ==> slots@[#[trigger] pos@[a] as int] == Some(before[pos@[a] as int]),
                out@.len() == j,
                forall|a: int| 0 <= a < j ==> out@[a] == before[#[trigger] pos@[a] as int],
            decreases n - j,
        {
            let p = pos[j];
            let mut taken: Option<Record<F>> = None;
            std::mem::swap(&mut taken, &mut slots[p]);
            assert(taken == Some(before[p as int]));
            assert forall|a: int| j + 1 <= a < n implies slots@[#[trigger] pos@[a] as int] == Some(
                before[pos@[a] as int],
            ) by {
                assert(pos@[a] != pos@[j as int]);
            }
            match taken {
                Some(x) => out.push(x),
                None => {},
            }
            j = j + 1;
        }
        self.records = out;
        assert(self.records@ =~= Seq::new(pos@.len(), |j: int| before[pos@[j] as int]));
    }

    /// Sorts the records by the listed fields, the first listed field first;
    /// records equal on them keep their relative order.
    pub fn sort_by(&mut self, fields: &[F])
        ensures
            final(self).wf(),
            ({
                let pos = sorted_positions(keys_by(old(self)@, fields@));
                final(self)@ == Seq::new(old(self)@.len(), |j: int| old(self)@[pos[j] as int])
            }),
    {
        let mut keys: Vec<Vec<u8>> = Vec::new();
        let mut k: usize = 0;
        while k < self.records.len()
            invariant
                0 <= k <= self.records@.len(),
                keys@.len() == k,
                forall|i: int| 0 <= i < k ==> keys@[i]@ == keys_by(self@, fields@)[i],
            decreases self.records@.len() - k,
        {
            let b = key_bytes(&self.records[k], fields);
            keys.push(b);
            k = k + 1;
        }
        assert(key_view(keys) =~= keys_by(self@, fields@));
        self.sort_on(keys);
    }

    /// Sorts the records by all their fields in declaration order, which is
    /// the order of their bytes; equal records keep their relative order.
    pub fn sort(&mut self)
        ensures
            final(self).wf(),
            ({
                let pos = sorted_positions(old(self)@);
                final(self)@ == Seq::new(old(self)@.len(), |j: int| old(self)@[pos[j] as int])
            }),
    {
        let mut keys: Vec<Vec<u8>> = Vec::new();
        let mut k: usize = 0;
        while k < self.records.len()
            invariant
                0 <= k <= self.records@.len(),
                keys@.len() == k,
                forall|i: int| 0 <= i < k ==> keys@[i]@ == self@[i],
            decreases self.records@.len() - k,
        {
            let b = slice_to_vec(self.records[k].as_bytes());
            keys.push(b);
            k = k + 1;
        }
        assert(key_view(keys) =~= self@);
        self.sort_on(keys);
    }

    /// Stably reorders the records by `keys`, one key per record.
    fn sort_on(&mut self, keys: Vec<Vec<u8>>)
        requires
            key_view(keys).len() == old(self)@.len(),
        ensures
            final(self).wf(),
            ({
                let pos = sorted_positions(key_view(keys));
                final(self)@ == Seq::new(old(self)@.len(), |j: int| old(self)@[pos[j] as int])
            }),
    {
        let ghost kv = key_view(keys);
        let pos = sort_positions(&keys);
        proof {
            assert forall|j: int| 0 <= j < pos@.len() implies (#[trigger] pos@[j] as int) < pos@.len() by {
                assert(pos@.contains(pos@[j]));
            }
            assert forall|a: int, b: int| 0 <= a < b < pos@.len() implies #[trigger] pos@[a] != #[trigger] pos@[b] by {
                lemma_pos_lt_order(kv, pos@[a] as int, pos@[a] as int, pos@[a] as int);
            }
        }
        let ghost before = self.records@;
        self.rearrange(pos);
        self.rebuild();
        assert(self@ =~= Seq::new(old(self)@.len(), |j: int| old(self)@[sorted_positions(kv)[j] as int]));
    }

    /// The records ordered by field `field`; records with equal fields keep
    /// their list order.
    pub fn iter_sorted_by(&self, field: F) -> (r: Vec<&Record<F>>)
        requires
            self.wf(),
        ensures
            views(r@) == by_field(self@, field),
    {
        let ghost kv = field_keys(self@, field);
        let n = self.records.len();
        proof {
            assert(kv.len() == n);
            F::lemma_layout();
            assert(F::spec_fields()[field.spec_index()].spec_index() == field.spec_index());
            assert(F::spec_fields()[field.spec_index()] == field);
            lemma_sorted_positions_sorts(kv);
        }
        let pos = &self.indexes[field.index()];
        assert(pos@ == sorted_positions(kv));
        let mut r: Vec<&Record<F>> = Vec::new();
        let mut j: usize = 0;
        while j < pos.len()
            invariant
                0 <= j <= pos@.len(),
                kv == field_keys(self@, field),
                pos@ == sorted_positions(kv),
                pos@.len() == self@.len(),
                forall|x: usize| #[trigger] pos@.contains(x) <==> x < self@.len(),
                r@.len() == j,
                forall|q: int| 0 <= q < j ==> (#[trigger] r@[q])@ == self@[pos@[q] as int],
            decreases pos@.len() - j,
        {
            assert(pos@.contains(pos@[j as int]));
            r.push(&self.records[pos[j]]);
            j = j + 1;
        }
        assert(views(r@) =~= by_field(self@, field));
        r
    }

    /// The first record ordered by field `field`.
    pub fn first_sorted_by(&self, field: F) -> (r: Option<&Record<F>>)
        requires
            self.wf(),
        ensures
            match r {
                Some(x) => first_of(by_field(self@, field)) == Some(x@),
                None => first_of(by_field(self@, field)) is None,
            },
    {
        first_ref(self.iter_sorted_by(field))
    }

    /// The first record, ordered by field `field`, whose field starts with
    /// `value` and continues with `0x00` or space bytes only. `FieldOverflow`
    /// when `value` is wider than the field.
    pub fn try_first_by_padded(&self, field: F, value: &[u8]) -> (r: Result<Option<&Record<F>>, Error>)
        requires
            self.wf(),
        ensures
            value@.len() > width_of(field) ==> r == Err::<Option<&Record<F>>, Error>(
                Error::FieldOverflow { field: field.spec_name(), size: width_of(field) as usize, actual: value@.len() as usize },
            ),
            value@.len() <= width_of(field) ==> r is Ok && match r->Ok_0 {
                Some(x) => first_of(matching(by_field(self@, field), field, KeyMatch::Padded(value@))) == Some(x@),
                None => first_of(matching(by_field(self@, field), field, KeyMatch::Padded(value@))) is None,
            },
    {
        if value.len() > Record::<F>::size_of(field) {
            return Err(Self::overflow(field, value.len()));
        }
        let sorted = self.iter_sorted_by(field);
        Ok(first_ref(collect_refs(&sorted, field, &Matcher::Padded(value))))
    }

    /// The first record, ordered by field `field`, whose field starts with
    /// `value`. `FieldOverflow` when `value` is wider than the field.
    pub fn try_first_by_prefix(&self, field: F, value: &[u8]) -> (r: Result<Option<&Record<F>>, Error>)
        requires
            self.wf(),
        ensures
            value@.len() > width_of(field) ==> r == Err::<Option<&Record<F>>, Error>(
                Error::FieldOverflow { field: field.spec_name(), size: width_of(field) as usize, actual: value@.len() as usize },
            ),
            value@.len() <= width_of(field) ==> r is Ok && match r->Ok_0 {
                Some(x) => first_of(matching(by_field(self@, field), field, KeyMatch::Prefix(value@))) == Some(x@),
                None => first_of(matching(by_field(self@, field), field, KeyMatch::Prefix(value@))) is None,
            },
    {
        if value.len() > Record::<F>::size_of(field) {
            return Err(Self::overflow(field, value.len()));
        }
        let sorted = self.iter_sorted_by(field);
        Ok(first_ref(collect_refs(&sorted, field, &Matcher::Prefix(value))))
    }

    /// The bounds of a range search on `field`, extended to the field width,
    /// or the error the search reports; `None` when nothing can lie between.
    fn range_bounds(field: F, start: &KeyBound, end: &KeyBound) -> (r: Result<Option<(KeyBound, KeyBound)>, Error>)
        ensures
            ({
                let w = width_of(field);
                let lo = start.spec_bound();
                let hi = end.spec_bound();
                let plo = padded_bound(lo, 0u8, w);
                let phi = padded_bound(hi, 255u8, w);
                if !bound_within(lo, w) {
                    r == Err::<Option<(KeyBound, KeyBound)>, Error>(
                        Error::FieldOverflow { field: field.spec_name(), size: w as usize, actual: bound_len(lo) as usize },
                    )
                } else if !bound_within(hi, w) {
                    r == Err::<Option<(KeyBound, KeyBound)>, Error>(
                        Error::FieldOverflow { field: field.spec_name(), size: w as usize, actual: bound_len(hi) as usize },
                    )
                } else if range_reversed(plo, phi) {
                    r matches Err(Error::InvalidRange { field: name, start: s, end: e })
                        && name == field.spec_name() && s@ == bound_value(lo) && e@ == bound_value(hi)
                } else if range_void(plo, phi) {
                    r matches Ok(None)
                } else {
                    r matches Ok(Some((a, b))) && a.spec_bound() == plo && b.spec_bound() == phi
                }
            }),
    {
        let w = Record::<F>::size_of(field);
        if bound_bytes(start).len() > w {
            return Err(Self::overflow(field, bound_bytes(start).len()));
        }
        if bound_bytes(end).len() > w {
            return Err(Self::overflow(field, bound_bytes(end).len()));
        }
        let lo = pad_bound(start, 0, w);
        let hi = pad_bound(end, 255, w);
        let (reversed, void) = match (&lo, &hi) {
            (KeyBound::Unbounded, _) => (false, false),
            (_, KeyBound::Unbounded) => (false, false),
            _ => {
                let c = lex_compare(bound_bytes(&lo), bound_bytes(&hi));
                let both_out = match (&lo, &hi) {
                    (KeyBound::Excluded(_), KeyBound::Excluded(_)) => true,
                    _ => false,
                };
                (c > 0, c == 0 && both_out)
            },
        };
        if reversed {
            return Err(
                Error::InvalidRange {
                    field: field.name(),
                    start: slice_to_vec(bound_bytes(start)),
                    end: slice_to_vec(bound_bytes(end)),
                },
            );
        }
        if void {
            return Ok(None);
        }
        Ok(Some((lo, hi)))
    }

    /// Passes every record whose field `field` lies between `start` and `end`
    /// (extended as `try_find_range_by` extends them) through `edit`, in list
    /// order, and counts them. The errors of `try_find_range_by`, with
    /// nothing changed.
    pub fn try_edit_range_by<G: Fn(&mut Record<F>)>(&mut self, field: F, start: &KeyBound, end: &KeyBound, edit: G) -> (r: Result<usize, Error>)
        requires
            old(self).wf(),
            forall|x: &mut Record<F>| #[trigger] edit.requires((x,)),
        ensures
            final(self).wf(),
            ({
                let w = width_of(field);
                let lo = start.spec_bound();
                let hi = end.spec_bound();
                let plo = padded_bound(lo, 0u8, w);
                let phi = padded_bound(hi, 255u8, w);
                if !bound_within(lo, w) {
                    &&& r == Err::<usize, Error>(
                        Error::FieldOverflow { field: field.spec_name(), size: w as usize, actual: bound_len(lo) as usize },
                    )
                    &&& final(self).records() == old(self).records()
                } else if !bound_within(hi, w) {
                    &&& r == Err::<usize, Error>(
                        Error::FieldOverflow { field: field.spec_name(), size: w as usize, actual: bound_len(hi) as usize },
                    )
                    &&& final(self).records() == old(self).records()
                } else if range_reversed(plo, phi) {
                    &&& r matches Err(Error::InvalidRange { field: name, start: s, end: e })
                    &&& name == field.spec_name() && s@ == bound_value(lo) && e@ == bound_value(hi)
                    &&& final(self).records() == old(self).records()
                } else if range_void(plo, phi) {
                    &&& r == Ok::<usize, Error>(0)
                    &&& final(self).records() == old(self).records()
                } else {
                    &&& r == Ok::<usize, Error>(match_count(old(self)@, field, KeyMatch::Range(plo, phi)) as usize)
                    &&& final(self).records().len() == old(self).records().len()
                    &&& forall|i: int|
                        0 <= i < old(self).records().len() ==> if key_matches(
                            KeyMatch::Range(plo, phi),
                            #[trigger] old(self).records()[i].field(field),
                        ) {
                            exists|x: &mut Record<F>|
                                *x == old(self).records()[i] && *final(x) == final(self).records()[i] && edit.ensures(
                                    (x,),
                                    (),
                                )
                        } else {
                            final(self).records()[i] == old(self).records()[i]
                        }
                }
            }),
    {
        match Self::range_bounds(field, start, end) {
            Err(e) => Err(e),
            Ok(None) => Ok(0),
            Ok(Some((lo, hi))) => Ok(self.edit_matching(field, &Matcher::Range(&lo, &hi), edit)),
        }
    }

    /// Passes the first record whose field `field` equals `value` through
    /// `edit`, and says whether there was one. `TooShort` or `FieldOverflow`,
    /// with nothing changed, when `value` is narrower or wider than the field.
    pub fn try_edit_first_by<G: FnOnce(&mut Record<F>)>(&mut self, field: F, value: &[u8], edit: G) -> (r: Result<bool, Error>)
        requires
            old(self).wf(),
            forall|x: &mut Record<F>| #[trigger] edit.requires((x,)),
        ensures
            final(self).wf(),
            value@.len() < width_of(field) ==> r == Err::<bool, Error>(Error::TooShort)
                && final(self).records() == old(self).records(),
            value@.len() > width_of(field) ==> r == Err::<bool, Error>(
                Error::FieldOverflow { field: field.spec_name(), size: width_of(field) as usize, actual: value@.len() as usize },
            ) && final(self).records() == old(self).records(),
            value@.len() == width_of(field) ==> match r {
                Ok(true) => exists|i: int|
                    first_match_at(old(self)@, field, KeyMatch::Exact(value@), i) && final(self).records()
                        == old(self).records().update(i, final(self).records()[i]) && exists|x: &mut Record<F>|
                        *x == old(self).records()[i] && *final(x) == final(self).records()[i] && edit.ensures((x,), ()),
                Ok(false) => final(self).records() == old(self).records() && forall|i: int|
                    0 <= i < old(self)@.len() ==> !key_matches(
                        KeyMatch::Exact(value@),
                        field_view(#[trigger] old(self)@[i], F::spec_widths(), field.spec_index()),
                    ),
                Err(_) => false,
            },
    {
        let w = Record::<F>::size_of(field);
        if value.len() < w {
            return Err(Error::TooShort);
        }
        if value.len() > w {
            return Err(Self::overflow(field, value.len()));
        }
        let m = Matcher::Exact(value);
        let mut i: usize = 0;
        while i < self.records.len()
            invariant
                0 <= i <= self.records@.len(),
                self.records@ == old(self).records(),
                self@ == old(self)@,
                self.wf(),
                forall|x: &mut Record<F>| #[trigger] edit.requires((x,)),
                m.spec_match() == KeyMatch::Exact(value@),
                forall|j: int|
                    0 <= j < i ==> !key_matches(
                        KeyMatch::Exact(value@),
                        field_view(#[trigger] self@[j], F::spec_widths(), field.spec_index()),
                    ),
            decreases self.records@.len() - i,
        {
            let hit = key_matches_exec(&m, self.records[i].get_field_bytes(field));
            assert(self@[i as int] == self.records@[i as int]@);
            if hit {
                let ghost before = self.records@;
                edit(&mut self.records[i]);
                proof {
                    assert(first_match_at(old(self)@, field, KeyMatch::Exact(value@), i as int));
                    assert(self.records@ =~= before.update(i as int, self.records@[i as int]));
                }
                self.rebuild();
                return Ok(true);
            }
            i = i + 1;
        }
        Ok(false)
    }

    /// The first record whose field `field` equals `value`. `TooShort` when
    /// `value` is narrower than the field, `FieldOverflow` when it is wider.
    pub fn try_first_by(&self, field: F, value: &[u8]) -> (r: Result<Option<&Record<F>>, Error>)
        ensures
            value@.len() < width_of(field) ==> r == Err::<Option<&Record<F>>, Error>(Error::TooShort),
            value@.len() > width_of(field) ==> r == Err::<Option<&Record<F>>, Error>(
                Error::FieldOverflow { field: field.spec_name(), size: width_of(field) as usize, actual: value@.len() as usize },
            ),
            value@.len() == width_of(field) ==> r is Ok && match r->Ok_0 {
                Some(x) => first_of(matching(self@, field, KeyMatch::Exact(value@))) == Some(x@),
                None => first_of(matching(self@, field, KeyMatch::Exact(value@))) is None,
            },
    {
        let found = self.try_find_by(field, value)?;
        if found.len() == 0 {
            Ok(None)
        } else {
            Ok(Some(found[0]))
        }
    }

    /// The records whose field `field` lies between `start` and `end`, in list
    /// order. A start shorter than the field is extended with `0x00` bytes, an
    /// end with `0xFF` bytes. `FieldOverflow` when a bound is wider than the
    /// field (the start is looked at first); `InvalidRange` when the extended
    /// start lies after the extended end.
    pub fn try_find_range_by(&self, field: F, start: &KeyBound, end: &KeyBound) -> (r: Result<Vec<&Record<F>>, Error>)
        ensures
            ({
                let w = width_of(field);
                let lo = start.spec_bound();
                let hi = end.spec_bound();
                let plo = padded_bound(lo, 0u8, w);
                let phi = padded_bound(hi, 255u8, w);
                if !bound_within(lo, w) {
                    r == Err::<Vec<&Record<F>>, Error>(
                        Error::FieldOverflow { field: field.spec_name(), size: w as usize, actual: bound_len(lo) as usize },
                    )
                } else if !bound_within(hi, w) {
                    r == Err::<Vec<&Record<F>>, Error>(
                        Error::FieldOverflow { field: field.spec_name(), size: w as usize, actual: bound_len(hi) as usize },
                    )
                } else if range_reversed(plo, phi) {
                    r matches Err(Error::InvalidRange { field: name, start: s, end: e })
                        && name == field.spec_name() && s@ == bound_value(lo) && e@ == bound_value(hi)
                } else if range_void(plo, phi) {
                    r matches Ok(v) && v@.len() == 0
                } else {
                    r is Ok && views(r->Ok_0@) == matching(self@, field, KeyMatch::Range(plo, phi))
                }
            }),
    {
        let w = Record::<F>::size_of(field);
        if bound_bytes(start).len() > w {
            return Err(Self::overflow(field, bound_bytes(start).len()));
        }
        if bound_bytes(end).len() > w {
            return Err(Self::overflow(field, bound_bytes(end).len()));
        }
        let lo = pad_bound(start, 0, w);
        let hi = pad_bound(end, 255, w);
        let (reversed, void) = match (&lo, &hi) {
            (KeyBound::Unbounded, _) => (false, false),
            (_, KeyBound::Unbounded) => (false, false),
            _ => {
                let c = lex_compare(bound_bytes(&lo), bound_bytes(&hi));
                let both_out = match (&lo, &hi) {
                    (KeyBound::Excluded(_), KeyBound::Excluded(_)) => true,
                    _ => false,
                };
                (c > 0, c == 0 && both_out)
            },
        };
        if reversed {
            return Err(
                Error::InvalidRange {
                    field: field.name(),
                    start: slice_to_vec(bound_bytes(start)),
                    end: slice_to_vec(bound_bytes(end)),
                },
            );
        }
        if void {
            return Ok(Vec::new());
        }
        Ok(self.collect(field, &Matcher::Range(&lo, &hi)))
    }
}

impl<F: RecordLayout> Default for PositionalList<F> {
    /// An empty list.
    fn default() -> (l: Self)
        ensures
            l@ == Seq::<Seq<u8>>::empty(),
            l.wf(),
    {
        Self::new()
    }
}

/// The value of a bound; empty when there is none.
fn bound_bytes(b: &KeyBound) -> (r: &[u8])
    ensures
        r@ == bound_value(b.spec_bound()),
        r@.len() == bound_len(b.spec_bound()),
{
    match b {
        KeyBound::Included(v) => v.as_slice(),
        KeyBound::Excluded(v) => v.as_slice(),
        KeyBound::Unbounded => &[],
    }
}

/// `v` extended to `w` bytes with `fill`.
fn pad_bytes(v: &[u8], fill: u8, w: usize) -> (r: Vec<u8>)
    requires
        v@.len() <= w,
    ensures
        r@ == pad_to(v@, fill, w as int),
{
    let mut r: Vec<u8> = Vec::new();
    let mut i: usize = 0;
    while i < v.len()
        invariant
            0 <= i <= v@.len(),
            r@ == v@.subrange(0, i as int),
        decreases v@.len() - i,
    {
        r.push(v[i]);
        assert(r@ =~= v@.subrange(0, i + 1));
        i = i + 1;
    }
    assert(v@.subrange(0, i as int) =~= v@);
    while i < w
        invariant
            v@.len() <= i <= w,
            r@ == pad_to(v@, fill, i as int),
        decreases w - i,
    {
        r.push(fill);
        assert(r@ =~= pad_to(v@, fill, i + 1));
        i = i + 1;
    }
    r
}

/// A bound extended to `w` bytes with `fill`.
fn pad_bound(b: &KeyBound, fill: u8, w: usize) -> (r: KeyBound)
    requires
        bound_within(b.spec_bound(), w as int),
    ensures
        r.spec_bound() == padded_bound(b.spec_bound(), fill, w as int),
{
    match b {
        KeyBound::Included(v) => KeyBound::Included(pad_bytes(v.as_slice(), fill, w)),
        KeyBound::Excluded(v) => KeyBound::Excluded(pad_bytes(v.as_slice(), fill, w)),
        KeyBound::Unbounded => KeyBound::Unbounded,
    }
}

} // verus!
