use vstd::prelude::*;
use vstd::slice::slice_to_vec;

use crate::error::Error;
use crate::layout::{field_view, RecordLayout};
use crate::order::{lex_compare, lex_order};
use crate::field_order::selected_key;
use crate::io::key_view;
use crate::record::{record_len, width_of, Record};
use crate::sorting::{
    lemma_insert_position, lemma_pos_lt_order, lemma_sorted_positions_sorts, lemma_sorted_positions_unique, pos_lt,
    sort_positions, sorted_positions, sorts_positions,
};

verus! {

/// What the contracts see of one stored record: its id, its bytes, and
/// whether it has been removed.
pub type Stored = (usize, Seq<u8>, bool);

/// Index `i` of `s` holds the record with id `id`.
pub open spec fn has_id(s: Seq<Stored>, id: usize, i: int) -> bool {
    0 <= i < s.len() && s[i].0 == id
}

/// Index `i` of `s` holds the live (not removed) record with id `id`.
pub open spec fn live_at(s: Seq<Stored>, id: usize, i: int) -> bool {
    has_id(s, id, i) && !s[i].2
}

/// Some index of `s` holds the record with id `id`.
pub open spec fn is_stored(s: Seq<Stored>, id: usize) -> bool {
    exists|i: int| has_id(s, id, i)
}

/// `order` lists `id`.
pub open spec fn is_listed(order: Seq<usize>, id: usize) -> bool {
    exists|a: int| 0 <= a < order.len() && order[a] == id
}

/// The bytes of the live record with id `id`, if there is one.
pub open spec fn live_record(s: Seq<Stored>, id: usize) -> Option<Seq<u8>> {
    if exists|i: int| live_at(s, id, i) {
        Some(s[choose|i: int| live_at(s, id, i)].1)
    } else {
        None
    }
}

/// Where the record with id `id` is stored (meaningful when it is stored).
pub open spec fn index_of(s: Seq<Stored>, id: usize) -> int {
    choose|i: int| has_id(s, id, i)
}

/// The stored records that are not removed, in storage order.
pub open spec fn live(s: Seq<Stored>) -> Seq<Stored>
    decreases s.len(),
{
    if s.len() == 0 {
        s
    } else if !s.last().2 {
        live(s.drop_last()).push(s.last())
    } else {
        live(s.drop_last())
    }
}

/// The ids of the stored records, in storage order.
pub open spec fn ids_of(s: Seq<Stored>) -> Seq<usize> {
    Seq::new(s.len(), |i: int| s[i].0)
}

/// The ids of `order` whose records are live, in the order of `order`.
pub open spec fn live_order(s: Seq<Stored>, order: Seq<usize>) -> Seq<usize>
    decreases order.len(),
{
    if order.len() == 0 {
        order
    } else if live_record(s, order.last()) is Some {
        live_order(s, order.drop_last()).push(order.last())
    } else {
        live_order(s, order.drop_last())
    }
}

/// The bytes of the live records with the ids `ids`, in that order.
pub open spec fn records_of(s: Seq<Stored>, ids: Seq<usize>) -> Seq<Seq<u8>> {
    Seq::new(ids.len(), |i: int| live_record(s, ids[i])->0)
}

/// The views of a list of record references.
pub open spec fn views<F: RecordLayout>(v: Seq<&Record<F>>) -> Seq<Seq<u8>> {
    Seq::new(v.len(), |i: int| v[i]@)
}

/// The ids grow strictly in storage order.
pub open spec fn ids_grow(s: Seq<Stored>) -> bool {
    forall|i: int, j: int| 0 <= i < j < s.len() ==> #[trigger] s[i].0 < #[trigger] s[j].0
}

/// The invariant of a record list: ids grow strictly in storage order and stay
/// below the next id; every record has its layout's length; the order lists
/// stored ids, each once, and every live id.
pub open spec fn list_wf<F: RecordLayout>(s: Seq<Stored>, order: Seq<usize>, next_id: usize) -> bool {
    &&& ids_grow(s)
    &&& forall|i: int| 0 <= i < s.len() ==> #[trigger] s[i].0 < next_id
    &&& forall|i: int| 0 <= i < s.len() ==> #[trigger] s[i].1.len() == record_len::<F>()
    &&& forall|a: int, b: int| 0 <= a < b < order.len() ==> #[trigger] order[a] != #[trigger] order[b]
    &&& forall|a: int| 0 <= a < order.len() ==> is_stored(s, #[trigger] order[a])
    &&& forall|i: int| 0 <= i < s.len() && !s[i].2 ==> is_listed(order, #[trigger] s[i].0)
}

/// With growing ids an id is stored at one index at most.
pub proof fn lemma_unique_index(s: Seq<Stored>, id: usize, i: int, j: int)
    requires
        ids_grow(s),
        has_id(s, id, i),
        has_id(s, id, j),
    ensures
        i == j,
{
    if i < j {
        assert(s[i].0 < s[j].0);
    } else if j < i {
        assert(s[j].0 < s[i].0);
    }
}

/// With growing ids, the record stored at `i` decides what `live_record`
/// gives for its id.
pub proof fn lemma_live_record_at(s: Seq<Stored>, id: usize, i: int)
    requires
        ids_grow(s),
        has_id(s, id, i),
    ensures
        live_record(s, id) == if s[i].2 { None::<Seq<u8>> } else { Some(s[i].1) },
        index_of(s, id) == i,
{
    if s[i].2 {
        assert forall|j: int| !live_at(s, id, j) by {
            if has_id(s, id, j) {
                lemma_unique_index(s, id, i, j);
            }
        }
    } else {
        assert(live_at(s, id, i));
        let j = choose|j: int| live_at(s, id, j);
        lemma_unique_index(s, id, i, j);
    }
    let k = index_of(s, id);
    assert(has_id(s, id, k));
    lemma_unique_index(s, id, i, k);
}

/// An id that is stored nowhere has no live record.
pub proof fn lemma_not_stored(s: Seq<Stored>, id: usize)
    requires
        !is_stored(s, id),
    ensures
        live_record(s, id) is None,
{
    assert forall|j: int| !live_at(s, id, j) by {
        if live_at(s, id, j) {
            assert(has_id(s, id, j));
        }
    }
}

/// What `live` keeps: records that are not removed, each from some index of
/// `s`.
pub proof fn lemma_live_members(s: Seq<Stored>)
    ensures
        live(s).len() <= s.len(),
        forall|j: int| 0 <= j < live(s).len() ==> !(#[trigger] live(s)[j]).2,
        forall|j: int| 0 <= j < live(s).len() ==> exists|i: int| 0 <= i < s.len() && #[trigger] live(s)[j] == s[i],
    decreases s.len(),
{
    if s.len() > 0 {
        let t = s.drop_last();
        lemma_live_members(t);
        let l = live(s);
        let lt = live(t);
        assert forall|j: int| 0 <= j < l.len() implies exists|i: int| 0 <= i < s.len() && #[trigger] l[j] == s[i] by {
            if j < lt.len() {
                assert(l[j] == lt[j]);
                let i = choose|i: int| 0 <= i < t.len() && lt[j] == t[i];
                assert(l[j] == s[i]);
            } else {
                assert(l[j] == s[s.len() - 1]);
            }
        }
        assert forall|j: int| 0 <= j < l.len() implies !(#[trigger] l[j]).2 by {
            if j < lt.len() {
                assert(l[j] == lt[j]);
            }
        }
    }
}

/// `live` keeps every record that is not removed.
pub proof fn lemma_live_complete(s: Seq<Stored>)
    ensures
        forall|i: int| 0 <= i < s.len() && !s[i].2 ==> exists|j: int| 0 <= j < live(s).len() && #[trigger] s[i] == live(s)[j],
    decreases s.len(),
{
    if s.len() > 0 {
        let t = s.drop_last();
        lemma_live_complete(t);
        let l = live(s);
        let lt = live(t);
        assert forall|i: int| 0 <= i < s.len() && !s[i].2 implies exists|j: int| 0 <= j < l.len() && #[trigger] s[i] == l[j] by {
            if i < s.len() - 1 {
                assert(t[i] == s[i]);
                let j = choose|j: int| 0 <= j < lt.len() && t[i] == lt[j];
                assert(l[j] == lt[j]);
            } else {
                assert(l[l.len() - 1] == s[i]);
            }
        }
    }
}

/// With ids that grow in `s`, the ids grow in `live(s)` too.
pub proof fn lemma_live_ids_grow(s: Seq<Stored>)
    requires
        forall|i: int, j: int| 0 <= i < j < s.len() ==> #[trigger] s[i].0 < #[trigger] s[j].0,
    ensures
        forall|a: int, b: int| 0 <= a < b < live(s).len() ==> #[trigger] live(s)[a].0 < #[trigger] live(s)[b].0,
    decreases s.len(),
{
    if s.len() > 0 {
        let t = s.drop_last();
        assert forall|i: int, j: int| 0 <= i < j < t.len() implies #[trigger] t[i].0 < #[trigger] t[j].0 by {
            assert(t[i] == s[i] && t[j] == s[j]);
        }
        lemma_live_ids_grow(t);
        lemma_live_members(t);
        let l = live(s);
        let lt = live(t);
        assert forall|a: int, b: int| 0 <= a < b < l.len() implies #[trigger] l[a].0 < #[trigger] l[b].0 by {
            assert(l[a] == lt[a]);
            if b < lt.len() {
                assert(l[b] == lt[b]);
            } else {
                let i = choose|i: int| 0 <= i < t.len() && lt[a] == t[i];
                assert(t[i] == s[i]);
                assert(l[b] == s[s.len() - 1]);
            }
        }
    }
}

/// What `live_order` keeps: the ids of `order` with a live record, in the
/// order of `order`, all of them; an order without repeats gives one.
pub proof fn lemma_live_order(s: Seq<Stored>, order: Seq<usize>)
    ensures
        live_order(s, order).len() <= order.len(),
        forall|j: int| 0 <= j < live_order(s, order).len() ==> live_record(s, #[trigger] live_order(s, order)[j]) is Some,
        forall|j: int| 0 <= j < live_order(s, order).len() ==> is_listed(order, #[trigger] live_order(s, order)[j]),
        forall|a: int| 0 <= a < order.len() && live_record(s, order[a]) is Some ==> is_listed(live_order(s, order), #[trigger] order[a]),
        (forall|a: int, b: int| 0 <= a < b < order.len() ==> #[trigger] order[a] != #[trigger] order[b]) ==> (forall|a: int, b: int|
            0 <= a < b < live_order(s, order).len() ==> #[trigger] live_order(s, order)[a] != #[trigger] live_order(s, order)[b]),
    decreases order.len(),
{
    if order.len() > 0 {
        let t = order.drop_last();
        lemma_live_order(s, t);
        let l = live_order(s, order);
        let lt = live_order(s, t);
        let x = order.last();
        assert forall|j: int| 0 <= j < l.len() implies is_listed(order, #[trigger] l[j]) by {
            if j < lt.len() {
                assert(l[j] == lt[j]);
                assert(is_listed(t, lt[j]));
                let a = choose|a: int| 0 <= a < t.len() && t[a] == lt[j];
                assert(order[a] == t[a]);
            } else {
                assert(order[order.len() - 1] == l[j]);
            }
        }
        assert forall|j: int| 0 <= j < l.len() implies live_record(s, #[trigger] l[j]) is Some by {
            if j < lt.len() {
                assert(l[j] == lt[j]);
            }
        }
        assert forall|a: int| 0 <= a < order.len() && live_record(s, order[a]) is Some implies is_listed(l, #[trigger] order[a]) by {
            if a < order.len() - 1 {
                assert(t[a] == order[a]);
                assert(is_listed(lt, t[a]));
                let j = choose|j: int| 0 <= j < lt.len() && lt[j] == t[a];
                assert(l[j] == lt[j]);
            } else {
                assert(l[l.len() - 1] == x);
            }
        }
        if forall|a: int, b: int| 0 <= a < b < order.len() ==> #[trigger] order[a] != #[trigger] order[b] {
            assert forall|a: int, b: int| 0 <= a < b < t.len() implies #[trigger] t[a] != #[trigger] t[b] by {
                assert(t[a] == order[a] && t[b] == order[b]);
            }
            assert forall|a: int, b: int| 0 <= a < b < l.len() implies #[trigger] l[a] != #[trigger] l[b] by {
                assert(l[a] == lt[a]);
                if b < lt.len() {
                    assert(l[b] == lt[b]);
                } else {
                    assert(l[b] == x);
                    assert(is_listed(t, lt[a]));
                    let c = choose|c: int| 0 <= c < t.len() && t[c] == lt[a];
                    assert(order[c] == t[c]);
                    assert(order[order.len() - 1] == x);
                }
            }
        }
    }
}

/// `live` of a prefix is a prefix of `live`.
pub proof fn lemma_live_prefix(s: Seq<Stored>, k: int)
    requires
        0 <= k <= s.len(),
    ensures
        live(s.subrange(0, k)).len() <= live(s).len(),
        forall|j: int| 0 <= j < live(s.subrange(0, k)).len() ==> #[trigger] live(s.subrange(0, k))[j] == live(s)[j],
    decreases s.len() - k,
{
    if k < s.len() {
        lemma_live_prefix(s, k + 1);
        let p = s.subrange(0, k + 1);
        assert(p.drop_last() =~= s.subrange(0, k));
        let lk = live(s.subrange(0, k));
        assert forall|j: int| 0 <= j < lk.len() implies #[trigger] lk[j] == live(p)[j] by {
        }
    } else {
        assert(s.subrange(0, k) =~= s);
    }
}

/// `ids` rearranged by the positions `pos`: the id at position `pos[j]` goes
/// to place `j`.
pub open spec fn arranged(ids: Seq<usize>, pos: Seq<usize>) -> Seq<usize> {
    Seq::new(pos.len(), |j: int| ids[pos[j] as int])
}

/// The keys `fields` select from each record of `rs`.
pub open spec fn keys_by<F: RecordLayout>(rs: Seq<Seq<u8>>, fields: Seq<F>) -> Seq<Seq<u8>> {
    Seq::new(rs.len(), |i: int| selected_key(rs[i], fields))
}

/// The invariant survives dropping the removed records and their ids.
pub proof fn lemma_vacuum_wf<F: RecordLayout>(s: Seq<Stored>, order: Seq<usize>, next_id: usize)
    requires
        list_wf::<F>(s, order, next_id),
    ensures
        list_wf::<F>(live(s), live_order(s, order), next_id),
{
    let l = live(s);
    let lo = live_order(s, order);
    lemma_live_ids_grow(s);
    lemma_live_order(s, order);
    assert forall|j: int| 0 <= j < l.len() implies #[trigger] l[j].0 < next_id by {
        lemma_live_members(s);
        let i = choose|i: int| 0 <= i < s.len() && l[j] == s[i];
        assert(s[i].0 < next_id);
    }
    assert forall|j: int| 0 <= j < l.len() implies #[trigger] l[j].1.len() == record_len::<F>() by {
        lemma_live_members(s);
        let i = choose|i: int| 0 <= i < s.len() && l[j] == s[i];
        assert(s[i].1.len() == record_len::<F>());
    }
    assert forall|a: int| 0 <= a < lo.len() implies is_stored(l, #[trigger] lo[a]) by {
        lemma_live_complete(s);
        let x = lo[a];
        assert(live_record(s, x) is Some);
        let i = choose|i: int| live_at(s, x, i);
        assert(!s[i].2);
        let j = choose|j: int| 0 <= j < l.len() && s[i] == l[j];
        assert(has_id(l, x, j));
    }
    assert forall|j: int| 0 <= j < l.len() && !l[j].2 implies is_listed(lo, #[trigger] l[j].0) by {
        lemma_live_members(s);
        let i = choose|i: int| 0 <= i < s.len() && l[j] == s[i];
        assert(is_listed(order, s[i].0));
        let a = choose|a: int| 0 <= a < order.len() && order[a] == s[i].0;
        assert(live_at(s, s[i].0, i));
        assert(live_record(s, order[a]) is Some);
    }
}

/// Rearranging the live ids of the order by a sort of their positions keeps
/// the invariant.
pub proof fn lemma_arranged_wf<F: RecordLayout>(
    s: Seq<Stored>,
    order: Seq<usize>,
    next_id: usize,
    keys: Seq<Seq<u8>>,
)
    requires
        list_wf::<F>(s, order, next_id),
        keys.len() == live_order(s, order).len(),
        keys.len() <= usize::MAX,
        sorts_positions(keys, sorted_positions(keys)),
    ensures
        list_wf::<F>(s, arranged(live_order(s, order), sorted_positions(keys)), next_id),
{
    let lo = live_order(s, order);
    let pos = sorted_positions(keys);
    let o = arranged(lo, pos);
    lemma_live_order(s, order);
    assert forall|j: int| 0 <= j < pos.len() implies #[trigger] pos[j] < lo.len() by {
        assert(pos.contains(pos[j]));
    }
    assert forall|a: int, b: int| 0 <= a < b < o.len() implies #[trigger] o[a] != #[trigger] o[b] by {
        assert(pos.contains(pos[a]));
        assert(pos.contains(pos[b]));
        lemma_pos_lt_order(keys, pos[a] as int, pos[b] as int, pos[a] as int);
        assert(pos_lt(keys, pos[a] as int, pos[b] as int));
    }
    assert forall|a: int| 0 <= a < o.len() implies is_stored(s, #[trigger] o[a]) by {
        assert(pos.contains(pos[a]));
        let x = lo[pos[a] as int];
        assert(live_record(s, x) is Some);
        let i = choose|i: int| live_at(s, x, i);
        assert(has_id(s, x, i));
    }
    assert forall|i: int| 0 <= i < s.len() && !s[i].2 implies is_listed(o, #[trigger] s[i].0) by {
        let x = s[i].0;
        assert(is_listed(order, x));
        let a = choose|a: int| 0 <= a < order.len() && order[a] == x;
        assert(live_at(s, x, i));
        assert(live_record(s, order[a]) is Some);
        assert(is_listed(lo, order[a]));
        let c = choose|c: int| 0 <= c < lo.len() && lo[c] == x;
        assert(0 <= c < keys.len());
        let cu = c as usize;
        assert(cu as int == c);
        assert(pos.contains(cu));
        let j = choose|j: int| 0 <= j < pos.len() && pos[j] == cu;
        assert(o[j] == lo[c]);
    }
}

struct Slot<F: RecordLayout> {
    id: usize,
    record: Record<F>,
    removed: bool,
}

/// The listed fields of `rec`, laid end to end.
pub(crate) fn key_bytes<F: RecordLayout>(rec: &Record<F>, fields: &[F]) -> (r: Vec<u8>)
    ensures
        r@ == selected_key(rec@, fields@),
{
    let n = fields.len();
    let mut r: Vec<u8> = Vec::new();
    let mut k: usize = 0;
    assert(fields@.subrange(0, n as int) =~= fields@);
    while k < n
        invariant
            0 <= k <= n,
            n == fields@.len(),
            selected_key(rec@, fields@) == r@ + selected_key(rec@, fields@.subrange(k as int, n as int)),
        decreases n - k,
    {
        let part = rec.get_field_bytes(fields[k]);
        let ghost tail = fields@.subrange(k as int, n as int);
        assert(tail[0] == fields@[k as int]);
        assert(tail.drop_first() =~= fields@.subrange(k + 1, n as int));
        let mut p: usize = 0;
        let ghost r0 = r@;
        while p < part.len()
            invariant
                0 <= p <= part@.len(),
                r@ == r0 + part@.subrange(0, p as int),
            decreases part@.len() - p,
        {
            r.push(part[p]);
            assert(r@ =~= r0 + part@.subrange(0, p + 1));
            p = p + 1;
        }
        assert(part@.subrange(0, p as int) =~= part@);
        assert(r0 + (part@ + selected_key(rec@, fields@.subrange(k + 1, n as int))) =~= r@ + selected_key(
            rec@,
            fields@.subrange(k + 1, n as int),
        ));
        k = k + 1;
    }
    assert(fields@.subrange(n as int, n as int).len() == 0);
    assert(r@ + Seq::<u8>::empty() =~= r@);
    r
}

/// The bytes of the live records, in id order.
pub open spec fn live_bytes(s: Seq<Stored>) -> Seq<Seq<u8>> {
    Seq::new(live(s).len(), |i: int| live(s)[i].1)
}

/// Field `f` of each record of `rs`.
pub open spec fn field_keys<F: RecordLayout>(rs: Seq<Seq<u8>>, f: F) -> Seq<Seq<u8>> {
    Seq::new(rs.len(), |i: int| field_view(rs[i], F::spec_widths(), f.spec_index()))
}

/// The live records ordered by field `f`, records with equal fields by id.
pub open spec fn sorted_by_field<F: RecordLayout>(s: Seq<Stored>, f: F) -> Seq<Seq<u8>> {
    let rs = live_bytes(s);
    let pos = sorted_positions(field_keys(rs, f));
    Seq::new(pos.len(), |j: int| rs[pos[j] as int])
}

/// Which field values a search keeps.
pub enum KeyMatch {
    /// Every value.
    All,
    /// Values equal to the given bytes.
    Exact(Seq<u8>),
    /// Values that start with the given bytes and continue with `0x00` or
    /// space bytes only.
    Padded(Seq<u8>),
    /// Values that start with the given bytes.
    Prefix(Seq<u8>),
    /// Values between the bounds: a bound's flag says whether the bound itself
    /// is in the range; no bound means no limit on that side.
    Range(Option<(Seq<u8>, bool)>, Option<(Seq<u8>, bool)>),
}

/// `key` starts with `v`.
pub open spec fn starts_with(key: Seq<u8>, v: Seq<u8>) -> bool {
    v.len() <= key.len() && key.subrange(0, v.len() as int) == v
}

/// `key` is at or above the lower bound `lo`.
pub open spec fn above(key: Seq<u8>, lo: Option<(Seq<u8>, bool)>) -> bool {
    match lo {
        None => true,
        Some((b, inclusive)) => if inclusive { lex_order(b, key) <= 0 } else { lex_order(b, key) < 0 },
    }
}

/// `key` is at or below the upper bound `hi`.
pub open spec fn below(key: Seq<u8>, hi: Option<(Seq<u8>, bool)>) -> bool {
    match hi {
        None => true,
        Some((b, inclusive)) => if inclusive { lex_order(key, b) <= 0 } else { lex_order(key, b) < 0 },
    }
}

/// Whether a search kept by `m` keeps the field value `key`.
pub open spec fn key_matches(m: KeyMatch, key: Seq<u8>) -> bool {
    match m {
        KeyMatch::All => true,
        KeyMatch::Exact(v) => key == v,
        KeyMatch::Padded(v) => starts_with(key, v) && forall|k: int|
            v.len() <= k < key.len() ==> #[trigger] key[k] == 0u8 || key[k] == 32u8,
        KeyMatch::Prefix(v) => starts_with(key, v),
        KeyMatch::Range(lo, hi) => above(key, lo) && below(key, hi),
    }
}

/// The records of `rs` whose field `f` is kept by `m`, in the order of `rs`.
pub open spec fn matching<F: RecordLayout>(rs: Seq<Seq<u8>>, f: F, m: KeyMatch) -> Seq<Seq<u8>>
    decreases rs.len(),
{
    if rs.len() == 0 {
        rs
    } else if key_matches(m, field_view(rs.last(), F::spec_widths(), f.spec_index())) {
        matching(rs.drop_last(), f, m).push(rs.last())
    } else {
        matching(rs.drop_last(), f, m)
    }
}

/// The first of `rs`, if there is one.
pub open spec fn first_of(rs: Seq<Seq<u8>>) -> Option<Seq<u8>> {
    if rs.len() > 0 {
        Some(rs[0])
    } else {
        None
    }
}

/// A search that keeps every record keeps them all, in order.
pub proof fn lemma_matching_all<F: RecordLayout>(rs: Seq<Seq<u8>>, f: F)
    ensures
        matching(rs, f, KeyMatch::All) == rs,
    decreases rs.len(),
{
    if rs.len() > 0 {
        lemma_matching_all(rs.drop_last(), f);
        assert(rs.drop_last().push(rs.last()) =~= rs);
    }
}

/// One end of a key range for `find_range_by`.
pub enum KeyBound {
    /// The range starts or ends at this value, which it includes.
    Included(Vec<u8>),
    /// The range starts or ends at this value, which it leaves out.
    Excluded(Vec<u8>),
    /// No limit on this side.
    Unbounded,
}

impl KeyBound {
    /// The bound as the contracts see it: its value and whether it is included.
    pub open spec fn spec_bound(&self) -> Option<(Seq<u8>, bool)> {
        match self {
            KeyBound::Included(v) => Some((v@, true)),
            KeyBound::Excluded(v) => Some((v@, false)),
            KeyBound::Unbounded => None,
        }
    }
}

/// A bound fits a field of `width` bytes when it has that length or is absent.
pub open spec fn bound_fits(b: Option<(Seq<u8>, bool)>, width: int) -> bool {
    match b {
        None => true,
        Some((v, _)) => v.len() == width,
    }
}

/// Two bounds form a valid range: the start is not after the end, and they
/// are not the same value left out at both ends.
pub open spec fn bounds_ordered(lo: Option<(Seq<u8>, bool)>, hi: Option<(Seq<u8>, bool)>) -> bool {
    match (lo, hi) {
        (Some((a, ia)), Some((b, ib))) => lex_order(a, b) < 0 || (lex_order(a, b) == 0 && (ia || ib)),
        _ => true,
    }
}


/// The slots of the live records, in storage order.
pub open spec fn live_slot_ids(s: Seq<Stored>) -> Seq<usize>
    decreases s.len(),
{
    if s.len() == 0 {
        Seq::empty()
    } else if !s.last().2 {
        live_slot_ids(s.drop_last()).push((s.len() - 1) as usize)
    } else {
        live_slot_ids(s.drop_last())
    }
}

/// The slots of the live records, listed as `sorted_by_field` lists their
/// records: the exact content of the index of field `f`.
pub open spec fn slot_order<F: RecordLayout>(s: Seq<Stored>, f: F) -> Seq<usize> {
    let pos = sorted_positions(field_keys(live_bytes(s), f));
    Seq::new(pos.len(), |j: int| live_slot_ids(s)[pos[j] as int])
}

/// The live slots are the slots of the live records, in increasing order.
pub proof fn lemma_live_slot_ids(s: Seq<Stored>)
    requires
        s.len() <= usize::MAX,
    ensures
        live_slot_ids(s).len() == live(s).len(),
        forall|j: int| 0 <= j < live_slot_ids(s).len() ==> (#[trigger] live_slot_ids(s)[j] as int) < s.len()
            && s[live_slot_ids(s)[j] as int] == live(s)[j],
        forall|a: int, b: int|
            0 <= a < b < live_slot_ids(s).len() ==> #[trigger] live_slot_ids(s)[a] < #[trigger] live_slot_ids(s)[b],
    decreases s.len(),
{
    if s.len() > 0 {
        let t = s.drop_last();
        lemma_live_slot_ids(t);
        let a = live_slot_ids(t);
        let l = live(t);
        let n = s.len() as int;
        if !s.last().2 {
            assert(live_slot_ids(s) == a.push((n - 1) as usize));
            assert(live(s) == l.push(s.last()));
            assert forall|j: int| 0 <= j < live_slot_ids(s).len() implies (#[trigger] live_slot_ids(s)[j] as int) < s.len()
                && s[live_slot_ids(s)[j] as int] == live(s)[j] by {
                if j < a.len() {
                    assert(live_slot_ids(s)[j] == a[j]);
                    assert(s[a[j] as int] == t[a[j] as int]);
                }
            }
            assert forall|x: int, y: int|
                0 <= x < y < live_slot_ids(s).len() implies #[trigger] live_slot_ids(s)[x] < #[trigger] live_slot_ids(s)[y] by {
                if y == a.len() {
                    assert(live_slot_ids(s)[x] == a[x]);
                } else {
                    assert(live_slot_ids(s)[x] == a[x]);
                    assert(live_slot_ids(s)[y] == a[y]);
                }
            }
        } else {
            assert(live_slot_ids(s) == a);
            assert(live(s) == l);
            assert forall|j: int| 0 <= j < live_slot_ids(s).len() implies (#[trigger] live_slot_ids(s)[j] as int) < s.len()
                && s[live_slot_ids(s)[j] as int] == live(s)[j] by {
                assert(s[a[j] as int] == t[a[j] as int]);
            }
        }
    }
}

/// Marking the live record in slot `i` removed takes it out of the live
/// records and the live slots, at the same place `lp`.
pub proof fn lemma_mark_removed(s: Seq<Stored>, i: int) -> (lp: int)
    requires
        0 <= i < s.len(),
        !s[i].2,
        s.len() <= usize::MAX,
    ensures
        0 <= lp < live_slot_ids(s).len(),
        live_slot_ids(s)[lp] == i,
        live(s.update(i, (s[i].0, s[i].1, true))) == live(s).remove(lp),
        live_slot_ids(s.update(i, (s[i].0, s[i].1, true))) == live_slot_ids(s).remove(lp),
    decreases s.len(),
{
    lemma_live_slot_ids(s);
    let s2 = s.update(i, (s[i].0, s[i].1, true));
    let t = s.drop_last();
    lemma_live_slot_ids(t);
    if i == s.len() - 1 {
        assert(s2.drop_last() =~= t);
        let lp = live_slot_ids(t).len() as int;
        assert(live(s).remove(lp) =~= live(t));
        assert(live_slot_ids(s).remove(lp) =~= live_slot_ids(t));
        lp
    } else {
        let lp = lemma_mark_removed(t, i);
        assert(s2.drop_last() =~= t.update(i, (t[i].0, t[i].1, true)));
        assert(s2.last() == s.last());
        if !s.last().2 {
            assert(live(s).remove(lp) =~= live(t).remove(lp).push(s.last()));
            assert(live_slot_ids(s).remove(lp) =~= live_slot_ids(t).remove(lp).push((s.len() - 1) as usize));
        }
        lp
    }
}

/// The live slot `i` stands in the index of every field, at some place.
pub proof fn lemma_slot_in_order<F: RecordLayout>(s: Seq<Stored>, i: int, f: F) -> (q: int)
    requires
        0 <= i < s.len(),
        !s[i].2,
        s.len() <= usize::MAX,
    ensures
        0 <= q < slot_order(s, f).len(),
        slot_order(s, f)[q] == i,
{
    let lp = lemma_mark_removed(s, i);
    lemma_live_slot_ids(s);
    lemma_live_members(s);
    let keys = field_keys(live_bytes(s), f);
    lemma_sorted_positions_sorts(keys);
    let pos = sorted_positions(keys);
    assert(pos.contains(lp as usize));
    let q = choose|q: int| 0 <= q < pos.len() && pos[q] == lp as usize;
    q
}

/// Marking the live record in slot `i` removed takes `i` out of the index of
/// every field, from the place where it stands.
pub proof fn lemma_slot_order_remove<F: RecordLayout>(s: Seq<Stored>, i: int, f: F, q: int)
    requires
        0 <= i < s.len(),
        !s[i].2,
        s.len() <= usize::MAX,
        0 <= q < slot_order(s, f).len(),
        slot_order(s, f)[q] == i,
    ensures
        slot_order(s.update(i, (s[i].0, s[i].1, true)), f) == slot_order(s, f).remove(q),
{
    let s2 = s.update(i, (s[i].0, s[i].1, true));
    let lp = lemma_mark_removed(s, i);
    lemma_live_slot_ids(s);
    lemma_live_slot_ids(s2);
    lemma_live_members(s);
    lemma_live_members(s2);
    let lsi = live_slot_ids(s);
    let rs = live_bytes(s);
    let rs2 = live_bytes(s2);
    assert(rs2 =~= rs.remove(lp));
    let keys = field_keys(rs, f);
    let keys2 = field_keys(rs2, f);
    assert(keys2 =~= keys.remove(lp));
    lemma_sorted_positions_sorts(keys);
    let pos = sorted_positions(keys);
    let n = pos.len() as int;
    // `lp` stands at `q` in the sorted positions.
    assert(pos.contains(pos[q]));
    if pos[q] as int != lp {
        if (pos[q] as int) < lp {
            assert(lsi[pos[q] as int] < lsi[lp]);
        } else {
            assert(lsi[lp] < lsi[pos[q] as int]);
        }
    }
    assert(pos[q] as int == lp);
    assert forall|a: int, b: int| 0 <= a < b < n implies #[trigger] pos[a] != #[trigger] pos[b] by {
        assert(pos.contains(pos[a]));
        assert(pos.contains(pos[b]));
        lemma_pos_lt_order(keys, pos[a] as int, pos[b] as int, pos[a] as int);
    }
    let rest = pos.remove(q);
    let dec = |x: usize| if (x as int) > lp { (x - 1) as usize } else { x };
    let pos2 = Seq::new((n - 1) as nat, |j: int| dec(rest[j]));
    assert forall|j: int| 0 <= j < n - 1 implies (#[trigger] rest[j] as int) != lp && (rest[j] as int) < n by {
        let a = if j < q { j } else { j + 1 };
        assert(rest[j] == pos[a]);
        assert(pos.contains(pos[a]));
    }
    assert forall|x: usize| #[trigger] pos2.contains(x) <==> x < n - 1 by {
        if x < n - 1 {
            let y: usize = if (x as int) < lp { x } else { (x + 1) as usize };
            assert(pos.contains(y));
            let a = choose|a: int| 0 <= a < n && pos[a] == y;
            assert(a != q);
            let j = if a < q { a } else { a - 1 };
            assert(rest[j] == y);
            assert(pos2[j] == x);
        }
        if pos2.contains(x) {
            let j = choose|j: int| 0 <= j < pos2.len() && pos2[j] == x;
            assert(rest[j] as int != lp);
        }
    }
    assert forall|a: int, b: int| 0 <= a < b < pos2.len() implies pos_lt(keys2, #[trigger] pos2[a] as int, #[trigger] pos2[b] as int) by {
        let a1 = if a < q { a } else { a + 1 };
        let b1 = if b < q { b } else { b + 1 };
        assert(rest[a] == pos[a1]);
        assert(rest[b] == pos[b1]);
        assert(pos.contains(pos[a1]));
        assert(pos.contains(pos[b1]));
        assert(pos_lt(keys, pos[a1] as int, pos[b1] as int));
        assert(keys2[pos2[a] as int] == keys[rest[a] as int]);
        assert(keys2[pos2[b] as int] == keys[rest[b] as int]);
    }
    assert(sorts_positions(keys2, pos2));
    lemma_sorted_positions_sorts(keys2);
    lemma_sorted_positions_unique(keys2, pos2, sorted_positions(keys2));
    let o = slot_order(s, f);
    let o2 = slot_order(s2, f);
    assert forall|j: int| 0 <= j < o2.len() implies o2[j] == o.remove(q)[j] by {
        let a1 = if j < q { j } else { j + 1 };
        assert(rest[j] == pos[a1]);
        assert(live_slot_ids(s2)[pos2[j] as int] == lsi[rest[j] as int]);
    }
    assert(o2 =~= o.remove(q));
}

/// The exact index of a field agrees with the records it lists.
pub proof fn lemma_slot_order_agrees<F: RecordLayout>(s: Seq<Stored>, f: F)
    requires
        s.len() <= usize::MAX,
    ensures
        index_agrees(s, slot_order(s, f), f),
{
    lemma_live_slot_ids(s);
    lemma_live_members(s);
    let keys = field_keys(live_bytes(s), f);
    lemma_sorted_positions_sorts(keys);
    let pos = sorted_positions(keys);
    let o = slot_order(s, f);
    assert forall|j: int| 0 <= j < o.len() implies (#[trigger] o[j] as int) < s.len()
        && s[o[j] as int].1 == sorted_by_field(s, f)[j] by {
        assert(pos.contains(pos[j]));
    }
}

/// What a removed slot holds does not matter to the live records, to the
/// live slots, or to the field indexes.
pub proof fn lemma_removed_content<F: RecordLayout>(s: Seq<Stored>, i: int, x: Stored, y: Stored, f: F)
    requires
        0 <= i < s.len(),
        x.2,
        y.2,
    ensures
        live(s.update(i, x)) == live(s.update(i, y)),
        live_slot_ids(s.update(i, x)) == live_slot_ids(s.update(i, y)),
        slot_order(s.update(i, x), f) == slot_order(s.update(i, y), f),
    decreases s.len(),
{
    let sx = s.update(i, x);
    let sy = s.update(i, y);
    if i < s.len() - 1 {
        lemma_removed_content(s.drop_last(), i, x, y, f);
        assert(sx.drop_last() =~= s.drop_last().update(i, x));
        assert(sy.drop_last() =~= s.drop_last().update(i, y));
    } else {
        assert(sx.drop_last() =~= sy.drop_last());
    }
    assert(live_bytes(sx) =~= live_bytes(sy));
}

/// The index of a field lists its slots in ascending order of the field, and
/// slots with equal fields in ascending order of slot.
pub proof fn lemma_slot_order_sorted<F: RecordLayout>(s: Seq<Stored>, f: F, a: int, b: int)
    requires
        s.len() <= usize::MAX,
        0 <= a < b < slot_order(s, f).len(),
    ensures
        ({
            let o = slot_order(s, f);
            let ka = field_view(s[o[a] as int].1, F::spec_widths(), f.spec_index());
            let kb = field_view(s[o[b] as int].1, F::spec_widths(), f.spec_index());
            lex_order(ka, kb) < 0 || (ka == kb && o[a] < o[b])
        }),
{
    lemma_live_slot_ids(s);
    lemma_live_members(s);
    let rs = live_bytes(s);
    let keys = field_keys(rs, f);
    lemma_sorted_positions_sorts(keys);
    let pos = sorted_positions(keys);
    assert(pos.contains(pos[a]));
    assert(pos.contains(pos[b]));
    assert(pos_lt(keys, pos[a] as int, pos[b] as int));
    let lsi = live_slot_ids(s);
    if pos[a] < pos[b] {
        assert(lsi[pos[a] as int] < lsi[pos[b] as int]);
    }
}

/// Whether the field `key` of slot `i` sorts after the field `other` of slot
/// `slot`: a greater field, or an equal field in a later slot.
fn sorts_after(key: &[u8], i: usize, other: &[u8], slot: usize) -> (b: bool)
    ensures
        b == (lex_order(key@, other@) > 0 || (key@ == other@ && slot < i)),
{
    proof {
        crate::order::lemma_lex_basics(key@, other@);
    }
    let c = lex_compare(key, other);
    c > 0 || (c == 0 && slot < i)
}

/// Storing one more live record puts it into the order by field `f` at `p`:
/// after the records whose field is not greater, before those whose field is.
pub proof fn lemma_sorted_by_field_push<F: RecordLayout>(s: Seq<Stored>, e: Stored, f: F, p: int)
    requires
        !e.2,
        s.len() < usize::MAX,
        0 <= p <= sorted_by_field(s, f).len(),
        forall|q: int|
            0 <= q < p ==> lex_order(
                field_view(e.1, F::spec_widths(), f.spec_index()),
                field_view(#[trigger] sorted_by_field(s, f)[q], F::spec_widths(), f.spec_index()),
            ) >= 0,
        p < sorted_by_field(s, f).len() ==> lex_order(
            field_view(e.1, F::spec_widths(), f.spec_index()),
            field_view(sorted_by_field(s, f)[p], F::spec_widths(), f.spec_index()),
        ) < 0,
    ensures
        sorted_by_field(s.push(e), f) == sorted_by_field(s, f).insert(p, e.1),
        slot_order(s.push(e), f) == slot_order(s, f).insert(p, s.len() as usize),
{
    let s2 = s.push(e);
    assert(s2.drop_last() =~= s);
    assert(live(s2) == live(s).push(e));
    let rs = live_bytes(s);
    let rs2 = live_bytes(s2);
    assert(rs2 =~= rs.push(e.1));
    lemma_live_members(s);
    let keys = field_keys(rs, f);
    let kv = field_keys(rs2, f);
    let k = field_view(e.1, F::spec_widths(), f.spec_index());
    assert(kv =~= keys.push(k));
    let n = rs.len();
    lemma_sorted_positions_sorts(keys);
    let pos = sorted_positions(keys);
    let sorted = sorted_by_field(s, f);
    assert forall|a: int, b: int| 0 <= a < b < pos.len() implies pos_lt(kv, #[trigger] pos[a] as int, #[trigger] pos[b] as int) by {
        assert(pos.contains(pos[a]));
        assert(pos.contains(pos[b]));
        assert(pos_lt(keys, pos[a] as int, pos[b] as int));
    }
    assert forall|q: int| 0 <= q < p implies lex_order(kv[n as int], kv[#[trigger] pos[q] as int]) >= 0 by {
        assert(pos.contains(pos[q]));
        assert(sorted[q] == rs[pos[q] as int]);
    }
    if p < pos.len() {
        assert(pos.contains(pos[p]));
        assert(sorted[p] == rs[pos[p] as int]);
    }
    lemma_insert_position(kv, pos, p, n as usize);
    let pos2 = pos.insert(p, n as usize);
    assert(sorts_positions(kv, pos2));
    lemma_sorted_positions_sorts(kv);
    lemma_sorted_positions_unique(kv, pos2, sorted_positions(kv));
    let sorted2 = sorted_by_field(s2, f);
    assert forall|j: int| 0 <= j < sorted2.len() implies sorted2[j] == sorted.insert(p, e.1)[j] by {
        if j < p {
            assert(pos2[j] == pos[j]);
            assert(pos.contains(pos[j]));
        } else if j > p {
            assert(pos2[j] == pos[j - 1]);
            assert(pos.contains(pos[j - 1]));
        }
    }
    assert(sorted2 =~= sorted.insert(p, e.1));
    lemma_live_slot_ids(s);
    assert(live_slot_ids(s2) == live_slot_ids(s).push(s.len() as usize));
    let o = slot_order(s, f);
    let o2 = slot_order(s2, f);
    assert forall|j: int| 0 <= j < o2.len() implies o2[j] == o.insert(p, s.len() as usize)[j] by {
        if j < p {
            assert(pos2[j] == pos[j]);
            assert(pos.contains(pos[j]));
        } else if j > p {
            assert(pos2[j] == pos[j - 1]);
            assert(pos.contains(pos[j - 1]));
        }
    }
    assert(o2 =~= o.insert(p, s.len() as usize));
}

/// A search as the list runs it.
pub(crate) enum Matcher<'a> {
    All,
    Exact(&'a [u8]),
    Padded(&'a [u8]),
    Prefix(&'a [u8]),
    Range(&'a KeyBound, &'a KeyBound),
}

impl<'a> Matcher<'a> {
    pub(crate) open spec fn spec_match(&self) -> KeyMatch {
        match self {
            Matcher::All => KeyMatch::All,
            Matcher::Exact(v) => KeyMatch::Exact(v@),
            Matcher::Padded(v) => KeyMatch::Padded(v@),
            Matcher::Prefix(v) => KeyMatch::Prefix(v@),
            Matcher::Range(lo, hi) => KeyMatch::Range(lo.spec_bound(), hi.spec_bound()),
        }
    }
}

/// Whether `key` starts with `v`.
fn has_prefix(key: &[u8], v: &[u8]) -> (b: bool)
    ensures
        b == starts_with(key@, v@),
{
    if v.len() > key.len() {
        return false;
    }
    let mut i: usize = 0;
    while i < v.len()
        invariant
            0 <= i <= v@.len(),
            v@.len() <= key@.len(),
            key@.subrange(0, i as int) == v@.subrange(0, i as int),
        decreases v@.len() - i,
    {
        if key[i] != v[i] {
            assert(key@.subrange(0, v@.len() as int)[i as int] != v@[i as int]);
            return false;
        }
        assert(key@.subrange(0, i + 1) =~= key@.subrange(0, i as int).push(key@[i as int]));
        assert(v@.subrange(0, i + 1) =~= v@.subrange(0, i as int).push(v@[i as int]));
        i = i + 1;
    }
    assert(v@.subrange(0, i as int) =~= v@);
    true
}

/// Whether `key` is kept by the search `m`.
pub(crate) fn key_matches_exec(m: &Matcher, key: &[u8]) -> (b: bool)
    ensures
        b == key_matches(m.spec_match(), key@),
{
    match m {
        Matcher::All => true,
        Matcher::Exact(v) => {
            let p = has_prefix(key, v);
            if p && key.len() == v.len() {
                assert(key@ =~= key@.subrange(0, v@.len() as int));
                true
            } else {
                proof {
                    if key@ == v@ {
                        assert(key@.subrange(0, v@.len() as int) =~= v@);
                    }
                }
                false
            }
        },
        Matcher::Padded(v) => {
            if !has_prefix(key, v) {
                return false;
            }
            let mut i: usize = v.len();
            while i < key.len()
                invariant
                    v@.len() <= i <= key@.len(),
                    m.spec_match() == KeyMatch::Padded(v@),
                    starts_with(key@, v@),
                    forall|k: int| v@.len() <= k < i ==> #[trigger] key@[k] == 0u8 || key@[k] == 32u8,
                decreases key@.len() - i,
            {
                if key[i] != 0 && key[i] != 32 {
                    assert(!(key@[i as int] == 0u8 || key@[i as int] == 32u8));
                    return false;
                }
                i = i + 1;
            }
            true
        },
        Matcher::Prefix(v) => has_prefix(key, v),
        Matcher::Range(lo, hi) => {
            let above_lo = match lo {
                KeyBound::Included(b) => lex_compare(b.as_slice(), key) <= 0,
                KeyBound::Excluded(b) => lex_compare(b.as_slice(), key) < 0,
                KeyBound::Unbounded => true,
            };
            let below_hi = match hi {
                KeyBound::Included(b) => lex_compare(key, b.as_slice()) <= 0,
                KeyBound::Excluded(b) => lex_compare(key, b.as_slice()) < 0,
                KeyBound::Unbounded => true,
            };
            above_lo && below_hi
        },
    }
}

/// Whether a bound given to `find_range_by` has `width` bytes (or is absent).
fn bound_fits_exec(b: &KeyBound, width: usize) -> (r: bool)
    ensures
        r == bound_fits(b.spec_bound(), width as int),
{
    match b {
        KeyBound::Included(v) => v.len() == width,
        KeyBound::Excluded(v) => v.len() == width,
        KeyBound::Unbounded => true,
    }
}

/// What the contracts see of stored slots.
spec fn slots_view<F: RecordLayout>(v: Seq<Slot<F>>) -> Seq<Stored> {
    Seq::new(v.len(), |i: int| (v[i].id, v[i].record@, v[i].removed))
}

/// A collection of records, each under the id it was inserted with.
///
/// Removing a record only marks it; `vacuum` drops marked records for good.
/// The list keeps an order of its ids for `iter`, which `sort` and `sort_by`
/// rearrange; the searches list their results by field value, then by id.
///
/// For each field the list keeps an index: the live slots in the order of
/// that field, slots with equal fields in storage order. `insert`, `update`
/// and `remove` move the one entry they affect; `vacuum` renumbers the slots
/// and builds the indexes afresh. The index is a sorted vector of slots rather
/// than a map from field values: fields of different widths are different
/// types, which code generic over the record layout cannot name, and a map
/// keyed by them would rest on an ordering the proofs cannot see.
pub struct RecordList<F: RecordLayout> {
    slots: Vec<Slot<F>>,
    next_id: usize,
    order: Vec<usize>,
    indexes: Vec<Vec<usize>>,
}

/// `idx` indexes field `f` of the stored records `s`: it lists slots, in the
/// order in which `sorted_by_field` lists the live records, each slot holding
/// the record at its place.
pub open spec fn index_agrees<F: RecordLayout>(s: Seq<Stored>, idx: Seq<usize>, f: F) -> bool {
    &&& idx.len() == sorted_by_field(s, f).len()
    &&& forall|j: int| 0 <= j < idx.len() ==> (#[trigger] idx[j] as int) < s.len()
        && s[idx[j] as int].1 == sorted_by_field(s, f)[j]
}

impl<F: RecordLayout> RecordList<F> {
    /// The stored records, in id order.
    pub closed spec fn stored(&self) -> Seq<Stored> {
        slots_view(self.slots@)
    }

    /// The ids in the order `iter` follows.
    pub closed spec fn order(&self) -> Seq<usize> {
        self.order@
    }

    /// The id the next inserted record gets.
    pub closed spec fn next_id(&self) -> usize {
        self.next_id
    }

    /// The stored records and the order fit in memory.
    pub proof fn lemma_sizes(&self)
        ensures
            self.stored().len() <= usize::MAX,
            self.order().len() <= usize::MAX,
    {
        assert(self.slots.len() == self.slots@.len());
        assert(self.order.len() == self.order@.len());
    }

    /// The per-field indexes: one for each field, in declaration order, each
    /// listing the live slots ordered by that field, slots with equal fields
    /// in storage order.
    pub closed spec fn indexed(&self) -> bool {
        &&& self.indexes@.len() == F::spec_fields().len()
        &&& forall|k: int|
            0 <= k < self.indexes@.len() ==> #[trigger] self.indexes@[k]@ == slot_order(
                self.stored(),
                F::spec_fields()[k],
            )
    }

    /// The index kept for field `f`: slots, in the order of that field.
    pub closed spec fn field_index(&self, f: F) -> Seq<usize> {
        self.indexes@[f.spec_index()]@
    }

    /// The index of every field lists exactly the live slots, ordered by that
    /// field, slots with equal fields in storage order; their records are
    /// the records `sorted_by_field` lists.
    pub proof fn lemma_field_index(&self, f: F)
        requires
            self.wf(),
        ensures
            self.field_index(f) == slot_order(self.stored(), f),
            index_agrees(self.stored(), self.field_index(f), f),
    {
        F::lemma_layout();
        assert(F::spec_fields()[f.spec_index()].spec_index() == f.spec_index());
        self.lemma_sizes();
        lemma_slot_order_agrees(self.stored(), f);
    }

    /// The list's invariant holds, and its field indexes agree with its records.
    pub open spec fn wf(&self) -> bool {
        &&& list_wf::<F>(self.stored(), self.order(), self.next_id())
        &&& self.indexed()
    }

    /// Puts the last stored slot, just added and live, into every field index
    /// where its field sorts: after the fields that are not greater.
    fn index_last_slot(&mut self, Ghost(s0): Ghost<Seq<Stored>>)
        requires
            old(self).stored().len() == s0.len() + 1,
            old(self).stored().drop_last() == s0,
            !old(self).stored().last().2,
            old(self).stored().len() <= usize::MAX,
            old(self).indexes@.len() == F::spec_fields().len(),
            forall|k: int|
                0 <= k < old(self).indexes@.len() ==> #[trigger] old(self).indexes@[k]@ == slot_order(
                    s0,
                    F::spec_fields()[k],
                ),
        ensures
            final(self).stored() == old(self).stored(),
            final(self).order() == old(self).order(),
            final(self).next_id() == old(self).next_id(),
            final(self).indexed(),
    {
        proof {
            F::lemma_layout();
        }
        let ghost st = self.stored();
        let ghost e = st.last();
        assert(st =~= s0.push(e));
        let fields = F::all_fields();
        let last = self.slots.len() - 1;
        let mut k: usize = 0;
        while k < fields.len()
            invariant
                0 <= k <= fields@.len(),
                fields@ == F::spec_fields(),
                st == self.stored(),
                st == s0.push(e),
                !e.2,
                st.len() <= usize::MAX,
                last == st.len() - 1,
                self.slots@.len() == st.len(),
                self.order() == old(self).order(),
                self.next_id() == old(self).next_id(),
                self.indexes@.len() == F::spec_fields().len(),
                forall|q: int| 0 <= q < k ==> #[trigger] self.indexes@[q]@ == slot_order(st, F::spec_fields()[q]),
                forall|q: int|
                    k <= q < self.indexes@.len() ==> #[trigger] self.indexes@[q]@ == slot_order(s0, F::spec_fields()[q]),
            decreases fields@.len() - k,
        {
            let f = fields[k];
            let ghost sorted = sorted_by_field(s0, f);
            let ghost idx = self.indexes@[k as int]@;
            proof {
                assert(idx == slot_order(s0, F::spec_fields()[k as int]));
                lemma_slot_order_agrees(s0, f);
            }
            assert(st[last as int] == e);
            assert(st[last as int].1 == self.slots@[last as int].record@);
            let key = self.slots[last].record.get_field_bytes(f);
            let mut p: usize = 0;
            while p < self.indexes[k].len() && lex_compare(
                key,
                self.slots[self.indexes[k][p]].record.get_field_bytes(f),
            ) >= 0
                invariant
                    0 <= p <= idx.len(),
                    k < self.indexes@.len(),
                    f == F::spec_fields()[k as int],
                    sorted == sorted_by_field(s0, f),
                    idx == self.indexes@[k as int]@,
                    index_agrees(s0, idx, f),
                    st == self.stored(),
                    st == s0.push(e),
                    self.slots@.len() == st.len(),
                    key@ == field_view(e.1, F::spec_widths(), f.spec_index()),
                    forall|q: int|
                        0 <= q < p ==> lex_order(
                            key@,
                            field_view(#[trigger] sorted[q], F::spec_widths(), f.spec_index()),
                        ) >= 0,
                decreases idx.len() - p,
            {
                assert(st[idx[p as int] as int] == s0[idx[p as int] as int]);
                assert(self.slots@[idx[p as int] as int].record@ == s0[idx[p as int] as int].1);
                p = p + 1;
            }
            proof {
                if p < idx.len() {
                    assert(st[idx[p as int] as int] == s0[idx[p as int] as int]);
                    assert(self.slots@[idx[p as int] as int].record@ == s0[idx[p as int] as int].1);
                }
                lemma_sorted_by_field_push(s0, e, f, p as int);
            }
            self.indexes[k].insert(p, last);
            proof {
                let idx2 = self.indexes@[k as int]@;
                assert(idx2 == idx.insert(p as int, last));
                assert(last == s0.len());
            }
            k = k + 1;
        }
    }

    /// Takes slot `i`, just marked removed, out of every field index.
    fn unindex_slot(&mut self, i: usize, Ghost(s0): Ghost<Seq<Stored>>)
        requires
            0 <= i < s0.len(),
            !s0[i as int].2,
            s0.len() <= usize::MAX,
            old(self).stored() == s0.update(i as int, (s0[i as int].0, s0[i as int].1, true)),
            old(self).indexes@.len() == F::spec_fields().len(),
            forall|k: int|
                0 <= k < old(self).indexes@.len() ==> #[trigger] old(self).indexes@[k]@ == slot_order(
                    s0,
                    F::spec_fields()[k],
                ),
        ensures
            final(self).stored() == old(self).stored(),
            final(self).order() == old(self).order(),
            final(self).next_id() == old(self).next_id(),
            final(self).indexed(),
    {
        let ghost st = self.stored();
        let n = self.indexes.len();
        let mut k: usize = 0;
        while k < n
            invariant
                0 <= k <= n,
                n == self.indexes@.len(),
                n == F::spec_fields().len(),
                0 <= i < s0.len(),
                !s0[i as int].2,
                s0.len() <= usize::MAX,
                st == s0.update(i as int, (s0[i as int].0, s0[i as int].1, true)),
                st == self.stored(),
                self.order() == old(self).order(),
                self.next_id() == old(self).next_id(),
                forall|q: int| 0 <= q < k ==> #[trigger] self.indexes@[q]@ == slot_order(st, F::spec_fields()[q]),
                forall|q: int| k <= q < n ==> #[trigger] self.indexes@[q]@ == slot_order(s0, F::spec_fields()[q]),
            decreases n - k,
        {
            let ghost f = F::spec_fields()[k as int];
            let ghost idx = self.indexes@[k as int]@;
            let ghost q0 = lemma_slot_in_order(s0, i as int, f);
            assert(idx == slot_order(s0, f));
            let mut q: usize = 0;
            while q < self.indexes[k].len() && self.indexes[k][q] != i
                invariant
                    0 <= q <= idx.len(),
                    k < self.indexes@.len(),
                    idx == self.indexes@[k as int]@,
                    0 <= q0 < idx.len(),
                    idx[q0] == i,
                    forall|j: int| 0 <= j < q ==> #[trigger] idx[j] != i,
                decreases idx.len() - q,
            {
                q = q + 1;
            }
            proof {
                if q >= idx.len() {
                    assert(idx[q0] != i);
                }
                lemma_slot_order_remove(s0, i as int, f, q as int);
            }
            self.indexes[k].remove(q);
            assert(self.indexes@[k as int]@ == idx.remove(q as int));
            k = k + 1;
        }
    }

    /// Moves slot `i`, whose record was just replaced, to its new place in
    /// every field index.
    fn reindex_slot(&mut self, i: usize, Ghost(s0): Ghost<Seq<Stored>>)
        requires
            0 <= i < s0.len(),
            !s0[i as int].2,
            s0.len() <= usize::MAX,
            old(self).stored().len() == s0.len(),
            !old(self).stored()[i as int].2,
            old(self).stored()[i as int].0 == s0[i as int].0,
            forall|j: int| 0 <= j < s0.len() && j != i ==> old(self).stored()[j] == s0[j],
            old(self).indexes@.len() == F::spec_fields().len(),
            forall|k: int|
                0 <= k < old(self).indexes@.len() ==> #[trigger] old(self).indexes@[k]@ == slot_order(
                    s0,
                    F::spec_fields()[k],
                ),
        ensures
            final(self).stored() == old(self).stored(),
            final(self).order() == old(self).order(),
            final(self).next_id() == old(self).next_id(),
            final(self).indexed(),
    {
        proof {
            F::lemma_layout();
        }
        let ghost st = self.stored();
        let ghost mark0 = (s0[i as int].0, s0[i as int].1, true);
        let ghost mark1 = (st[i as int].0, st[i as int].1, true);
        assert(st =~= s0.update(i as int, st[i as int]));
        assert(st.update(i as int, mark1) =~= s0.update(i as int, mark1));
        let fields = F::all_fields();
        let n = self.indexes.len();
        let mut k: usize = 0;
        while k < n
            invariant
                0 <= k <= n,
                n == self.indexes@.len(),
                n == F::spec_fields().len(),
                fields@ == F::spec_fields(),
                0 <= i < s0.len(),
                !s0[i as int].2,
                s0.len() <= usize::MAX,
                st == self.stored(),
                st.len() == s0.len(),
                !st[i as int].2,
                mark0 == (s0[i as int].0, s0[i as int].1, true),
                mark1 == (st[i as int].0, st[i as int].1, true),
                st.update(i as int, mark1) == s0.update(i as int, mark1),
                self.slots@.len() == st.len(),
                self.order() == old(self).order(),
                self.next_id() == old(self).next_id(),
                forall|q: int| 0 <= q < k ==> #[trigger] self.indexes@[q]@ == slot_order(st, F::spec_fields()[q]),
                forall|q: int| k <= q < n ==> #[trigger] self.indexes@[q]@ == slot_order(s0, F::spec_fields()[q]),
            decreases n - k,
        {
            let f = fields[k];
            let ghost idx = self.indexes@[k as int]@;
            let ghost q0 = lemma_slot_in_order(s0, i as int, f);
            assert(idx == slot_order(s0, f));
            let mut q: usize = 0;
            while q < self.indexes[k].len() && self.indexes[k][q] != i
                invariant
                    0 <= q <= idx.len(),
                    k < self.indexes@.len(),
                    idx == self.indexes@[k as int]@,
                    0 <= q0 < idx.len(),
                    idx[q0] == i,
                    forall|j: int| 0 <= j < q ==> #[trigger] idx[j] != i,
                decreases idx.len() - q,
            {
                q = q + 1;
            }
            let ghost idx2 = idx.remove(q as int);
            let ghost q1 = lemma_slot_in_order(st, i as int, f);
            proof {
                if q >= idx.len() {
                    assert(idx[q0] != i);
                }
                lemma_slot_order_remove(s0, i as int, f, q as int);
                lemma_removed_content(s0, i as int, mark0, mark1, f);
                lemma_slot_order_remove(st, i as int, f, q1);
                // `idx2` is the index of `st` without `i`, which stands at `q1`.
                assert(idx2 == slot_order(st, f).remove(q1));
                self.lemma_sizes();
            }
            self.indexes[k].remove(q);
            assert(self.indexes@[k as int]@ == idx2);
            let key = self.slots[i].record.get_field_bytes(f);
            let ghost o = slot_order(st, f);
            let ghost kf = |x: usize| field_view(st[x as int].1, F::spec_widths(), f.spec_index());
            proof {
                lemma_slot_order_agrees(st, f);
                assert(key@ == kf(i));
            }
            let mut p: usize = 0;
            while p < self.indexes[k].len() && sorts_after(
                key,
                i,
                self.slots[self.indexes[k][p]].record.get_field_bytes(f),
                self.indexes[k][p],
            )
                invariant
                    0 <= p <= idx2.len(),
                    k < self.indexes@.len(),
                    idx2 == self.indexes@[k as int]@,
                    idx2 == o.remove(q1),
                    o == slot_order(st, f),
                    0 <= q1 < o.len(),
                    o[q1] == i,
                    p <= q1,
                    st == self.stored(),
                    self.slots@.len() == st.len(),
                    st.len() <= usize::MAX,
                    key@ == kf(i),
                    kf == (|x: usize| field_view(st[x as int].1, F::spec_widths(), f.spec_index())),
                    index_agrees(st, o, f),
                decreases idx2.len() - p,
            {
                proof {
                    if p == q1 {
                        // the entry after `i` sorts after it
                        assert(idx2[p as int] == o[q1 + 1]);
                        assert(st[o[q1 + 1] as int].1 == self.slots@[o[q1 + 1] as int].record@);
                        lemma_slot_order_sorted(st, f, q1, q1 + 1);
                        crate::order::lemma_lex_basics(kf(i), kf(o[q1 + 1]));
                        assert(false);
                    }
                }
                p = p + 1;
            }
            proof {
                if p < q1 {
                    assert(idx2[p as int] == o[p as int]);
                    lemma_slot_order_sorted(st, f, p as int, q1);
                    crate::order::lemma_lex_basics(kf(o[p as int]), kf(i));
                }
                assert(o.remove(q1).insert(q1, i) =~= o);
            }
            self.indexes[k].insert(p, i);
            assert(self.indexes@[k as int]@ == o);
            k = k + 1;
        }
    }

    /// Builds the index of every field afresh from the stored records.
    fn rebuild_indexes(&mut self)
        ensures
            final(self).stored() == old(self).stored(),
            final(self).order() == old(self).order(),
            final(self).next_id() == old(self).next_id(),
            final(self).indexed(),
    {
        proof {
            F::lemma_layout();
        }
        let fields = F::all_fields();
        let mut idx: Vec<Vec<usize>> = Vec::new();
        let mut k: usize = 0;
        while k < fields.len()
            invariant
                0 <= k <= fields@.len(),
                fields@ == F::spec_fields(),
                idx@.len() == k,
                forall|q: int| 0 <= q < k ==> #[trigger] idx@[q]@ == slot_order(self.stored(), F::spec_fields()[q]),
            decreases fields@.len() - k,
        {
            let v = self.sorted_slots(fields[k]);
            idx.push(v);
            k = k + 1;
        }
        self.indexes = idx;
    }

    /// An empty list.
    pub fn new() -> (l: Self)
        ensures
            l.wf(),
            l.stored() == Seq::<Stored>::empty(),
            l.order() == Seq::<usize>::empty(),
            l.next_id() == 0,
    {
        let mut l = RecordList { slots: Vec::new(), next_id: 0, order: Vec::new(), indexes: Vec::new() };
        assert(l.stored() =~= Seq::<Stored>::empty());
        l.rebuild_indexes();
        l
    }

    /// The number of live records.
    pub fn len(&self) -> (n: usize)
        ensures
            n == live(self.stored()).len(),
    {
        let ghost s = self.stored();
        let mut n: usize = 0;
        let mut k: usize = 0;
        assert(s.subrange(0, 0).len() == 0);
        while k < self.slots.len()
            invariant
                0 <= k <= self.slots@.len(),
                s == self.stored(),
                n == live(s.subrange(0, k as int)).len(),
                n <= k,
            decreases self.slots@.len() - k,
        {
            assert(s.subrange(0, k + 1).drop_last() =~= s.subrange(0, k as int));
            if !self.slots[k].removed {
                n = n + 1;
            }
            k = k + 1;
        }
        assert(s.subrange(0, k as int) =~= s);
        n
    }

    /// Whether there is no live record.
    pub fn is_empty(&self) -> (b: bool)
        ensures
            b == (live(self.stored()).len() == 0),
    {
        self.len() == 0
    }

    /// Whether another record can be inserted: ids are not used up.
    pub fn has_room(&self) -> (b: bool)
        ensures
            b == (self.next_id() < usize::MAX),
    {
        self.next_id < usize::MAX
    }

    /// Stores `record` under the next id and appends the id to the order.
    pub fn insert(&mut self, record: Record<F>) -> (id: usize)
        requires
            old(self).wf(),
            old(self).next_id() < usize::MAX,
        ensures
            final(self).wf(),
            id == old(self).next_id(),
            final(self).stored() == old(self).stored().push((id, record@, false)),
            final(self).order() == old(self).order().push(id),
            final(self).next_id() == id + 1,
    {
        proof {
            use_type_invariant(&record);
            record.lemma_len();
        }
        let ghost s0 = self.stored();
        let ghost r = record@;
        let id = self.next_id;
        self.next_id = id + 1;
        self.slots.push(Slot { id, record, removed: false });
        self.order.push(id);
        proof {
            let s = self.stored();
            let o = self.order@;
            assert(s =~= s0.push((id, r, false)));
            assert forall|a: int, b: int| 0 <= a < b < o.len() implies #[trigger] o[a] != #[trigger] o[b] by {
                if b == o.len() - 1 {
                    assert(old(self).order@[a] == o[a]);
                    assert(is_stored(s0, old(self).order@[a]));
                    let i = choose|i: int| has_id(s0, old(self).order@[a], i);
                    assert(s0[i].0 < id);
                }
            }
            assert forall|i: int, j: int| 0 <= i < j < s.len() implies #[trigger] s[i].0 < #[trigger] s[j].0 by {
                if j == s.len() - 1 {
                    assert(s0[i].0 < id);
                } else {
                    assert(s0[i] == s[i] && s0[j] == s[j]);
                }
            }
            assert forall|a: int| 0 <= a < o.len() implies is_stored(s, #[trigger] o[a]) by {
                if a < o.len() - 1 {
                    assert(old(self).order@[a] == o[a]);
                    assert(is_stored(s0, old(self).order@[a]));
                    let i = choose|i: int| has_id(s0, old(self).order@[a], i);
                    assert(has_id(s, o[a], i));
                } else {
                    assert(has_id(s, o[a], s.len() - 1));
                }
            }
            assert forall|i: int| 0 <= i < s.len() && !s[i].2 implies is_listed(o, #[trigger] s[i].0) by {
                if i < s.len() - 1 {
                    assert(s0[i] == s[i]);
                    assert(is_listed(old(self).order@, s0[i].0));
                    let a = choose|a: int| 0 <= a < old(self).order@.len() && old(self).order@[a] == s[i].0;
                    assert(o[a] == s[i].0);
                } else {
                    assert(o[o.len() - 1] == s[i].0);
                }
            }
            assert(list_wf::<F>(s, o, self.next_id));
        }
        proof {
            assert(self.stored().drop_last() =~= s0);
            self.lemma_sizes();
        }
        self.index_last_slot(Ghost(s0));
        id
    }

    /// Where the record with id `id` is stored, if it is.
    fn find_slot(&self, id: usize) -> (r: Option<usize>)
        requires
            self.wf(),
        ensures
            match r {
                Some(i) => has_id(self.stored(), id, i as int),
                None => !is_stored(self.stored(), id),
            },
    {
        let ghost s = self.stored();
        let mut k: usize = 0;
        while k < self.slots.len()
            invariant
                0 <= k <= self.slots@.len(),
                s == self.stored(),
                forall|i: int| 0 <= i < k ==> !has_id(s, id, i),
            decreases self.slots@.len() - k,
        {
            if self.slots[k].id == id {
                return Some(k);
            }
            k = k + 1;
        }
        None
    }

    /// The live record with id `id`; `None` when there is none or it was removed.
    pub fn get(&self, id: usize) -> (r: Option<&Record<F>>)
        requires
            self.wf(),
        ensures
            match r {
                Some(rec) => live_record(self.stored(), id) == Some(rec@),
                None => live_record(self.stored(), id) is None,
            },
    {
        match self.find_slot(id) {
            Some(i) => {
                proof {
                    lemma_live_record_at(self.stored(), id, i as int);
                }
                if self.slots[i].removed {
                    None
                } else {
                    Some(&self.slots[i].record)
                }
            },
            None => {
                proof {
                    lemma_not_stored(self.stored(), id);
                }
                None
            },
        }
    }

    /// Replaces the live record with id `id` by `record`; `false`, and nothing
    /// changes, when there is no live record with that id.
    pub fn update(&mut self, id: usize, record: Record<F>) -> (b: bool)
        requires
            old(self).wf(),
        ensures
            final(self).wf(),
            b == (live_record(old(self).stored(), id) is Some),
            b ==> final(self).stored() == old(self).stored().update(
                index_of(old(self).stored(), id),
                (id, record@, false),
            ),
            !b ==> final(self).stored() == old(self).stored(),
            final(self).order() == old(self).order(),
            final(self).next_id() == old(self).next_id(),
    {
        proof {
            use_type_invariant(&record);
            record.lemma_len();
        }
        let ghost s0 = self.stored();
        let ghost r = record@;
        match self.find_slot(id) {
            Some(i) => {
                proof {
                    lemma_live_record_at(s0, id, i as int);
                }
                if self.slots[i].removed {
                    false
                } else {
                    self.slots.set(i, Slot { id, record, removed: false });
                    proof {
                        let s = self.stored();
                        assert(s =~= s0.update(i as int, (id, r, false)));
                        self.lemma_same_ids_wf(s0, i as int);
                        old(self).lemma_sizes();
                    }
                    self.reindex_slot(i, Ghost(s0));
                    true
                }
            },
            None => {
                proof {
                    lemma_not_stored(s0, id);
                }
                false
            },
        }
    }

    /// Marks the live record with id `id` as removed; `false`, and nothing
    /// changes, when there is no live record with that id. The record keeps its
    /// place until `vacuum`.
    pub fn remove(&mut self, id: usize) -> (b: bool)
        requires
            old(self).wf(),
        ensures
            final(self).wf(),
            b == (live_record(old(self).stored(), id) is Some),
            b ==> final(self).stored() == old(self).stored().update(
                index_of(old(self).stored(), id),
                (id, old(self).stored()[index_of(old(self).stored(), id)].1, true),
            ),
            !b ==> final(self).stored() == old(self).stored(),
            final(self).order() == old(self).order(),
            final(self).next_id() == old(self).next_id(),
    {
        let ghost s0 = self.stored();
        match self.find_slot(id) {
            Some(i) => {
                proof {
                    lemma_live_record_at(s0, id, i as int);
                }
                if self.slots[i].removed {
                    false
                } else {
                    self.slots[i].removed = true;
                    proof {
                        let s = self.stored();
                        assert(s =~= s0.update(i as int, (id, s0[i as int].1, true)));
                        self.lemma_same_ids_wf(s0, i as int);
                        old(self).lemma_sizes();
                    }
                    self.unindex_slot(i, Ghost(s0));
                    true
                }
            },
            None => {
                proof {
                    lemma_not_stored(s0, id);
                }
                false
            },
        }
    }

    /// After one stored record changed at `i` and kept its id and its
    /// length, the invariant still holds (the order may now list a removed id).
    proof fn lemma_same_ids_wf(&self, s0: Seq<Stored>, i: int)
        requires
            list_wf::<F>(s0, self.order(), self.next_id()),
            0 <= i < s0.len(),
            self.stored().len() == s0.len(),
            self.stored()[i].0 == s0[i].0,
            self.stored()[i].1.len() == record_len::<F>(),
            !self.stored()[i].2 ==> !s0[i].2,
            forall|j: int| 0 <= j < s0.len() && j != i ==> self.stored()[j] == s0[j],
        ensures
            list_wf::<F>(self.stored(), self.order(), self.next_id()),
    {
        let s = self.stored();
        let o = self.order();
        assert forall|a: int, b: int| 0 <= a < b < s.len() implies #[trigger] s[a].0 < #[trigger] s[b].0 by {
            assert(s0[a].0 < s0[b].0);
        }
        assert forall|a: int| 0 <= a < s.len() implies #[trigger] s[a].0 < self.next_id() by {
            assert(s0[a].0 < self.next_id());
        }
        assert forall|a: int| 0 <= a < s.len() implies #[trigger] s[a].1.len() == record_len::<F>() by {
            if a != i {
                assert(s0[a].1.len() == record_len::<F>());
            }
        }
        assert forall|a: int| 0 <= a < o.len() implies is_stored(s, #[trigger] o[a]) by {
            assert(is_stored(s0, o[a]));
            let j = choose|j: int| has_id(s0, o[a], j);
            assert(has_id(s, o[a], j));
        }
        assert forall|a: int| 0 <= a < s.len() && !s[a].2 implies is_listed(o, #[trigger] s[a].0) by {
            if a == i {
                assert(is_listed(o, s0[a].0));
            } else {
                assert(is_listed(o, s0[a].0));
            }
        }
    }

    /// The ids of the order whose records are live, in the order's order.
    fn live_ids(&self) -> (r: Vec<usize>)
        requires
            self.wf(),
        ensures
            r@ == live_order(self.stored(), self.order()),
    {
        let ghost s = self.stored();
        let ghost o = self.order();
        let mut r: Vec<usize> = Vec::new();
        let mut k: usize = 0;
        assert(o.subrange(0, 0) =~= Seq::<usize>::empty());
        while k < self.order.len()
            invariant
                0 <= k <= o.len(),
                s == self.stored(),
                o == self.order(),
                self.wf(),
                r@ == live_order(s, o.subrange(0, k as int)),
            decreases o.len() - k,
        {
            let id = self.order[k];
            assert(o.subrange(0, k + 1).drop_last() =~= o.subrange(0, k as int));
            match self.find_slot(id) {
                Some(i) => {
                    proof {
                        lemma_live_record_at(s, id, i as int);
                    }
                    if !self.slots[i].removed {
                        r.push(id);
                    }
                },
                None => {
                    proof {
                        lemma_not_stored(s, id);
                    }
                },
            }
            k = k + 1;
        }
        assert(o.subrange(0, k as int) =~= o);
        r
    }

    /// The live records, in the list's current order.
    pub fn iter(&self) -> (r: Vec<&Record<F>>)
        requires
            self.wf(),
        ensures
            views(r@) == records_of(self.stored(), live_order(self.stored(), self.order())),
    {
        let ghost s = self.stored();
        let ids = self.live_ids();
        let ghost lo = ids@;
        let mut r: Vec<&Record<F>> = Vec::new();
        let mut k: usize = 0;
        proof {
            lemma_live_order(s, self.order());
        }
        while k < ids.len()
            invariant
                0 <= k <= lo.len(),
                lo == ids@,
                s == self.stored(),
                self.wf(),
                lo == live_order(s, self.order()),
                forall|j: int| 0 <= j < lo.len() ==> live_record(s, #[trigger] lo[j]) is Some,
                views(r@) == records_of(s, lo.subrange(0, k as int)),
                r@.len() == k,
            decreases lo.len() - k,
        {
            let id = ids[k];
            let rec = self.get(id);
            let ghost r0 = r@;
            match rec {
                Some(x) => {
                    r.push(x);
                    proof {
                        assert(r@ == r0.push(x));
                        assert(r@[k as int]@ == live_record(s, lo[k as int])->0);
                        assert forall|j: int| 0 <= j < k implies r@[j]@ == live_record(s, lo[j])->0 by {
                            assert(r@[j] == r0[j]);
                            assert(views(r0)[j] == records_of(s, lo.subrange(0, k as int))[j]);
                        }
                    }
                },
                None => {
                    assert(false);
                },
            }
            assert(views(r@) =~= records_of(s, lo.subrange(0, k + 1)));
            k = k + 1;
        }
        assert(lo.subrange(0, k as int) =~= lo);
        r
    }

    /// Drops the removed records for good, and their ids from the order.
    pub fn vacuum(&mut self)
        requires
            old(self).wf(),
        ensures
            final(self).wf(),
            final(self).stored() == live(old(self).stored()),
            final(self).order() == live_order(old(self).stored(), old(self).order()),
            final(self).next_id() == old(self).next_id(),
    {
        let ghost s0 = self.stored();
        let ghost o0 = self.order();
        let new_order = self.live_ids();
        let mut rest: Vec<Slot<F>> = Vec::new();
        std::mem::swap(&mut rest, &mut self.slots);
        let ghost all = rest@;
        let mut kept: Vec<Slot<F>> = Vec::new();
        let n = rest.len();
        let mut k: usize = 0;
        assert(s0.subrange(0, 0) =~= Seq::<Stored>::empty());
        while k < n
            invariant
                0 <= k <= n,
                n == all.len(),
                slots_view(all) == s0,
                rest@ == all.subrange(k as int, n as int),
                slots_view(kept@) == live(s0.subrange(0, k as int)),
            decreases n - k,
        {
            let slot = rest.remove(0);
            assert(slot == all[k as int]);
            assert(s0.subrange(0, k + 1).drop_last() =~= s0.subrange(0, k as int));
            if !slot.removed {
                kept.push(slot);
                assert(slots_view(kept@) =~= live(s0.subrange(0, k as int)).push(s0[k as int]));
            }
            assert(rest@ =~= all.subrange(k + 1, n as int));
            k = k + 1;
        }
        assert(s0.subrange(0, k as int) =~= s0);
        self.slots = kept;
        self.order = new_order;
        proof {
            lemma_vacuum_wf::<F>(s0, o0, self.next_id);
        }
        self.rebuild_indexes();
    }

    /// The bytes of the live records with the ids `ids`, as vectors.
    fn record_bytes(&self, ids: &Vec<usize>) -> (r: Vec<Vec<u8>>)
        requires
            self.wf(),
            forall|j: int| 0 <= j < ids@.len() ==> live_record(self.stored(), #[trigger] ids@[j]) is Some,
        ensures
            key_view(r) == records_of(self.stored(), ids@),
            r@.len() == ids@.len(),
    {
        let mut r: Vec<Vec<u8>> = Vec::new();
        let mut k: usize = 0;
        while k < ids.len()
            invariant
                0 <= k <= ids@.len(),
                self.wf(),
                forall|j: int| 0 <= j < ids@.len() ==> live_record(self.stored(), #[trigger] ids@[j]) is Some,
                key_view(r) == records_of(self.stored(), ids@.subrange(0, k as int)),
                r@.len() == k,
            decreases ids@.len() - k,
        {
            let id = ids[k];
            let ghost r0 = r@;
            match self.get(id) {
                Some(x) => {
                    let b = x.to_bytes();
                    r.push(b);
                    proof {
                        assert(r@ == r0.push(b));
                        assert(r@[k as int]@ == live_record(self.stored(), ids@[k as int])->0);
                        assert forall|j: int| 0 <= j < k implies r@[j]@ == live_record(self.stored(), ids@[j])->0 by {
                            assert(r@[j] == r0[j]);
                            assert(r0[j]@ == records_of(self.stored(), ids@.subrange(0, k as int))[j]);
                        }
                    }
                },
                None => {
                    assert(false);
                },
            }
            assert(key_view(r) =~= records_of(self.stored(), ids@.subrange(0, k + 1)));
            k = k + 1;
        }
        assert(ids@.subrange(0, k as int) =~= ids@);
        r
    }

    /// Sets the order to the live ids, rearranged by the sorted positions of `keys`.
    fn arrange(&mut self, ids: Vec<usize>, keys: &Vec<Vec<u8>>)
        requires
            old(self).wf(),
            ids@ == live_order(old(self).stored(), old(self).order()),
            keys@.len() == ids@.len(),
        ensures
            final(self).wf(),
            final(self).stored() == old(self).stored(),
            final(self).next_id() == old(self).next_id(),
            final(self).order() == arranged(ids@, sorted_positions(key_view(*keys))),
    {
        let pos = sort_positions(keys);
        let ghost kv = key_view(*keys);
        let mut out: Vec<usize> = Vec::new();
        let mut j: usize = 0;
        while j < pos.len()
            invariant
                0 <= j <= pos@.len(),
                sorts_positions(kv, pos@),
                kv.len() == ids@.len(),
                out@ == arranged(ids@, pos@).subrange(0, j as int),
            decreases pos@.len() - j,
        {
            assert(pos@.contains(pos@[j as int]));
            out.push(ids[pos[j]]);
            assert(out@ =~= arranged(ids@, pos@).subrange(0, j + 1));
            j = j + 1;
        }
        assert(arranged(ids@, pos@).subrange(0, j as int) =~= arranged(ids@, pos@));
        assert(kv.len() <= usize::MAX);
        proof {
            lemma_arranged_wf::<F>(self.stored(), self.order(), self.next_id, kv);
        }
        self.order = out;
    }

    /// Sorts the live records by all their fields in declaration order, which
    /// is the order of their bytes; equal records keep their relative order.
    /// Removed ids leave the order.
    pub fn sort(&mut self)
        requires
            old(self).wf(),
        ensures
            final(self).wf(),
            final(self).stored() == old(self).stored(),
            final(self).next_id() == old(self).next_id(),
            final(self).order() == arranged(
                live_order(old(self).stored(), old(self).order()),
                sorted_positions(records_of(old(self).stored(), live_order(old(self).stored(), old(self).order()))),
            ),
    {
        let ids = self.live_ids();
        proof {
            lemma_live_order(self.stored(), self.order());
        }
        let keys = self.record_bytes(&ids);
        self.arrange(ids, &keys);
    }

    /// Sorts the live records by the listed fields, the first listed field
    /// first; records equal on them keep their relative order. Removed ids
    /// leave the order.
    pub fn sort_by(&mut self, fields: &[F])
        requires
            old(self).wf(),
        ensures
            final(self).wf(),
            final(self).stored() == old(self).stored(),
            final(self).next_id() == old(self).next_id(),
            final(self).order() == arranged(
                live_order(old(self).stored(), old(self).order()),
                sorted_positions(
                    keys_by(records_of(old(self).stored(), live_order(old(self).stored(), old(self).order())), fields@),
                ),
            ),
    {
        let ids = self.live_ids();
        proof {
            lemma_live_order(self.stored(), self.order());
        }
        let ghost rs = records_of(self.stored(), ids@);
        let mut keys: Vec<Vec<u8>> = Vec::new();
        let mut k: usize = 0;
        while k < ids.len()
            invariant
                0 <= k <= ids@.len(),
                self.wf(),
                rs == records_of(self.stored(), ids@),
                forall|j: int| 0 <= j < ids@.len() ==> live_record(self.stored(), #[trigger] ids@[j]) is Some,
                key_view(keys) == keys_by(rs, fields@).subrange(0, k as int),
                keys@.len() == k,
            decreases ids@.len() - k,
        {
            let ghost r0 = keys@;
            match self.get(ids[k]) {
                Some(x) => {
                    let b = key_bytes(x, fields);
                    keys.push(b);
                    proof {
                        assert(keys@ == r0.push(b));
                        assert(rs[k as int] == live_record(self.stored(), ids@[k as int])->0);
                        assert(keys@[k as int]@ == keys_by(rs, fields@)[k as int]);
                        assert forall|j: int| 0 <= j < k implies keys@[j]@ == keys_by(rs, fields@)[j] by {
                            assert(keys@[j] == r0[j]);
                            assert(r0[j]@ == keys_by(rs, fields@).subrange(0, k as int)[j]);
                        }
                    }
                },
                None => {
                    assert(false);
                },
            }
            assert(key_view(keys) =~= keys_by(rs, fields@).subrange(0, k + 1));
            k = k + 1;
        }
        assert(keys_by(rs, fields@).subrange(0, k as int) =~= keys_by(rs, fields@));
        self.arrange(ids, &keys);
    }

    /// The indices of the live slots, in storage order.
    fn live_slots(&self) -> (r: Vec<usize>)
        ensures
            r@ == live_slot_ids(self.stored()),
            r@.len() == live(self.stored()).len(),
            forall|j: int| 0 <= j < r@.len() ==> (#[trigger] r@[j] as int) < self.stored().len()
                && self.stored()[r@[j] as int] == live(self.stored())[j],
    {
        let ghost s = self.stored();
        let mut r: Vec<usize> = Vec::new();
        let mut k: usize = 0;
        while k < self.slots.len()
            invariant
                0 <= k <= self.slots@.len(),
                s == self.stored(),
                r@.len() == live(s.subrange(0, k as int)).len(),
                r@ == live_slot_ids(s.subrange(0, k as int)),
                forall|j: int| 0 <= j < r@.len() ==> (#[trigger] r@[j] as int) < k
                    && s[r@[j] as int] == live(s.subrange(0, k as int))[j],
            decreases self.slots@.len() - k,
        {
            let ghost r0 = r@;
            assert(s.subrange(0, k + 1).drop_last() =~= s.subrange(0, k as int));
            if !self.slots[k].removed {
                r.push(k);
                assert(s.subrange(0, k + 1).last() == s[k as int]);
                assert forall|j: int| 0 <= j < r@.len() implies (#[trigger] r@[j] as int) < k + 1
                    && s[r@[j] as int] == live(s.subrange(0, k + 1))[j] by {
                    if j < r0.len() {
                        assert(r@[j] == r0[j]);
                    }
                }
            }
            k = k + 1;
        }
        assert(s.subrange(0, k as int) =~= s);
        r
    }

    /// The indices of the live slots, ordered as `sorted_by_field` orders
    /// their records.
    fn sorted_slots(&self, f: F) -> (r: Vec<usize>)
        ensures
            r@ == slot_order(self.stored(), f),
            r@.len() == sorted_by_field(self.stored(), f).len(),
            forall|j: int| 0 <= j < r@.len() ==> (#[trigger] r@[j] as int) < self.stored().len()
                && self.stored()[r@[j] as int].1 == sorted_by_field(self.stored(), f)[j],
    {
        let ghost s = self.stored();
        let idx = self.live_slots();
        let ghost rs = live_bytes(s);
        let mut keys: Vec<Vec<u8>> = Vec::new();
        let mut k: usize = 0;
        while k < idx.len()
            invariant
                0 <= k <= idx@.len(),
                s == self.stored(),
                rs == live_bytes(s),
                idx@ == live_slot_ids(s),
                idx@.len() == live(s).len(),
                forall|j: int| 0 <= j < idx@.len() ==> (#[trigger] idx@[j] as int) < s.len()
                    && s[idx@[j] as int] == live(s)[j],
                keys@.len() == k,
                key_view(keys) == field_keys(rs, f).subrange(0, k as int),
            decreases idx@.len() - k,
        {
            let ghost k0 = keys@;
            let i = idx[k];
            let b = slice_to_vec(self.slots[i].record.get_field_bytes(f));
            keys.push(b);
            proof {
                assert(self.slots@[i as int].record@ == s[i as int].1);
                assert(keys@[k as int]@ == field_keys(rs, f)[k as int]);
                assert forall|j: int| 0 <= j < k implies keys@[j]@ == field_keys(rs, f)[j] by {
                    assert(keys@[j] == k0[j]);
                    assert(k0[j]@ == field_keys(rs, f).subrange(0, k as int)[j]);
                }
            }
            assert(key_view(keys) =~= field_keys(rs, f).subrange(0, k + 1));
            k = k + 1;
        }
        assert(field_keys(rs, f).subrange(0, k as int) =~= field_keys(rs, f));
        let pos = sort_positions(&keys);
        let ghost kv = key_view(keys);
        let mut r: Vec<usize> = Vec::new();
        let mut j: usize = 0;
        while j < pos.len()
            invariant
                0 <= j <= pos@.len(),
                s == self.stored(),
                rs == live_bytes(s),
                kv == field_keys(rs, f),
                pos@ == sorted_positions(kv),
                sorts_positions(kv, pos@),
                kv.len() == idx@.len(),
                idx@.len() == live(s).len(),
                forall|q: int| 0 <= q < idx@.len() ==> (#[trigger] idx@[q] as int) < s.len()
                    && s[idx@[q] as int] == live(s)[q],
                r@.len() == j,
                idx@ == live_slot_ids(s),
                forall|q: int| 0 <= q < j ==> #[trigger] r@[q] == live_slot_ids(s)[pos@[q] as int],
                forall|q: int| 0 <= q < j ==> (#[trigger] r@[q] as int) < s.len()
                    && s[r@[q] as int].1 == sorted_by_field(s, f)[q],
            decreases pos@.len() - j,
        {
            assert(pos@.contains(pos@[j as int]));
            let ghost r0 = r@;
            let p = pos[j];
            r.push(idx[p]);
            assert forall|q: int| 0 <= q < j + 1 implies (#[trigger] r@[q] as int) < s.len()
                && s[r@[q] as int].1 == sorted_by_field(s, f)[q] by {
                if q < j {
                    assert(r@[q] == r0[q]);
                } else {
                    assert(r@[q] == idx@[p as int]);
                    assert(rs[p as int] == live(s)[p as int].1);
                }
            }
            j = j + 1;
        }
        r
    }

    /// The live records ordered by field `f` that the search `m` keeps.
    fn collect(&self, f: F, m: &Matcher) -> (r: Vec<&Record<F>>)
        requires
            self.indexed(),
        ensures
            views(r@) == matching(sorted_by_field(self.stored(), f), f, m.spec_match()),
    {
        let ghost s = self.stored();
        let ghost sorted = sorted_by_field(s, f);
        proof {
            F::lemma_layout();
            assert(F::spec_fields()[f.spec_index()].spec_index() == f.spec_index());
            assert(F::spec_fields()[f.spec_index()] == f);
            self.lemma_sizes();
            lemma_slot_order_agrees(s, f);
        }
        let order = &self.indexes[f.index()];
        let mut r: Vec<&Record<F>> = Vec::new();
        let mut j: usize = 0;
        assert(sorted.subrange(0, 0).len() == 0);
        while j < order.len()
            invariant
                0 <= j <= order@.len(),
                s == self.stored(),
                sorted == sorted_by_field(s, f),
                order@.len() == sorted.len(),
                forall|q: int| 0 <= q < order@.len() ==> (#[trigger] order@[q] as int) < s.len()
                    && s[order@[q] as int].1 == sorted[q],
                views(r@) == matching(sorted.subrange(0, j as int), f, m.spec_match()),
            decreases order@.len() - j,
        {
            let i = order[j];
            let rec = &self.slots[i].record;
            let ghost r0 = r@;
            assert(sorted.subrange(0, j + 1).drop_last() =~= sorted.subrange(0, j as int));
            assert(rec@ == sorted[j as int]);
            if key_matches_exec(m, rec.get_field_bytes(f)) {
                r.push(rec);
                assert(views(r@) =~= views(r0).push(rec@));
            }
            j = j + 1;
        }
        assert(sorted.subrange(0, j as int) =~= sorted);
        r
    }

    /// The live records ordered by field `f`, records with equal fields by id.
    pub fn iter_sorted_by(&self, field: F) -> (r: Vec<&Record<F>>)
        requires
            self.wf(),
        ensures
            views(r@) == sorted_by_field(self.stored(), field),
    {
        proof {
            lemma_matching_all(sorted_by_field(self.stored(), field), field);
        }
        self.collect(field, &Matcher::All)
    }

    /// The live records whose field `field` equals `value`, by id. A value of
    /// another width than the field matches nothing.
    pub fn find_by(&self, field: F, value: &[u8]) -> (r: Vec<&Record<F>>)
        requires
            self.wf(),
        ensures
            views(r@) == matching(sorted_by_field(self.stored(), field), field, KeyMatch::Exact(value@)),
    {
        self.collect(field, &Matcher::Exact(value))
    }

    /// The `FieldOverflow` error for a search value wider than `field`.
    fn overflow(field: F, actual: usize) -> (e: Error)
        ensures
            e == (Error::FieldOverflow { field: field.spec_name(), size: width_of(field) as usize, actual }),
    {
        Error::FieldOverflow { field: field.name(), size: Record::<F>::size_of(field), actual }
    }

    /// The live records whose field `field` starts with `value` followed only
    /// by `0x00` or space bytes, ordered by that field, then by id.
    /// `FieldOverflow` when `value` is wider than the field.
    pub fn try_find_by(&self, field: F, value: &[u8]) -> (r: Result<Vec<&Record<F>>, Error>)
        requires
            self.wf(),
        ensures
            value@.len() > width_of(field) ==> r == Err::<Vec<&Record<F>>, Error>(
                Error::FieldOverflow { field: field.spec_name(), size: width_of(field) as usize, actual: value@.len() as usize },
            ),
            value@.len() <= width_of(field) ==> r is Ok && views(r->Ok_0@) == matching(
                sorted_by_field(self.stored(), field),
                field,
                KeyMatch::Padded(value@),
            ),
    {
        if value.len() > Record::<F>::size_of(field) {
            return Err(Self::overflow(field, value.len()));
        }
        Ok(self.collect(field, &Matcher::Padded(value)))
    }

    /// The live records whose field `field` starts with `value`, ordered by
    /// that field, then by id. `FieldOverflow` when `value` is wider than the
    /// field.
    pub fn try_find_by_prefix(&self, field: F, value: &[u8]) -> (r: Result<Vec<&Record<F>>, Error>)
        requires
            self.wf(),
        ensures
            value@.len() > width_of(field) ==> r == Err::<Vec<&Record<F>>, Error>(
                Error::FieldOverflow { field: field.spec_name(), size: width_of(field) as usize, actual: value@.len() as usize },
            ),
            value@.len() <= width_of(field) ==> r is Ok && views(r->Ok_0@) == matching(
                sorted_by_field(self.stored(), field),
                field,
                KeyMatch::Prefix(value@),
            ),
    {
        if value.len() > Record::<F>::size_of(field) {
            return Err(Self::overflow(field, value.len()));
        }
        Ok(self.collect(field, &Matcher::Prefix(value)))
    }

    /// The live records whose field `field` lies between `start` and `end`,
    /// ordered by that field, then by id. Bounds of another width than the
    /// field match nothing. Once a record has been inserted, the start must
    /// not lie after the end, nor equal it with both ends left out.
    pub fn find_range_by(&self, field: F, start: &KeyBound, end: &KeyBound) -> (r: Vec<&Record<F>>)
        requires
            self.wf(),
            self.next_id() > 0 && bound_fits(start.spec_bound(), width_of(field)) && bound_fits(
                end.spec_bound(),
                width_of(field),
            ) ==> bounds_ordered(start.spec_bound(), end.spec_bound()),
        ensures
            bound_fits(start.spec_bound(), width_of(field)) && bound_fits(end.spec_bound(), width_of(field))
                ==> views(r@) == matching(
                sorted_by_field(self.stored(), field),
                field,
                KeyMatch::Range(start.spec_bound(), end.spec_bound()),
            ),
            !(bound_fits(start.spec_bound(), width_of(field)) && bound_fits(end.spec_bound(), width_of(field)))
                ==> r@.len() == 0,
    {
        let w = Record::<F>::size_of(field);
        if !bound_fits_exec(start, w) || !bound_fits_exec(end, w) {
            return Vec::new();
        }
        self.collect(field, &Matcher::Range(start, end))
    }

    /// The first live record ordered by field `field`, records with equal
    /// fields by id.
    pub fn first_by(&self, field: F) -> (r: Option<&Record<F>>)
        requires
            self.wf(),
        ensures
            match r {
                Some(rec) => first_of(sorted_by_field(self.stored(), field)) == Some(rec@),
                None => first_of(sorted_by_field(self.stored(), field)) is None,
            },
    {
        let all = self.iter_sorted_by(field);
        if all.len() > 0 {
            assert(views(all@)[0] == all@[0]@);
            Some(all[0])
        } else {
            None
        }
    }

    /// The first live record ordered by field `field`; the same as `first_by`.
    pub fn try_first_sorted_by(&self, field: F) -> (r: Option<&Record<F>>)
        requires
            self.wf(),
        ensures
            match r {
                Some(rec) => first_of(sorted_by_field(self.stored(), field)) == Some(rec@),
                None => first_of(sorted_by_field(self.stored(), field)) is None,
            },
    {
        self.first_by(field)
    }

    /// The first record `try_find_by` would list. `FieldOverflow` when `value`
    /// is wider than the field.
    pub fn try_first_by(&self, field: F, value: &[u8]) -> (r: Result<Option<&Record<F>>, Error>)
        requires
            self.wf(),
        ensures
            value@.len() > width_of(field) ==> r == Err::<Option<&Record<F>>, Error>(
                Error::FieldOverflow { field: field.spec_name(), size: width_of(field) as usize, actual: value@.len() as usize },
            ),
            value@.len() <= width_of(field) ==> r is Ok && match r->Ok_0 {
                Some(rec) => first_of(
                    matching(sorted_by_field(self.stored(), field), field, KeyMatch::Padded(value@)),
                ) == Some(rec@),
                None => first_of(
                    matching(sorted_by_field(self.stored(), field), field, KeyMatch::Padded(value@)),
                ) is None,
            },
    {
        match self.try_find_by(field, value) {
            Ok(all) => {
                if all.len() > 0 {
                    assert(views(all@)[0] == all@[0]@);
                    Ok(Some(all[0]))
                } else {
                    Ok(None)
                }
            },
            Err(e) => Err(e),
        }
    }

    /// The first record `try_find_by_prefix` would list. `FieldOverflow` when
    /// `value` is wider than the field.
    pub fn try_first_by_prefix(&self, field: F, value: &[u8]) -> (r: Result<Option<&Record<F>>, Error>)
        requires
            self.wf(),
        ensures
            value@.len() > width_of(field) ==> r == Err::<Option<&Record<F>>, Error>(
                Error::FieldOverflow { field: field.spec_name(), size: width_of(field) as usize, actual: value@.len() as usize },
            ),
            value@.len() <= width_of(field) ==> r is Ok && match r->Ok_0 {
                Some(rec) => first_of(
                    matching(sorted_by_field(self.stored(), field), field, KeyMatch::Prefix(value@)),
                ) == Some(rec@),
                None => first_of(
                    matching(sorted_by_field(self.stored(), field), field, KeyMatch::Prefix(value@)),
                ) is None,
            },
    {
        match self.try_find_by_prefix(field, value) {
            Ok(all) => {
                if all.len() > 0 {
                    assert(views(all@)[0] == all@[0]@);
                    Ok(Some(all[0]))
                } else {
                    Ok(None)
                }
            },
            Err(e) => Err(e),
        }
    }

    /// The ids of all stored records, removed ones included, in id order.
    pub fn all_ids(&self) -> (r: Vec<usize>)
        ensures
            r@ == ids_of(self.stored()),
    {
        let ghost s = self.stored();
        let mut r: Vec<usize> = Vec::new();
        let mut k: usize = 0;
        while k < self.slots.len()
            invariant
                0 <= k <= self.slots@.len(),
                s == self.stored(),
                r@ == ids_of(s).subrange(0, k as int),
            decreases self.slots@.len() - k,
        {
            r.push(self.slots[k].id);
            assert(r@ =~= ids_of(s).subrange(0, k + 1));
            k = k + 1;
        }
        assert(ids_of(s).subrange(0, k as int) =~= ids_of(s));
        r
    }

    /// The live record with the smallest id.
    pub fn first(&self) -> (r: Option<&Record<F>>)
        ensures
            match r {
                Some(rec) => live(self.stored()).len() > 0 && rec@ == live(self.stored())[0].1,
                None => live(self.stored()).len() == 0,
            },
    {
        let ghost s = self.stored();
        let mut k: usize = 0;
        while k < self.slots.len()
            invariant
                0 <= k <= self.slots@.len(),
                s == self.stored(),
                live(s.subrange(0, k as int)).len() == 0,
            decreases self.slots@.len() - k,
        {
            assert(s.subrange(0, k + 1).drop_last() =~= s.subrange(0, k as int));
            if !self.slots[k].removed {
                proof {
                    lemma_live_prefix(s, k as int + 1);
                    assert(live(s.subrange(0, k + 1))[0] == s[k as int]);
                }
                return Some(&self.slots[k].record);
            }
            k = k + 1;
        }
        assert(s.subrange(0, k as int) =~= s);
        None
    }
}

impl<F: RecordLayout> Default for RecordList<F> {
    /// An empty list.
    fn default() -> (l: Self)
        ensures
            l.wf(),
            l.stored() == Seq::<Stored>::empty(),
            l.order() == Seq::<usize>::empty(),
            l.next_id() == 0,
    {
        Self::new()
    }
}

} // verus!
