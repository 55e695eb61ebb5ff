use vstd::prelude::*;

use crate::field_order::{fields_order, lemma_fields_order_is_key_order};
use crate::layout::{field_view, RecordLayout};
use crate::list::{
    arranged, field_keys, has_id, ids_grow, ids_of, index_of, is_listed, keys_by, key_matches, lemma_live_complete,
    lemma_live_members, lemma_live_order, lemma_live_record_at, lemma_live_ids_grow, lemma_not_stored, live,
    list_wf, live_at, live_bytes, live_order, live_record, is_stored, matching, records_of, sorted_by_field, KeyMatch,
    RecordList, Stored,
};
use crate::order::lex_order;
use crate::record::record_len;
use crate::sorting::{lemma_sorted_positions_ascending, lemma_sorted_positions_sorts, pos_lt, sorted_positions};

verus! {

/// Changing the record at `i` without changing its id leaves every other id's
/// live record as it was.
proof fn lemma_other_ids_unchanged(s: Seq<Stored>, i: int, entry: Stored, other: usize)
    requires
        ids_grow(s),
        0 <= i < s.len(),
        entry.0 == s[i].0,
    ensures
        ids_grow(s.update(i, entry)),
        other != s[i].0 ==> live_record(s.update(i, entry), other) == live_record(s, other),
{
    let t = s.update(i, entry);
    assert forall|a: int, b: int| 0 <= a < b < t.len() implies #[trigger] t[a].0 < #[trigger] t[b].0 by {
        assert(s[a].0 < s[b].0);
    }
    if other == s[i].0 {
    } else if is_stored(s, other) {
        let j = choose|j: int| has_id(s, other, j);
        assert(has_id(t, other, j));
        lemma_live_record_at(s, other, j);
        lemma_live_record_at(t, other, j);
    } else {
        lemma_not_stored(s, other);
        assert forall|j: int| !has_id(t, other, j) by {
            if has_id(t, other, j) {
                assert(has_id(s, other, j));
            }
        }
        lemma_not_stored(t, other);
    }
}

/// A record inserted under the next id is the live record of that id; the
/// other ids keep theirs.
pub proof fn law_insert_then_get<F: RecordLayout>(l: RecordList<F>, bytes: Seq<u8>)
    requires
        l.wf(),
    ensures
        live_record(l.stored().push((l.next_id(), bytes, false)), l.next_id()) == Some(bytes),
        forall|other: usize|
            other != l.next_id() ==> #[trigger] live_record(l.stored().push((l.next_id(), bytes, false)), other)
                == live_record(l.stored(), other),
{
    let s = l.stored();
    let t = s.push((l.next_id(), bytes, false));
    assert forall|a: int, b: int| 0 <= a < b < t.len() implies #[trigger] t[a].0 < #[trigger] t[b].0 by {
        if b == t.len() - 1 {
            assert(s[a].0 < l.next_id());
        } else {
            assert(s[a].0 < s[b].0);
        }
    }
    lemma_live_record_at(t, l.next_id(), t.len() - 1);
    assert forall|other: usize| other != l.next_id() implies #[trigger] live_record(t, other) == live_record(s, other) by {
        if is_stored(s, other) {
            let j = choose|j: int| has_id(s, other, j);
            assert(has_id(t, other, j));
            lemma_live_record_at(s, other, j);
            lemma_live_record_at(t, other, j);
        } else {
            lemma_not_stored(s, other);
            assert forall|j: int| !has_id(t, other, j) by {
                if has_id(t, other, j) && j < s.len() {
                    assert(has_id(s, other, j));
                }
            }
            lemma_not_stored(t, other);
        }
    }
}

/// After `update` of a live id, that id reads back the new record; the other
/// ids keep theirs.
pub proof fn law_update_then_get<F: RecordLayout>(l: RecordList<F>, id: usize, bytes: Seq<u8>)
    requires
        l.wf(),
        live_record(l.stored(), id) is Some,
    ensures
        live_record(l.stored().update(index_of(l.stored(), id), (id, bytes, false)), id) == Some(bytes),
        forall|other: usize|
            other != id ==> #[trigger] live_record(
                l.stored().update(index_of(l.stored(), id), (id, bytes, false)),
                other,
            ) == live_record(l.stored(), other),
{
    let s = l.stored();
    let i = choose|i: int| live_at(s, id, i);
    lemma_live_record_at(s, id, i);
    let t = s.update(i, (id, bytes, false));
    assert forall|other: usize| other != id implies #[trigger] live_record(t, other) == live_record(s, other) by {
        lemma_other_ids_unchanged(s, i, (id, bytes, false), other);
    }
    lemma_other_ids_unchanged(s, i, (id, bytes, false), 0);
    lemma_live_record_at(t, id, i);
}

/// After `remove` of a live id, that id has no live record, though it is still
/// stored; the other ids keep theirs.
pub proof fn law_remove_then_get<F: RecordLayout>(l: RecordList<F>, id: usize)
    requires
        l.wf(),
        live_record(l.stored(), id) is Some,
    ensures
        live_record(
            l.stored().update(index_of(l.stored(), id), (id, l.stored()[index_of(l.stored(), id)].1, true)),
            id,
        ) is None,
        ids_of(
            l.stored().update(index_of(l.stored(), id), (id, l.stored()[index_of(l.stored(), id)].1, true)),
        ) == ids_of(l.stored()),
        forall|other: usize|
            other != id ==> #[trigger] live_record(
                l.stored().update(index_of(l.stored(), id), (id, l.stored()[index_of(l.stored(), id)].1, true)),
                other,
            ) == live_record(l.stored(), other),
{
    let s = l.stored();
    let i = choose|i: int| live_at(s, id, i);
    lemma_live_record_at(s, id, i);
    let e = (id, s[i].1, true);
    let t = s.update(i, e);
    assert forall|other: usize| other != id implies #[trigger] live_record(t, other) == live_record(s, other) by {
        lemma_other_ids_unchanged(s, i, e, other);
    }
    lemma_other_ids_unchanged(s, i, e, 0);
    lemma_live_record_at(t, id, i);
    assert(ids_of(t) =~= ids_of(s));
}

/// Dropping the removed records changes the live record of no id.
proof fn lemma_vacuum_record(s: Seq<Stored>, id: usize)
    requires
        ids_grow(s),
    ensures
        live_record(live(s), id) == live_record(s, id),
{
    let v = live(s);
    lemma_live_ids_grow(s);
    if exists|i: int| live_at(s, id, i) {
        let i = choose|i: int| live_at(s, id, i);
        lemma_live_record_at(s, id, i);
        let j = lemma_kept_index(s, i);
        lemma_live_record_at(v, id, j);
    } else {
        assert forall|j: int| !live_at(v, id, j) by {
            if live_at(v, id, j) {
                let k = lemma_source_index(s, j);
                assert(live_at(s, id, k));
            }
        }
    }
}

/// Where a record that is not removed lands in `live(s)`.
proof fn lemma_kept_index(s: Seq<Stored>, i: int) -> (j: int)
    requires
        0 <= i < s.len(),
        !s[i].2,
    ensures
        0 <= j < live(s).len(),
        live(s)[j] == s[i],
{
    lemma_live_complete(s);
    choose|j: int| 0 <= j < live(s).len() && s[i] == live(s)[j]
}

/// Where a record of `live(s)` comes from in `s`.
proof fn lemma_source_index(s: Seq<Stored>, j: int) -> (i: int)
    requires
        0 <= j < live(s).len(),
    ensures
        0 <= i < s.len(),
        live(s)[j] == s[i],
        !s[i].2,
{
    lemma_live_members(s);
    choose|i: int| 0 <= i < s.len() && live(s)[j] == s[i]
}

/// `vacuum` changes no id's live record, and keeps no removed record.
pub proof fn law_vacuum_keeps_live_records<F: RecordLayout>(l: RecordList<F>)
    requires
        l.wf(),
    ensures
        forall|id: usize| #[trigger] live_record(live(l.stored()), id) == live_record(l.stored(), id),
        forall|j: int| 0 <= j < live(l.stored()).len() ==> !(#[trigger] live(l.stored())[j]).2,
{
    let s = l.stored();
    lemma_live_members(s);
    assert forall|id: usize| #[trigger] live_record(live(s), id) == live_record(s, id) by {
        lemma_vacuum_record(s, id);
    }
}

/// Every id that `iter` lists is the id of a live record.
proof fn lemma_listed_is_live(s: Seq<Stored>, o: Seq<usize>, x: usize)
    requires
        live_order(s, o).contains(x),
    ensures
        ids_of(live(s)).contains(x),
{
    lemma_live_order(s, o);
    let a = live_order(s, o);
    let c = choose|c: int| 0 <= c < a.len() && a[c] == x;
    assert(live_record(s, a[c]) is Some);
    let i = choose|i: int| live_at(s, x, i);
    let j = lemma_kept_index(s, i);
    assert(ids_of(live(s))[j] == x);
}

/// Every live id is one that `iter` lists.
proof fn lemma_live_is_listed<F: RecordLayout>(s: Seq<Stored>, o: Seq<usize>, next_id: usize, x: usize)
    requires
        list_wf::<F>(s, o, next_id),
        ids_of(live(s)).contains(x),
    ensures
        live_order(s, o).contains(x),
{
    let b = ids_of(live(s));
    let j = choose|j: int| 0 <= j < b.len() && b[j] == x;
    let i = lemma_source_index(s, j);
    assert(live_at(s, x, i));
    assert(is_listed(o, x));
    let c = choose|c: int| 0 <= c < o.len() && o[c] == x;
    assert(live_record(s, o[c]) is Some);
    lemma_live_order(s, o);
    assert(is_listed(live_order(s, o), o[c]));
}

/// `iter` lists as many records as `len` counts: each live record once.
pub proof fn law_iter_count_is_len<F: RecordLayout>(l: RecordList<F>)
    requires
        l.wf(),
    ensures
        live_order(l.stored(), l.order()).len() == live(l.stored()).len(),
{
    let s = l.stored();
    let o = l.order();
    let a = live_order(s, o);
    let v = live(s);
    let b = ids_of(v);
    assert(a.no_duplicates()) by {
        lemma_live_order(s, o);
    }
    assert(b.no_duplicates()) by {
        lemma_live_ids_grow(s);
        assert forall|i: int, j: int| 0 <= i < b.len() && 0 <= j < b.len() && i != j implies b[i] != b[j] by {
            if i < j {
                assert(v[i].0 < v[j].0);
            } else {
                assert(v[j].0 < v[i].0);
            }
        }
    }
    assert forall|x: usize| a.to_set().contains(x) <==> b.to_set().contains(x) by {
        if a.contains(x) {
            lemma_listed_is_live(s, o, x);
        }
        if b.contains(x) {
            lemma_live_is_listed::<F>(s, o, l.next_id(), x);
        }
    }
    assert(a.to_set() =~= b.to_set());
    a.unique_seq_to_set();
    b.unique_seq_to_set();
}

/// `iter_sorted_by` lists every live record, in ascending order of the field.
pub proof fn law_sorted_by_field_ascending<F: RecordLayout>(l: RecordList<F>, f: F, a: int, b: int)
    requires
        l.wf(),
        0 <= a < b < sorted_by_field(l.stored(), f).len(),
    ensures
        sorted_by_field(l.stored(), f).len() == live(l.stored()).len(),
        lex_order(
            field_view(sorted_by_field(l.stored(), f)[a], F::spec_widths(), f.spec_index()),
            field_view(sorted_by_field(l.stored(), f)[b], F::spec_widths(), f.spec_index()),
        ) <= 0,
{
    let s = l.stored();
    l.lemma_sizes();
    lemma_live_members(s);
    let rs = live_bytes(s);
    let keys = field_keys(rs, f);
    lemma_sorted_positions_sorts(keys);
    lemma_sorted_positions_ascending(keys, a, b);
}

/// After `sort`, `iter` lists the live records in ascending byte order.
pub proof fn law_sort_ascending<F: RecordLayout>(l: RecordList<F>, a: int, b: int)
    requires
        l.wf(),
        0 <= a < b < live_order(l.stored(), l.order()).len(),
    ensures
        lex_order(
            records_of(
                l.stored(),
                arranged(
                    live_order(l.stored(), l.order()),
                    sorted_positions(records_of(l.stored(), live_order(l.stored(), l.order()))),
                ),
            )[a],
            records_of(
                l.stored(),
                arranged(
                    live_order(l.stored(), l.order()),
                    sorted_positions(records_of(l.stored(), live_order(l.stored(), l.order()))),
                ),
            )[b],
        ) <= 0,
{
    let s = l.stored();
    let lo = live_order(s, l.order());
    let keys = records_of(s, lo);
    l.lemma_sizes();
    lemma_live_order(s, l.order());
    lemma_sorted_positions_sorts(keys);
    lemma_sorted_positions_ascending(keys, a, b);
}

/// After `sort_by(fields)`, `iter` lists the live records in ascending order
/// of the listed fields, compared as `compare_by_fields` compares them.
pub proof fn law_sort_by_ascending<F: RecordLayout>(l: RecordList<F>, fields: Seq<F>, a: int, b: int)
    requires
        l.wf(),
        0 <= a < b < live_order(l.stored(), l.order()).len(),
    ensures
        fields_order(
            records_of(
                l.stored(),
                arranged(
                    live_order(l.stored(), l.order()),
                    sorted_positions(keys_by(records_of(l.stored(), live_order(l.stored(), l.order())), fields)),
                ),
            )[a],
            records_of(
                l.stored(),
                arranged(
                    live_order(l.stored(), l.order()),
                    sorted_positions(keys_by(records_of(l.stored(), live_order(l.stored(), l.order())), fields)),
                ),
            )[b],
            fields,
        ) <= 0,
{
    let s = l.stored();
    let lo = live_order(s, l.order());
    let rs = records_of(s, lo);
    let keys = keys_by(rs, fields);
    l.lemma_sizes();
    lemma_live_order(s, l.order());
    lemma_sorted_positions_sorts(keys);
    lemma_sorted_positions_ascending(keys, a, b);
    let pos = sorted_positions(keys);
    let pa = pos[a] as int;
    let pb = pos[b] as int;
    assert(live_record(s, lo[pa]) is Some);
    assert(live_record(s, lo[pb]) is Some);
    let i = choose|i: int| live_at(s, lo[pa], i);
    let j = choose|j: int| live_at(s, lo[pb], j);
    lemma_live_record_at(s, lo[pa], i);
    lemma_live_record_at(s, lo[pb], j);
    lemma_fields_order_is_key_order(rs[pa], rs[pb], fields);
}

/// A search lists only records whose field it keeps, each from the records
/// it searched.
pub proof fn law_matching_keeps<F: RecordLayout>(rs: Seq<Seq<u8>>, f: F, m: KeyMatch, j: int)
    requires
        0 <= j < matching(rs, f, m).len(),
    ensures
        key_matches(m, field_view(matching(rs, f, m)[j], F::spec_widths(), f.spec_index())),
        exists|i: int| 0 <= i < rs.len() && rs[i] == #[trigger] matching(rs, f, m)[j],
    decreases rs.len(),
{
    let t = matching(rs.drop_last(), f, m);
    if j < t.len() {
        law_matching_keeps(rs.drop_last(), f, m, j);
        let i = choose|i: int| 0 <= i < rs.drop_last().len() && rs.drop_last()[i] == t[j];
        assert(rs[i] == t[j]);
    } else {
        assert(rs[rs.len() - 1] == matching(rs, f, m)[j]);
    }
}

/// A search value as wide as the field matches exactly: `try_find_by` then
/// finds what `find_by` finds.
pub proof fn law_full_width_padded_is_exact<F: RecordLayout>(rs: Seq<Seq<u8>>, f: F, v: Seq<u8>)
    requires
        v.len() == F::spec_widths()[f.spec_index()],
        0 <= f.spec_index() < F::spec_widths().len(),
        forall|i: int| 0 <= i < rs.len() ==> (#[trigger] rs[i]).len() == record_len::<F>(),
    ensures
        matching(rs, f, KeyMatch::Padded(v)) == matching(rs, f, KeyMatch::Exact(v)),
    decreases rs.len(),
{
    if rs.len() > 0 {
        law_full_width_padded_is_exact(rs.drop_last(), f, v);
        F::lemma_layout();
        crate::layout::lemma_field_bounds(F::spec_widths(), f.spec_index());
        let key = field_view(rs.last(), F::spec_widths(), f.spec_index());
        assert(key.len() == v.len());
        if key == v {
            assert(key.subrange(0, v.len() as int) =~= v);
        }
        if key.subrange(0, v.len() as int) == v {
            assert(key =~= key.subrange(0, v.len() as int));
        }
    }
}

/// `sort_by(fields)` only rearranges the live records, and stably: the new
/// order takes each old position exactly once, and of two records with equal
/// keys the one that came first still comes first.
pub proof fn law_sort_by_permutes_stably<F: RecordLayout>(l: RecordList<F>, fields: Seq<F>)
    requires
        l.wf(),
    ensures
        ({
            let lo = live_order(l.stored(), l.order());
            let keys = keys_by(records_of(l.stored(), lo), fields);
            let pos = sorted_positions(keys);
            &&& pos.len() == lo.len()
            &&& forall|x: usize| #[trigger] pos.contains(x) <==> x < lo.len()
            &&& arranged(lo, pos).len() == lo.len()
            &&& forall|j: int| 0 <= j < lo.len() ==> #[trigger] arranged(lo, pos)[j] == lo[pos[j] as int]
            &&& forall|a: int, b: int|
                0 <= a < b < lo.len() && #[trigger] keys[pos[a] as int] == #[trigger] keys[pos[b] as int]
                    ==> pos[a] < pos[b]
        }),
{
    let s = l.stored();
    let lo = live_order(s, l.order());
    let keys = keys_by(records_of(s, lo), fields);
    l.lemma_sizes();
    lemma_live_order(s, l.order());
    lemma_sorted_positions_sorts(keys);
    let pos = sorted_positions(keys);
    assert forall|a: int, b: int|
        0 <= a < b < lo.len() && #[trigger] keys[pos[a] as int] == #[trigger] keys[pos[b] as int]
            implies pos[a] < pos[b] by {
        assert(pos_lt(keys, pos[a] as int, pos[b] as int));
        crate::order::lemma_lex_basics(keys[pos[a] as int], keys[pos[b] as int]);
    }
}

/// A search lists a record exactly when the records it searched hold it and
/// the search keeps its field.
pub proof fn lemma_matching_contains<F: RecordLayout>(rs: Seq<Seq<u8>>, f: F, m: KeyMatch, x: Seq<u8>)
    ensures
        matching(rs, f, m).contains(x) <==> rs.contains(x) && key_matches(
            m,
            field_view(x, F::spec_widths(), f.spec_index()),
        ),
    decreases rs.len(),
{
    if rs.len() > 0 {
        lemma_matching_contains(rs.drop_last(), f, m, x);
        let t = matching(rs.drop_last(), f, m);
        if rs.contains(x) {
            let i = choose|i: int| 0 <= i < rs.len() && rs[i] == x;
            if i < rs.len() - 1 {
                assert(rs.drop_last()[i] == x);
            }
        }
        if rs.drop_last().contains(x) {
            let i = choose|i: int| 0 <= i < rs.drop_last().len() && rs.drop_last()[i] == x;
            assert(rs[i] == x);
        }
        if key_matches(m, field_view(rs.last(), F::spec_widths(), f.spec_index())) {
            assert(t.push(rs.last())[t.len() as int] == rs.last());
            if t.contains(x) {
                let k = choose|k: int| 0 <= k < t.len() && t[k] == x;
                assert(t.push(rs.last())[k] == x);
            }
            if t.push(rs.last()).contains(x) {
                let k = choose|k: int| 0 <= k < t.len() + 1 && t.push(rs.last())[k] == x;
                if k < t.len() {
                    assert(t[k] == x);
                }
            }
        }
    }
}

/// The searches of the list find exactly the live records whose field the
/// search keeps: ordering them by field loses and adds none.
pub proof fn law_search_finds_the_live_matches<F: RecordLayout>(l: RecordList<F>, f: F, m: KeyMatch, x: Seq<u8>)
    requires
        l.wf(),
    ensures
        matching(sorted_by_field(l.stored(), f), f, m).contains(x) <==> live_bytes(l.stored()).contains(x)
            && key_matches(m, field_view(x, F::spec_widths(), f.spec_index())),
{
    let s = l.stored();
    let rs = live_bytes(s);
    let keys = field_keys(rs, f);
    l.lemma_sizes();
    lemma_live_members(s);
    lemma_sorted_positions_sorts(keys);
    let pos = sorted_positions(keys);
    let sorted = sorted_by_field(s, f);
    lemma_matching_contains(sorted, f, m, x);
    lemma_matching_contains(rs, f, m, x);
    if sorted.contains(x) {
        let j = choose|j: int| 0 <= j < sorted.len() && sorted[j] == x;
        assert(pos.contains(pos[j]));
        assert(rs[pos[j] as int] == x);
        assert(rs.contains(x));
    }
    if rs.contains(x) {
        let i = choose|i: int| 0 <= i < rs.len() && rs[i] == x;
        assert(pos.contains(i as usize));
        let j = choose|j: int| 0 <= j < pos.len() && pos[j] == i as usize;
        assert(sorted[j] == x);
    }
}

} // verus!
