use vstd::prelude::*;

use crate::layout::{field_view, lemma_field_bounds, RecordLayout};
use crate::order::{lemma_lex_basics, lemma_lex_concat, lex_compare, lex_order};
use crate::record::{record_len, Record};

verus! {

/// Two records compared field by field in the order the fields are listed:
/// the first listed field on which they differ decides, by the byte order of
/// that field. `0` when they agree on every listed field.
pub open spec fn fields_order<F: RecordLayout>(a: Seq<u8>, b: Seq<u8>, fields: Seq<F>) -> int
    decreases fields.len(),
{
    if fields.len() == 0 {
        0
    } else {
        let c = lex_order(
            field_view(a, F::spec_widths(), fields[0].spec_index()),
            field_view(b, F::spec_widths(), fields[0].spec_index()),
        );
        if c != 0 {
            c
        } else {
            fields_order(a, b, fields.drop_first())
        }
    }
}

/// The listed fields of a record, laid end to end.
pub open spec fn selected_key<F: RecordLayout>(bytes: Seq<u8>, fields: Seq<F>) -> Seq<u8>
    decreases fields.len(),
{
    if fields.len() == 0 {
        Seq::empty()
    } else {
        field_view(bytes, F::spec_widths(), fields[0].spec_index()) + selected_key(bytes, fields.drop_first())
    }
}

/// Comparing field by field is comparing the listed fields laid end to end.
pub proof fn lemma_fields_order_is_key_order<F: RecordLayout>(a: Seq<u8>, b: Seq<u8>, fields: Seq<F>)
    requires
        a.len() == record_len::<F>(),
        b.len() == record_len::<F>(),
    ensures
        fields_order(a, b, fields) == lex_order(selected_key(a, fields), selected_key(b, fields)),
    decreases fields.len(),
{
    if fields.len() == 0 {
        assert(selected_key(a, fields) =~= selected_key(b, fields));
        lemma_lex_basics(selected_key(a, fields), selected_key(b, fields));
    } else {
        F::lemma_layout();
        let i = fields[0].spec_index();
        lemma_field_bounds(F::spec_widths(), i);
        lemma_fields_order_is_key_order(a, b, fields.drop_first());
        lemma_lex_concat(
            field_view(a, F::spec_widths(), i),
            selected_key(a, fields.drop_first()),
            field_view(b, F::spec_widths(), i),
            selected_key(b, fields.drop_first()),
        );
    }
}

/// The order values are `-1`, `0` and `1`.
pub proof fn lemma_fields_order_range<F: RecordLayout>(a: Seq<u8>, b: Seq<u8>, fields: Seq<F>)
    ensures
        -1 <= fields_order(a, b, fields) <= 1,
    decreases fields.len(),
{
    if fields.len() > 0 {
        let i = fields[0].spec_index();
        lemma_lex_basics(field_view(a, F::spec_widths(), i), field_view(b, F::spec_widths(), i));
        lemma_fields_order_range(a, b, fields.drop_first());
    }
}

/// Compares two records on the listed fields, as `fields_order` describes.
pub fn fields_compare<F: RecordLayout>(a: &Record<F>, b: &Record<F>, fields: &[F]) -> (r: i8)
    ensures
        r as int == fields_order(a@, b@, fields@),
{
    let n = fields.len();
    let mut k: usize = 0;
    assert(fields@.subrange(0, n as int) =~= fields@);
    while k < n
        invariant
            0 <= k <= n,
            n == fields@.len(),
            fields_order(a@, b@, fields@) == fields_order(a@, b@, fields@.subrange(k as int, n as int)),
        decreases n - k,
    {
        let f = fields[k];
        let c = lex_compare(a.get_field_bytes(f), b.get_field_bytes(f));
        assert(fields@.subrange(k as int, n as int)[0] == f);
        assert(fields@.subrange(k as int, n as int).drop_first() =~= fields@.subrange(k + 1, n as int));
        if c != 0 {
            return c;
        }
        k = k + 1;
    }
    assert(fields@.subrange(n as int, n as int).len() == 0);
    0
}

} // verus!
