use core::cmp::Ordering;
use vstd::prelude::*;

use crate::field_order::{fields_compare, fields_order, lemma_fields_order_range};
use crate::layout::RecordLayout;
use crate::order::{lemma_lex_basics, lex_compare, lex_order};
use crate::record::Record;

verus! {

/// The `Ordering` that an order value of `-1`, `0` or `1` stands for.
pub open spec fn order_of(c: int) -> Ordering {
    if c < 0 {
        Ordering::Less
    } else if c > 0 {
        Ordering::Greater
    } else {
        Ordering::Equal
    }
}

/// An order value of `-1`, `0` or `1` as an `Ordering`.
fn ordering_from(c: i8) -> (r: Ordering)
    ensures
        c < 0 ==> r == Ordering::Less,
        c > 0 ==> r == Ordering::Greater,
        c == 0 ==> r == Ordering::Equal,
{
    if c < 0 {
        Ordering::Less
    } else if c > 0 {
        Ordering::Greater
    } else {
        Ordering::Equal
    }
}

impl<F: RecordLayout> Record<F> {
    /// Compares all fields in declaration order, which orders the records by
    /// their bytes.
    pub fn compare_all_fields(&self, other: &Self) -> (r: Ordering)
        ensures
            r == order_of(lex_order(self@, other@)),
    {
        let c = lex_compare(self.as_bytes(), other.as_bytes());
        proof {
            lemma_lex_basics(self@, other@);
        }
        ordering_from(c)
    }

    /// Compares the listed fields in turn; the first one that differs decides.
    pub fn compare_by_fields(&self, other: &Self, fields: &[F]) -> (r: Ordering)
        ensures
            r == order_of(fields_order(self@, other@, fields@)),
    {
        let c = fields_compare(self, other, fields);
        proof {
            lemma_fields_order_range(self@, other@, fields@);
        }
        ordering_from(c)
    }
}

} // verus!
