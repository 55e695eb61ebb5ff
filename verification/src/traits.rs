use vstd::prelude::*;

use crate::error::Error;
use crate::layout::{field_view, lemma_field_bounds, RecordLayout};
use crate::record::{record_len, record_total, Record};

verus! {

/// What a fixed-width record offers to code that reads and writes streams of
/// records without knowing their concrete type.
pub trait FixedRecord: Sized {
    /// The field enum of the record.
    type Field: Copy;

    /// The byte length of every record of this type.
    spec fn spec_total_len() -> int;

    /// The bytes of this record.
    spec fn spec_bytes(&self) -> Seq<u8>;

    /// The bytes of one field in the record whose bytes are `bytes`.
    spec fn spec_field_in(bytes: Seq<u8>, field: Self::Field) -> Seq<u8>;

    /// The declared name of a field.
    spec fn spec_field_name(field: Self::Field) -> &'static str;

    /// The position of a field in declaration order.
    spec fn spec_field_id(field: Self::Field) -> int;

    /// The byte length of every record of this type; never zero.
    fn total_len() -> (n: usize)
        ensures
            n == Self::spec_total_len(),
            n > 0,
    ;

    /// Reads a record from the first bytes of `src`.
    fn parse(src: &[u8]) -> (r: Result<Self, Error>)
        ensures
            match r {
                Ok(rec) => src@.len() >= Self::spec_total_len() && rec.spec_bytes() == src@.subrange(
                    0,
                    Self::spec_total_len(),
                ),
                Err(e) => src@.len() < Self::spec_total_len() && e == Error::TooShort,
            },
    ;

    /// The record's bytes, copied.
    fn to_bytes(&self) -> (b: Vec<u8>)
        ensures
            b@ == self.spec_bytes(),
            b@.len() == Self::spec_total_len(),
    ;

    /// The declared name of a field.
    fn field_name(field: Self::Field) -> (s: &'static str)
        ensures
            s == Self::spec_field_name(field),
    ;

    /// The bytes of one field.
    fn field_bytes(&self, field: Self::Field) -> (b: &[u8])
        ensures
            b@ == Self::spec_field_in(self.spec_bytes(), field),
    ;

    /// The position of a field in declaration order.
    fn field_id(field: Self::Field) -> (i: usize)
        ensures
            i == Self::spec_field_id(field),
    ;
}

impl<F: RecordLayout> FixedRecord for Record<F> {
    type Field = F;

    open spec fn spec_total_len() -> int {
        record_len::<F>()
    }

    open spec fn spec_bytes(&self) -> Seq<u8> {
        self@
    }

    open spec fn spec_field_in(bytes: Seq<u8>, field: F) -> Seq<u8> {
        field_view(bytes, F::spec_widths(), field.spec_index())
    }

    open spec fn spec_field_name(field: F) -> &'static str {
        field.spec_name()
    }

    open spec fn spec_field_id(field: F) -> int {
        field.spec_index()
    }

    fn total_len() -> (n: usize) {
        let n = record_total::<F>();
        proof {
            lemma_field_bounds(F::spec_widths(), 0);
            crate::layout::lemma_offset_monotone(F::spec_widths(), 1, F::spec_widths().len() as int);
        }
        n
    }

    fn parse(src: &[u8]) -> (r: Result<Self, Error>) {
        Record::<F>::parse(src)
    }

    fn to_bytes(&self) -> (b: Vec<u8>) {
        Record::<F>::to_bytes(self)
    }

    fn field_name(field: F) -> (s: &'static str) {
        field.name()
    }

    fn field_bytes(&self, field: F) -> (b: &[u8]) {
        self.get_field_bytes(field)
    }

    fn field_id(field: F) -> (i: usize) {
        field.index()
    }
}

/// A list of fields that a `Reader` sequence check can be given.
pub trait SequenceFields<T: FixedRecord> {
    /// The listed fields.
    spec fn spec_fields(&self) -> Seq<T::Field>;

    /// The listed fields as a `Vec`, in order.
    fn to_sequence_fields(self) -> (v: Vec<T::Field>)
        ensures
            v@ == self.spec_fields(),
    ;
}

impl<F: RecordLayout, const N: usize> SequenceFields<Record<F>> for [F; N] {
    open spec fn spec_fields(&self) -> Seq<F> {
        self@
    }

    fn to_sequence_fields(self) -> (v: Vec<F>) {
        let mut v: Vec<F> = Vec::new();
        let mut i: usize = 0;
        while i < N
            invariant
                0 <= i <= N,
                self@.len() == N,
                v@ =~= self@.subrange(0, i as int),
            decreases N - i,
        {
            v.push(self[i]);
            i = i + 1;
        }
        v
    }
}

impl<F: RecordLayout> SequenceFields<Record<F>> for Vec<F> {
    open spec fn spec_fields(&self) -> Seq<F> {
        self@
    }

    fn to_sequence_fields(self) -> (v: Vec<F>) {
        self
    }
}

} // verus!
