use core::marker::PhantomData;
use vstd::prelude::*;
use vstd::slice::{slice_subrange, slice_to_vec};
use vstd::string::*;
use vstd::utf8::*;

use crate::error::Error;
use crate::layout::{
    field_view, lemma_field_bounds, lemma_offset_monotone, lemma_replace_field, layout_ok,
    offset_at, offset_of, replace_field, total_len_of, total_of, RecordLayout,
};
use crate::number::{padded_int, padded_text, signed_padded_int, signed_padded_text};
use crate::text::{lemma_trim_keeps_utf8, pad_bounds, trim_pad, utf8_str};

verus! {

/// The byte length of a record with the fields `F`.
pub open spec fn record_len<F: RecordLayout>() -> int {
    total_of(F::spec_widths())
}

/// The width of field `f`.
pub open spec fn width_of<F: RecordLayout>(f: F) -> int {
    F::spec_widths()[f.spec_index()] as int
}

/// Where field `f` starts inside the record.
pub open spec fn start_of<F: RecordLayout>(f: F) -> int {
    offset_of(F::spec_widths(), f.spec_index())
}

/// A field after `data` is copied over its leading bytes; the rest is kept.
pub open spec fn overwrite(old: Seq<u8>, data: Seq<u8>) -> Seq<u8> {
    Seq::new(old.len(), |k: int| if k < data.len() { data[k] } else { old[k] })
}

/// A field of `width` bytes after it is filled with `clear` and `data` is
/// copied over its leading bytes.
pub open spec fn clear_write(width: nat, data: Seq<u8>, clear: u8) -> Seq<u8> {
    Seq::new(width, |k: int| if k < data.len() { data[k] } else { clear })
}

/// `width` copies of `byte`.
pub open spec fn repeat_byte(width: nat, byte: u8) -> Seq<u8> {
    Seq::new(width, |_k: int| byte)
}

/// The record bytes `bytes` with field `f` replaced by `value`.
pub open spec fn with_field<F: RecordLayout>(bytes: Seq<u8>, f: F, value: Seq<u8>) -> Seq<u8> {
    replace_field(bytes, F::spec_widths(), f.spec_index(), value)
}

/// What field `index` holds after `data` is spread over the fields from field
/// `start` on: each reached field is cleared and gets its share of `data`; the
/// fields before `start`, and those the data does not reach, keep `old`.
pub open spec fn spread_field(
    widths: Seq<usize>,
    start: int,
    index: int,
    old: Seq<u8>,
    data: Seq<u8>,
    clear: u8,
) -> Seq<u8> {
    let pos = offset_of(widths, index) - offset_of(widths, start);
    if index < start || pos >= data.len() {
        old
    } else {
        clear_write(
            widths[index] as nat,
            data.subrange(pos, if pos + widths[index] < data.len() { pos + widths[index] } else { data.len() as int }),
            clear,
        )
    }
}

/// A fixed-width record whose fields are described by `F`.
///
/// The record is held as its bytes, field after field in declaration order.
#[derive(Debug, PartialEq, Eq)]
pub struct Record<F: RecordLayout> {
    bytes: Vec<u8>,
    layout: PhantomData<F>,
}

impl<F: RecordLayout> View for Record<F> {
    type V = Seq<u8>;

    closed spec fn view(&self) -> Seq<u8> {
        self.bytes@
    }
}

/// The widths, the total length and the position of `f`, with the layout facts
/// that go with them.
fn locate<F: RecordLayout>(f: F) -> (r: (usize, usize))
    ensures
        layout_ok(F::spec_widths()),
        0 <= f.spec_index() < F::spec_widths().len(),
        r.0 == start_of(f),
        r.1 == width_of(f),
        r.1 > 0,
        r.0 + r.1 <= record_len::<F>(),
        r.0 + r.1 == offset_of(F::spec_widths(), f.spec_index() + 1),
{
    proof {
        F::lemma_layout();
        lemma_field_bounds(F::spec_widths(), f.spec_index());
    }
    let widths = F::widths();
    let i = f.index();
    let off = offset_at(&widths, i);
    (off, widths[i])
}

/// The byte length of a record with the fields `F`.
pub fn record_total<F: RecordLayout>() -> (n: usize)
    ensures
        n == record_len::<F>(),
        layout_ok(F::spec_widths()),
{
    proof {
        F::lemma_layout();
    }
    let widths = F::widths();
    total_len_of(&widths)
}

impl<F: RecordLayout> Record<F> {
    /// Every record has the length its layout gives.
    #[verifier::type_invariant]
    pub closed spec fn inv(self) -> bool {
        self.bytes@.len() == record_len::<F>()
    }

    /// The bytes of field `f`.
    pub open spec fn field(&self, f: F) -> Seq<u8> {
        field_view(self@, F::spec_widths(), f.spec_index())
    }

    /// The type invariant gives the record its layout's length.
    pub proof fn lemma_len(self)
        requires
            self.inv(),
        ensures
            self@.len() == record_len::<F>(),
    {
    }

    /// Writes `width` bytes at `start`: `data` first, then `fill` (or the old
    /// bytes when there is no fill byte).
    fn write_span(&mut self, start: usize, width: usize, data: &[u8], fill: Option<u8>)
        requires
            start + width <= old(self)@.len(),
        ensures
            final(self)@ == old(self)@.subrange(0, start as int) + Seq::new(
                width as nat,
                |k: int|
                    if k < data@.len() {
                        data@[k]
                    } else {
                        match fill {
                            Some(b) => b,
                            None => old(self)@[start + k],
                        }
                    },
            ) + old(self)@.subrange(start + width, old(self)@.len() as int),
    {
        proof {
            use_type_invariant(&*self);
        }
        let ghost before = self@;
        let n = self.bytes.len();
        let mut out: Vec<u8> = Vec::new();
        let mut p: usize = 0;
        while p < n
            invariant
                0 <= p <= n,
                n == before.len(),
                before == self.bytes@,
                start + width <= n,
                out@.len() == p,
                forall|q: int| 0 <= q < p ==> out@[q] == if start <= q < start + width {
                    if q - start < data@.len() {
                        data@[q - start]
                    } else {
                        match fill {
                            Some(b) => b,
                            None => before[q],
                        }
                    }
                } else {
                    before[q]
                },
            decreases n - p,
        {
            let b = if start <= p && p < start + width {
                if p - start < data.len() {
                    data[p - start]
                } else {
                    match fill {
                        Some(v) => v,
                        None => self.bytes[p],
                    }
                }
            } else {
                self.bytes[p]
            };
            out.push(b);
            p = p + 1;
        }
        assert(out@ =~= before.subrange(0, start as int) + Seq::new(
            width as nat,
            |q: int|
                if q < data@.len() {
                    data@[q]
                } else {
                    match fill {
                        Some(b) => b,
                        None => before[start + q],
                    }
                },
        ) + before.subrange(start + width, before.len() as int));
        self.bytes = out;
    }

    /// A record whose every byte is `byte`.
    pub fn filled(byte: u8) -> (r: Self)
        ensures
            r@ == repeat_byte(record_len::<F>() as nat, byte),
    {
        let n = record_total::<F>();
        let mut bytes: Vec<u8> = Vec::new();
        let mut k: usize = 0;
        while k < n
            invariant
                0 <= k <= n,
                bytes@ =~= repeat_byte(k as nat, byte),
            decreases n - k,
        {
            bytes.push(byte);
            k = k + 1;
        }
        Record { bytes, layout: PhantomData }
    }

    /// A record with every byte `0x00`.
    pub fn zeroed() -> (r: Self)
        ensures
            r@ == repeat_byte(record_len::<F>() as nat, 0),
    {
        Self::filled(0)
    }

    /// A record with every byte a space (`0x20`).
    pub fn spaced() -> (r: Self)
        ensures
            r@ == repeat_byte(record_len::<F>() as nat, 32),
    {
        Self::filled(32)
    }

    /// A record with every byte the layout's clear byte.
    pub fn cleared() -> (r: Self)
        ensures
            r@ == repeat_byte(record_len::<F>() as nat, F::spec_clear_byte()),
    {
        Self::filled(F::clear_byte())
    }

    /// Starts building a record from a cleared one.
    pub fn builder() -> (r: Self)
        ensures
            r@ == repeat_byte(record_len::<F>() as nat, F::spec_clear_byte()),
    {
        Self::cleared()
    }

    /// Ends a chain of builder calls.
    pub fn build(self) -> (r: Self)
        ensures
            r@ == self@,
    {
        self
    }
}


/// What field `f` holds after a write of `data`: with a fill byte the field is
/// cleared first, without one the bytes past `data` are kept.
pub open spec fn written_field<F: RecordLayout>(old_field: Seq<u8>, f: F, data: Seq<u8>, fill: Option<u8>) -> Seq<u8> {
    match fill {
        Some(b) => clear_write(width_of(f) as nat, data, b),
        None => overwrite(old_field, data),
    }
}

impl<F: RecordLayout> Record<F> {
    /// Writes `data` into field `f`, clearing it with `fill` first when given.
    fn put_field(&mut self, f: F, data: &[u8], fill: Option<u8>)
        ensures
            final(self)@ == with_field(old(self)@, f, written_field(old(self).field(f), f, data@, fill)),
            final(self)@.len() == record_len::<F>(),
            final(self).field(f) == written_field(old(self).field(f), f, data@, fill),
            forall|g: F|
                #![trigger final(self).field(g)]
                g.spec_index() != f.spec_index() ==> final(self).field(g) == old(self).field(g),
            forall|g: F| #![trigger final(self).field(g)] g != f ==> final(self).field(g) == old(self).field(g),
    {
        proof {
            use_type_invariant(&*self);
            F::lemma_layout();
        }
        let (off, w) = locate(f);
        let ghost before = self@;
        self.write_span(off, w, data, fill);
        let ghost value = written_field(field_view(before, F::spec_widths(), f.spec_index()), f, data@, fill);
        proof {
            assert(Seq::new(
                w as nat,
                |k: int|
                    if k < data@.len() {
                        data@[k]
                    } else {
                        match fill {
                            Some(b) => b,
                            None => before[off + k],
                        }
                    },
            ) =~= value);
            assert forall|g: F| #![trigger field_view(self@, F::spec_widths(), g.spec_index())]
                g.spec_index() != f.spec_index() implies field_view(self@, F::spec_widths(), g.spec_index())
                == field_view(before, F::spec_widths(), g.spec_index()) by {
                F::lemma_layout();
                lemma_replace_field(before, F::spec_widths(), f.spec_index(), value, g.spec_index());
            }
            lemma_replace_field(before, F::spec_widths(), f.spec_index(), value, f.spec_index());
        }
    }

    /// Reads a record from the first bytes of `src`; the rest of `src` is ignored.
    pub fn parse(src: &[u8]) -> (r: Result<Self, Error>)
        ensures
            match r {
                Ok(rec) => src@.len() >= record_len::<F>() && rec@ == src@.subrange(0, record_len::<F>()),
                Err(e) => src@.len() < record_len::<F>() && e == Error::TooShort,
            },
    {
        let n = record_total::<F>();
        if src.len() < n {
            return Err(Error::TooShort);
        }
        let bytes = slice_to_vec(slice_subrange(src, 0, n));
        Ok(Record { bytes, layout: PhantomData })
    }

    /// Reads a record from the bytes of a string.
    pub fn parse_str(src: &str) -> (r: Result<Self, Error>)
        ensures
            match r {
                Ok(rec) => src.spec_bytes().len() >= record_len::<F>() && rec@ == src.spec_bytes().subrange(
                    0,
                    record_len::<F>(),
                ),
                Err(e) => src.spec_bytes().len() < record_len::<F>() && e == Error::TooShort,
            },
    {
        Self::parse(src.as_bytes())
    }

    /// Reads a record from exactly one record's worth of bytes.
    ///
    /// Shorter input is `TooShort`; longer input is a `ParseError`.
    pub fn ref_from_bytes(src: &[u8]) -> (r: Result<Self, Error>)
        ensures
            match r {
                Ok(rec) => src@.len() == record_len::<F>() && rec@ == src@,
                Err(e) => (src@.len() < record_len::<F>() && e == Error::TooShort) || (src@.len()
                    > record_len::<F>() && e == Error::ParseError),
            },
    {
        let n = record_total::<F>();
        if src.len() < n {
            return Err(Error::TooShort);
        }
        if src.len() > n {
            return Err(Error::ParseError);
        }
        let bytes = slice_to_vec(src);
        Ok(Record { bytes, layout: PhantomData })
    }

    /// Copies a record out of exactly one record's worth of bytes.
    pub fn read_from_bytes(src: &[u8]) -> (r: Result<Self, Error>)
        ensures
            match r {
                Ok(rec) => src@.len() == record_len::<F>() && rec@ == src@,
                Err(e) => (src@.len() < record_len::<F>() && e == Error::TooShort) || (src@.len()
                    > record_len::<F>() && e == Error::ParseError),
            },
    {
        Self::ref_from_bytes(src)
    }

    /// Reads a record from the first record-width bytes; trailing bytes are allowed.
    pub fn ref_from_bytes_prefix(src: &[u8]) -> (r: Result<Self, Error>)
        ensures
            match r {
                Ok(rec) => src@.len() >= record_len::<F>() && rec@ == src@.subrange(0, record_len::<F>()),
                Err(e) => src@.len() < record_len::<F>() && e == Error::TooShort,
            },
    {
        Self::parse(src)
    }

    /// Reads a record from a string exactly one record wide (widths count bytes).
    pub fn ref_from_str(src: &str) -> (r: Result<Self, Error>)
        ensures
            match r {
                Ok(rec) => src.spec_bytes().len() == record_len::<F>() && rec@ == src.spec_bytes(),
                Err(e) => (src.spec_bytes().len() < record_len::<F>() && e == Error::TooShort) || (
                src.spec_bytes().len() > record_len::<F>() && e == Error::ParseError),
            },
    {
        Self::ref_from_bytes(src.as_bytes())
    }

    /// Reads a record from the first record-width bytes of a string.
    pub fn ref_from_str_prefix(src: &str) -> (r: Result<Self, Error>)
        ensures
            match r {
                Ok(rec) => src.spec_bytes().len() >= record_len::<F>() && rec@ == src.spec_bytes().subrange(
                    0,
                    record_len::<F>(),
                ),
                Err(e) => src.spec_bytes().len() < record_len::<F>() && e == Error::TooShort,
            },
    {
        Self::parse(src.as_bytes())
    }

    /// The record's bytes, copied.
    pub fn to_bytes(&self) -> (r: Vec<u8>)
        ensures
            r@ == self@,
            r@.len() == record_len::<F>(),
    {
        proof {
            use_type_invariant(self);
        }
        slice_to_vec(self.bytes.as_slice())
    }

    /// The record's bytes, in place.
    pub fn as_bytes(&self) -> (r: &[u8])
        ensures
            r@ == self@,
            r@.len() == record_len::<F>(),
    {
        proof {
            use_type_invariant(self);
        }
        self.bytes.as_slice()
    }

    /// The byte length of this record.
    pub fn byte_len(&self) -> (n: usize)
        ensures
            n == record_len::<F>(),
    {
        record_total::<F>()
    }

    /// The byte length of every record with these fields.
    pub fn total_len() -> (n: usize)
        ensures
            n == record_len::<F>(),
    {
        record_total::<F>()
    }

    /// The clear byte of the layout.
    pub fn clear_byte() -> (b: u8)
        ensures
            b == F::spec_clear_byte(),
    {
        F::clear_byte()
    }

    /// The width of field `f`.
    pub fn size_of(f: F) -> (n: usize)
        ensures
            n == width_of(f),
    {
        let (_, w) = locate(f);
        w
    }

    /// Where field `f` starts inside the record.
    pub fn offset_of(f: F) -> (n: usize)
        ensures
            n == start_of(f),
    {
        let (off, _) = locate(f);
        off
    }

    /// The declared name of field `f`.
    pub fn name_of(f: F) -> (s: &'static str)
        ensures
            s == f.spec_name(),
    {
        f.name()
    }

    /// Every field, in declaration order.
    pub fn all_fields() -> (v: Vec<F>)
        ensures
            v@.len() == F::spec_widths().len(),
            forall|i: int| 0 <= i < v@.len() ==> (#[trigger] v@[i]).spec_index() == i,
    {
        F::all_fields()
    }

    /// The bytes of field `f`, in place.
    pub fn get_field_bytes(&self, f: F) -> (r: &[u8])
        ensures
            r@ == self.field(f),
            r@.len() == width_of(f),
    {
        proof {
            use_type_invariant(self);
        }
        let (off, w) = locate(f);
        slice_subrange(self.bytes.as_slice(), off, off + w)
    }

    /// Field `f` as a string, when it is valid UTF-8.
    pub fn get_field_str(&self, f: F) -> (r: Result<&str, Error>)
        ensures
            r is Ok <==> valid_utf8(self.field(f)),
            r matches Ok(s) ==> s.spec_bytes() == self.field(f),
            r matches Err(e) ==> e == Error::Utf8Error,
    {
        match utf8_str(self.get_field_bytes(f)) {
            Some(s) => Ok(s),
            None => Err(Error::Utf8Error),
        }
    }

    /// Field `f` as a string without its leading and trailing spaces and NULs,
    /// when the field is valid UTF-8.
    pub fn get_field_trimmed(&self, f: F) -> (r: Result<&str, Error>)
        ensures
            r is Ok <==> valid_utf8(self.field(f)),
            r matches Ok(s) ==> s.spec_bytes() == trim_pad(self.field(f)),
            r matches Err(e) ==> e == Error::Utf8Error,
    {
        let bytes = self.get_field_bytes(f);
        if utf8_str(bytes).is_none() {
            return Err(Error::Utf8Error);
        }
        let (a, b) = pad_bounds(bytes);
        proof {
            lemma_trim_keeps_utf8(bytes@, a as int, b as int);
        }
        match utf8_str(slice_subrange(bytes, a, b)) {
            Some(s) => Ok(s),
            None => Err(Error::Utf8Error),
        }
    }

    /// Field `f`, trimmed as by `get_field_trimmed`, as an owned string.
    pub fn get_field_string_trimmed(&self, f: F) -> (r: Result<String, Error>)
        ensures
            r is Ok <==> valid_utf8(self.field(f)),
            r matches Ok(s) ==> encode_utf8(s@) == trim_pad(self.field(f)),
            r matches Err(e) ==> e == Error::Utf8Error,
    {
        match self.get_field_trimmed(f) {
            Ok(s) => Ok(s.to_owned()),
            Err(e) => Err(e),
        }
    }

    /// The whole record as a string, when it is valid UTF-8.
    pub fn as_str(&self) -> (r: Result<&str, Error>)
        ensures
            r is Ok <==> valid_utf8(self@),
            r matches Ok(s) ==> s.spec_bytes() == self@,
            r matches Err(e) ==> e == Error::Utf8Error,
    {
        match utf8_str(self.bytes.as_slice()) {
            Some(s) => Ok(s),
            None => Err(Error::Utf8Error),
        }
    }

    /// Fills field `f` with `0x00`.
    pub fn fill_field_zero(&mut self, f: F)
        ensures
            final(self)@ == with_field(old(self)@, f, repeat_byte(width_of(f) as nat, 0)),
            final(self).field(f) == repeat_byte(width_of(f) as nat, 0),
            forall|g: F|
                #![trigger final(self).field(g)]
                g != f ==> final(self).field(g) == old(self).field(g),
    {
        self.put_field(f, &[], Some(0));
        assert(clear_write(width_of(f) as nat, Seq::<u8>::empty(), 0) =~= repeat_byte(width_of(f) as nat, 0));
    }
}

impl<F: RecordLayout> Record<F> {
    /// Fills field `f` with spaces (`0x20`).
    pub fn fill_field_space(&mut self, f: F)
        ensures
            final(self)@ == with_field(old(self)@, f, repeat_byte(width_of(f) as nat, 32)),
            final(self).field(f) == repeat_byte(width_of(f) as nat, 32),
            forall|g: F|
                #![trigger final(self).field(g)]
                g != f ==> final(self).field(g) == old(self).field(g),
    {
        self.put_field(f, &[], Some(32));
        assert(clear_write(width_of(f) as nat, Seq::<u8>::empty(), 32) =~= repeat_byte(width_of(f) as nat, 32));
    }

    /// Fills field `f` with the layout's clear byte.
    pub fn fill_field_clear(&mut self, f: F)
        ensures
            final(self)@ == with_field(old(self)@, f, repeat_byte(width_of(f) as nat, F::spec_clear_byte())),
            final(self).field(f) == repeat_byte(width_of(f) as nat, F::spec_clear_byte()),
            forall|g: F|
                #![trigger final(self).field(g)]
                g != f ==> final(self).field(g) == old(self).field(g),
    {
        self.put_field(f, &[], Some(F::clear_byte()));
        assert(clear_write(width_of(f) as nat, Seq::<u8>::empty(), F::spec_clear_byte()) =~= repeat_byte(
            width_of(f) as nat,
            F::spec_clear_byte(),
        ));
    }

    /// Clears field `f` with the clear byte, then copies `data` over its start
    /// (bytes past the field width are dropped).
    pub fn set_field_bytes(&mut self, f: F, data: &[u8])
        ensures
            final(self)@ == with_field(old(self)@, f, clear_write(width_of(f) as nat, data@, F::spec_clear_byte())),
            final(self).field(f) == clear_write(width_of(f) as nat, data@, F::spec_clear_byte()),
            forall|g: F|
                #![trigger final(self).field(g)]
                g != f ==> final(self).field(g) == old(self).field(g),
    {
        self.put_field(f, data, Some(F::clear_byte()));
    }

    /// Copies `data` over the start of field `f`; the rest of the field is kept.
    pub fn set_field_bytes_no_clear(&mut self, f: F, data: &[u8])
        ensures
            final(self)@ == with_field(old(self)@, f, overwrite(old(self).field(f), data@)),
            final(self).field(f) == overwrite(old(self).field(f), data@),
            forall|g: F|
                #![trigger final(self).field(g)]
                g != f ==> final(self).field(g) == old(self).field(g),
    {
        self.put_field(f, data, None);
    }

    /// Clears field `f` with the clear byte, then copies the bytes of `s` over its start.
    pub fn set_field_str(&mut self, f: F, s: &str)
        ensures
            final(self)@ == with_field(old(self)@, f, clear_write(width_of(f) as nat, s.spec_bytes(), F::spec_clear_byte())),
            final(self).field(f) == clear_write(width_of(f) as nat, s.spec_bytes(), F::spec_clear_byte()),
            forall|g: F|
                #![trigger final(self).field(g)]
                g != f ==> final(self).field(g) == old(self).field(g),
    {
        self.put_field(f, s.as_bytes(), Some(F::clear_byte()));
    }

    /// Copies the bytes of `s` over the start of field `f`; the rest is kept.
    pub fn set_field_str_no_clear(&mut self, f: F, s: &str)
        ensures
            final(self)@ == with_field(old(self)@, f, overwrite(old(self).field(f), s.spec_bytes())),
            final(self).field(f) == overwrite(old(self).field(f), s.spec_bytes()),
            forall|g: F|
                #![trigger final(self).field(g)]
                g != f ==> final(self).field(g) == old(self).field(g),
    {
        self.put_field(f, s.as_bytes(), None);
    }

    /// Fills the whole record with `0x00`.
    pub fn fill_zero(&mut self)
        ensures
            final(self)@ == repeat_byte(record_len::<F>() as nat, 0),
    {
        *self = Self::zeroed();
    }

    /// Fills the whole record with spaces (`0x20`).
    pub fn fill_space(&mut self)
        ensures
            final(self)@ == repeat_byte(record_len::<F>() as nat, 32),
    {
        *self = Self::spaced();
    }

    /// Copies the bytes of `s` over the start of field `f`, keeping the rest
    /// of the field, and returns the record.
    pub fn with_field_str(self, f: F, s: &str) -> (r: Self)
        ensures
            r@ == with_field(self@, f, overwrite(self.field(f), s.spec_bytes())),
            r.field(f) == overwrite(self.field(f), s.spec_bytes()),
            forall|g: F|
                #![trigger r.field(g)]
                g != f ==> r.field(g) == self.field(g),
    {
        let mut r = self;
        r.put_field(f, s.as_bytes(), None);
        r
    }

    /// Writes `v` in decimal, right-aligned and `0`-filled to the field width,
    /// over field `f`; a text wider than the field keeps only its leading bytes.
    pub fn with_field_int_truncated(self, f: F, v: i64) -> (r: Self)
        ensures
            r@ == with_field(self@, f, overwrite(self.field(f), padded_text(v as int, width_of(f)))),
            r.field(f) == overwrite(self.field(f), padded_text(v as int, width_of(f))),
            forall|g: F|
                #![trigger r.field(g)]
                g != f ==> r.field(g) == self.field(g),
    {
        let w = Self::size_of(f);
        let text = padded_int(v, w);
        let mut r = self;
        r.put_field(f, text.as_slice(), None);
        r
    }

    /// Same as `with_field_int_truncated`.
    pub fn with_field_int(self, f: F, v: i64) -> (r: Self)
        ensures
            r@ == with_field(self@, f, overwrite(self.field(f), padded_text(v as int, width_of(f)))),
            r.field(f) == overwrite(self.field(f), padded_text(v as int, width_of(f))),
            forall|g: F|
                #![trigger r.field(g)]
                g != f ==> r.field(g) == self.field(g),
    {
        self.with_field_int_truncated(f, v)
    }

    /// Writes a `+` or `-` sign and `|v|` right-aligned and `0`-filled in the
    /// rest of the width over field `f`; a wider text keeps only its leading bytes.
    pub fn with_field_int_signed_truncated(self, f: F, v: i64) -> (r: Self)
        ensures
            r@ == with_field(self@, f, overwrite(self.field(f), signed_padded_text(v as int, width_of(f)))),
            r.field(f) == overwrite(self.field(f), signed_padded_text(v as int, width_of(f))),
            forall|g: F|
                #![trigger r.field(g)]
                g != f ==> r.field(g) == self.field(g),
    {
        let w = Self::size_of(f);
        let text = signed_padded_int(v, w);
        let mut r = self;
        r.put_field(f, text.as_slice(), None);
        r
    }

    /// Same as `with_field_int_signed_truncated`.
    pub fn with_field_int_signed(self, f: F, v: i64) -> (r: Self)
        ensures
            r@ == with_field(self@, f, overwrite(self.field(f), signed_padded_text(v as int, width_of(f)))),
            r.field(f) == overwrite(self.field(f), signed_padded_text(v as int, width_of(f))),
            forall|g: F|
                #![trigger r.field(g)]
                g != f ==> r.field(g) == self.field(g),
    {
        self.with_field_int_signed_truncated(f, v)
    }

    /// Writes `v` as `with_field_int` does, or reports `FieldOverflow` when
    /// the text is wider than field `f`.
    pub fn try_with_field_int(self, f: F, v: i64) -> (r: Result<Self, Error>)
        ensures
            match r {
                Ok(rec) => padded_text(v as int, width_of(f)).len() <= width_of(f) && rec@ == with_field(
                    self@,
                    f,
                    overwrite(self.field(f), padded_text(v as int, width_of(f))),
                ),
                Err(e) => padded_text(v as int, width_of(f)).len() > width_of(f) && e == Error::FieldOverflow {
                    field: f.spec_name(),
                    size: width_of(f) as usize,
                    actual: padded_text(v as int, width_of(f)).len() as usize,
                },
            },
    {
        let w = Self::size_of(f);
        let text = padded_int(v, w);
        if text.len() > w {
            return Err(Error::FieldOverflow { field: f.name(), size: w, actual: text.len() });
        }
        let mut r = self;
        r.put_field(f, text.as_slice(), None);
        Ok(r)
    }

    /// Writes `v` as `with_field_int_signed` does, or reports `FieldOverflow`
    /// when the text is wider than field `f`.
    pub fn try_with_field_int_signed(self, f: F, v: i64) -> (r: Result<Self, Error>)
        ensures
            match r {
                Ok(rec) => signed_padded_text(v as int, width_of(f)).len() <= width_of(f) && rec@ == with_field(
                    self@,
                    f,
                    overwrite(self.field(f), signed_padded_text(v as int, width_of(f))),
                ),
                Err(e) => signed_padded_text(v as int, width_of(f)).len() > width_of(f) && e == Error::FieldOverflow {
                    field: f.spec_name(),
                    size: width_of(f) as usize,
                    actual: signed_padded_text(v as int, width_of(f)).len() as usize,
                },
            },
    {
        let w = Self::size_of(f);
        let text = signed_padded_int(v, w);
        if text.len() > w {
            return Err(Error::FieldOverflow { field: f.name(), size: w, actual: text.len() });
        }
        let mut r = self;
        r.put_field(f, text.as_slice(), None);
        Ok(r)
    }

}

impl<F: RecordLayout> Record<F> {
    /// Spreads `data` over the fields from position `start` on.
    fn spread_from(self, start: usize, data: &[u8]) -> (r: Self)
        requires
            start < F::spec_widths().len(),
        ensures
            r@.len() == record_len::<F>(),
            forall|i: int|
                0 <= i < F::spec_widths().len() ==> #[trigger] field_view(r@, F::spec_widths(), i)
                    == spread_field(
                    F::spec_widths(),
                    start as int,
                    i,
                    field_view(self@, F::spec_widths(), i),
                    data@,
                    F::spec_clear_byte(),
                ),
    {
        proof {
            use_type_invariant(&self);
            F::lemma_layout();
        }
        let widths = F::widths();
        let fields = F::all_fields();
        let clear = F::clear_byte();
        let n = widths.len();
        let ghost ws = F::spec_widths();
        let ghost orig = self@;
        let base = offset_at(&widths, start);
        let mut this = self;
        let mut j: usize = start;
        let mut pos: usize = 0;
        while j < n && pos < data.len()
            invariant
                ws == F::spec_widths(),
                widths@ == ws,
                layout_ok(ws),
                n == ws.len(),
                fields@.len() == n,
                forall|i: int| 0 <= i < n ==> (#[trigger] fields@[i]).spec_index() == i,
                clear == F::spec_clear_byte(),
                start <= j <= n,
                base == offset_of(ws, start as int),
                pos == offset_of(ws, j as int) - base,
                orig.len() == record_len::<F>(),
                this@.len() == record_len::<F>(),
                forall|i: int|
                    0 <= i < n ==> #[trigger] field_view(this@, ws, i) == if start <= i < j {
                        spread_field(ws, start as int, i, field_view(orig, ws, i), data@, clear)
                    } else {
                        field_view(orig, ws, i)
                    },
            decreases n - j,
        {
            proof {
                lemma_field_bounds(ws, j as int);
                lemma_offset_monotone(ws, start as int, j as int);
            }
            let w = widths[j];
            let end = if pos + w < data.len() { pos + w } else { data.len() };
            let part = slice_subrange(data, pos, end);
            let ghost before = this@;
            let fj = fields[j];
            this.put_field(fj, part, Some(clear));
            proof {
                assert forall|i: int| 0 <= i < n implies #[trigger] field_view(this@, ws, i) == if start <= i
                    < j + 1 {
                    spread_field(ws, start as int, i, field_view(orig, ws, i), data@, clear)
                } else {
                    field_view(orig, ws, i)
                } by {
                    let g = fields@[i];
                    assert(g.spec_index() == i);
                    if i != j {
                        assert(this.field(g) == field_view(before, ws, i));
                    } else {
                        assert(fj.spec_index() == j);
                    }
                }
            }
            pos = pos + w;
            j = j + 1;
        }
        proof {
            assert forall|i: int| 0 <= i < n implies #[trigger] field_view(this@, ws, i) == spread_field(
                ws,
                start as int,
                i,
                field_view(orig, ws, i),
                data@,
                clear,
            ) by {
                if i >= j && i >= start {
                    lemma_offset_monotone(ws, j as int, i);
                }
            }
        }
        this
    }

    /// Spreads `data` over the fields in declaration order: each field the data
    /// reaches is cleared and gets its share; later fields keep their bytes.
    pub fn apply_bytes(self, data: &[u8]) -> (r: Self)
        ensures
            forall|i: int|
                0 <= i < F::spec_widths().len() ==> #[trigger] field_view(r@, F::spec_widths(), i)
                    == spread_field(
                    F::spec_widths(),
                    0,
                    i,
                    field_view(self@, F::spec_widths(), i),
                    data@,
                    F::spec_clear_byte(),
                ),
    {
        proof {
            F::lemma_layout();
        }
        self.spread_from(0, data)
    }

    /// Spreads the bytes of `s` over the fields, as `apply_bytes` does.
    pub fn apply_str(self, s: &str) -> (r: Self)
        ensures
            forall|i: int|
                0 <= i < F::spec_widths().len() ==> #[trigger] field_view(r@, F::spec_widths(), i)
                    == spread_field(
                    F::spec_widths(),
                    0,
                    i,
                    field_view(self@, F::spec_widths(), i),
                    s.spec_bytes(),
                    F::spec_clear_byte(),
                ),
    {
        self.apply_bytes(s.as_bytes())
    }

    /// Spreads `data` over the fields from `start` on; fields before `start`
    /// are kept.
    pub fn apply_bytes_from(self, start: F, data: &[u8]) -> (r: Self)
        ensures
            forall|i: int|
                0 <= i < F::spec_widths().len() ==> #[trigger] field_view(r@, F::spec_widths(), i)
                    == spread_field(
                    F::spec_widths(),
                    start.spec_index(),
                    i,
                    field_view(self@, F::spec_widths(), i),
                    data@,
                    F::spec_clear_byte(),
                ),
    {
        proof {
            F::lemma_layout();
        }
        self.spread_from(start.index(), data)
    }

    /// Spreads the bytes of `s` over the fields from `start` on.
    pub fn apply_str_from(self, start: F, s: &str) -> (r: Self)
        ensures
            forall|i: int|
                0 <= i < F::spec_widths().len() ==> #[trigger] field_view(r@, F::spec_widths(), i)
                    == spread_field(
                    F::spec_widths(),
                    start.spec_index(),
                    i,
                    field_view(self@, F::spec_widths(), i),
                    s.spec_bytes(),
                    F::spec_clear_byte(),
                ),
    {
        self.apply_bytes_from(start, s.as_bytes())
    }
}

impl<F: RecordLayout> Record<F> {
    /// Hands the record to `f` to change it, then returns it.
    pub fn apply<G: FnOnce(&mut Self)>(self, f: G) -> (r: Self)
        requires
            forall|x: &mut Self| #[trigger] f.requires((x,)),
        ensures
            exists|x: &mut Self| *x == self && *final(x) == r && #[trigger] f.ensures((x,), ()),
    {
        let mut r = self;
        f(&mut r);
        r
    }
}

/// The bytes of `v` in place, by `Vec::as_mut_slice`: the slice shows what
/// `v` holds, what is written through it is what `v` then holds, and (as for
/// every slice) its length cannot change.
#[verifier::external_body]
fn bytes_in_place(v: &mut Vec<u8>) -> (r: &mut [u8])
    ensures
        r@ == old(v)@,
        final(v)@ == final(r)@,
        final(r)@.len() == r@.len(),
    no_unwind
{
    v.as_mut_slice()
}

/// The total width of the listed fields; a field listed twice counts twice.
pub open spec fn fields_width<F: RecordLayout>(fields: Seq<F>) -> int
    decreases fields.len(),
{
    if fields.len() == 0 {
        0
    } else {
        fields_width(fields.drop_last()) + width_of(fields.last())
    }
}

impl<F: RecordLayout> Record<F> {
    /// The total width of the listed fields.
    pub fn byte_len_fields(fields: &[F]) -> (n: usize)
        requires
            fields_width(fields@) <= usize::MAX,
        ensures
            n == fields_width(fields@),
    {
        let mut n: usize = 0;
        let mut k: usize = 0;
        assert(fields@.subrange(0, 0).len() == 0);
        while k < fields.len()
            invariant
                0 <= k <= fields@.len(),
                fields_width(fields@) <= usize::MAX,
                n == fields_width(fields@.subrange(0, k as int)),
            decreases fields@.len() - k,
        {
            assert(fields@.subrange(0, k + 1).drop_last() =~= fields@.subrange(0, k as int));
            proof {
                lemma_fields_width_prefix(fields@, k as int + 1);
            }
            n = n + Self::size_of(fields[k]);
            k = k + 1;
        }
        assert(fields@.subrange(0, k as int) =~= fields@);
        n
    }

    /// Reads a record from the first bytes of `src`, as `parse` does.
    pub fn parse_unchecked(src: &[u8]) -> (r: Result<Self, Error>)
        ensures
            match r {
                Ok(rec) => src@.len() >= record_len::<F>() && rec@ == src@.subrange(0, record_len::<F>()),
                Err(e) => src@.len() < record_len::<F>() && e == Error::TooShort,
            },
    {
        Self::parse(src)
    }

    /// Reads a record from the first bytes of `src`; `TooShort` when there
    /// are not enough.
    pub fn from_bytes_unchecked(src: &[u8]) -> (r: Result<Self, Error>)
        ensures
            match r {
                Ok(rec) => src@.len() >= record_len::<F>() && rec@ == src@.subrange(0, record_len::<F>()),
                Err(e) => src@.len() < record_len::<F>() && e == Error::TooShort,
            },
    {
        Self::parse(src)
    }

    /// Reads a record from the first bytes of the string `src`.
    pub fn from_str_unchecked(src: &str) -> (r: Result<Self, Error>)
        ensures
            match r {
                Ok(rec) => src.spec_bytes().len() >= record_len::<F>() && rec@ == src.spec_bytes().subrange(
                    0,
                    record_len::<F>(),
                ),
                Err(e) => src.spec_bytes().len() < record_len::<F>() && e == Error::TooShort,
            },
    {
        Self::parse(src.as_bytes())
    }

    /// The record's bytes, in place, for writing; the length stays fixed.
    pub fn as_mut_bytes(&mut self) -> (r: &mut [u8])
        ensures
            r@ == old(self)@,
            final(self)@ == final(r)@,
    {
        proof {
            use_type_invariant(&*self);
        }
        bytes_in_place(&mut self.bytes)
    }

    /// The record's bytes, in place.
    pub fn as_bytes_unchecked(&self) -> (r: &[u8])
        ensures
            r@ == self@,
            r@.len() == record_len::<F>(),
    {
        self.as_bytes()
    }
}

/// The width of a prefix of the list is at most that of the whole list.
proof fn lemma_fields_width_prefix<F: RecordLayout>(fields: Seq<F>, k: int)
    requires
        0 <= k <= fields.len(),
    ensures
        fields_width(fields.subrange(0, k)) <= fields_width(fields),
    decreases fields.len() - k,
{
    if k < fields.len() {
        lemma_fields_width_prefix(fields, k + 1);
        assert(fields.subrange(0, k + 1).drop_last() =~= fields.subrange(0, k));
        assert(width_of(fields[k]) >= 0);
    } else {
        assert(fields.subrange(0, k) =~= fields);
    }
}

impl<F: RecordLayout> Default for Record<F> {
    /// A record cleared with the layout's clear byte.
    fn default() -> (r: Self)
        ensures
            r@ == repeat_byte(record_len::<F>() as nat, F::spec_clear_byte()),
    {
        Self::cleared()
    }
}

} // verus!
