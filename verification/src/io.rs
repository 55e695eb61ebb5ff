use vstd::prelude::*;
use vstd::slice::{slice_subrange, slice_to_vec};

use crate::error::{Error, IoErrorKind};
use crate::order::{lex_compare, lex_order};
use crate::traits::{FixedRecord, SequenceFields};

verus! {

/// The bytes written after every record.
#[derive(Clone, Copy, Debug, PartialEq, Eq)]
pub enum RecordSeparator {
    /// `\n`
    Lf,
    /// `\r\n`
    Crlf,
    /// `\r`
    Cr,
    /// `,`
    Comma,
    /// Nothing: records follow each other directly.
    Empty,
}

/// The bytes of a separator.
pub open spec fn separator_bytes(sep: RecordSeparator) -> Seq<u8> {
    match sep {
        RecordSeparator::Lf => seq![10u8],
        RecordSeparator::Crlf => seq![13u8, 10u8],
        RecordSeparator::Cr => seq![13u8],
        RecordSeparator::Comma => seq![44u8],
        RecordSeparator::Empty => Seq::empty(),
    }
}

impl RecordSeparator {
    /// The bytes of this separator.
    pub fn to_bytes(&self) -> (r: Vec<u8>)
        ensures
            r@ == separator_bytes(*self),
    {
        let mut r: Vec<u8> = Vec::new();
        match self {
            RecordSeparator::Lf => r.push(10),
            RecordSeparator::Crlf => {
                r.push(13);
                r.push(10);
            },
            RecordSeparator::Cr => r.push(13),
            RecordSeparator::Comma => r.push(44),
            RecordSeparator::Empty => {},
        }
        assert(r@ =~= separator_bytes(*self));
        r
    }
}

/// A record's bytes as the writer puts them out: every NUL becomes a space.
pub open spec fn blank_nul(s: Seq<u8>) -> Seq<u8> {
    Seq::new(s.len(), |i: int| if s[i] == 0 { 32u8 } else { s[i] })
}

/// A byte the reader skips after a record: `\n`, `\r`, or a byte of the
/// configured separator.
pub open spec fn is_skip(b: u8, sep: Seq<u8>) -> bool {
    b == 10 || b == 13 || sep.contains(b)
}

/// The first position at or after `q` that does not hold a skipped byte.
pub open spec fn skip_end(data: Seq<u8>, q: int, sep: Seq<u8>) -> int
    decreases data.len() - q,
{
    if q < 0 || q >= data.len() || !is_skip(data[q], sep) {
        q
    } else {
        skip_end(data, q + 1, sep)
    }
}

/// The stream a writer produces for `recs`: each record, NULs blanked,
/// followed by the separator.
pub open spec fn written_stream(recs: Seq<Seq<u8>>, sep: Seq<u8>) -> Seq<u8>
    decreases recs.len(),
{
    if recs.len() == 0 {
        Seq::empty()
    } else {
        written_stream(recs.drop_last(), sep) + blank_nul(recs.last()) + sep
    }
}

/// Writes fixed-width records, each followed by a separator, into a byte
/// buffer. NUL bytes in a record are written as spaces.
pub struct Writer {
    out: Vec<u8>,
    separator: Vec<u8>,
}

impl Writer {
    /// The bytes written so far.
    pub closed spec fn written(&self) -> Seq<u8> {
        self.out@
    }

    /// The bytes written after every record.
    pub closed spec fn separator(&self) -> Seq<u8> {
        self.separator@
    }

    /// A writer that has written nothing and separates records with `\n`.
    pub fn new() -> (w: Self)
        ensures
            w.written() == Seq::<u8>::empty(),
            w.separator() == seq![10u8],
    {
        let mut separator: Vec<u8> = Vec::new();
        separator.push(10);
        let w = Writer { out: Vec::new(), separator };
        assert(w.separator() =~= seq![10u8]);
        w
    }

    /// Uses `sep` after every record.
    pub fn with_separator(self, sep: RecordSeparator) -> (w: Self)
        ensures
            w.written() == self.written(),
            w.separator() == separator_bytes(sep),
    {
        Writer { out: self.out, separator: sep.to_bytes() }
    }

    /// Uses `newline` after every record.
    pub fn with_newline(self, newline: &[u8]) -> (w: Self)
        ensures
            w.written() == self.written(),
            w.separator() == newline@,
    {
        Writer { out: self.out, separator: slice_to_vec(newline) }
    }

    /// Writes one record, NULs blanked, followed by the separator.
    pub fn write_record<T: FixedRecord>(&mut self, record: &T) -> (r: Result<(), Error>)
        ensures
            r is Ok,
            final(self).written() == old(self).written() + blank_nul(record.spec_bytes()) + old(
                self,
            ).separator(),
            final(self).separator() == old(self).separator(),
    {
        let bytes = record.to_bytes();
        let ghost start = self.out@;
        let mut i: usize = 0;
        while i < bytes.len()
            invariant
                0 <= i <= bytes@.len(),
                self.out@ =~= start + blank_nul(bytes@).subrange(0, i as int),
                self.separator@ == old(self).separator@,
            decreases bytes@.len() - i,
        {
            let b = bytes[i];
            self.out.push(if b == 0 { 32 } else { b });
            i = i + 1;
        }
        assert(blank_nul(bytes@).subrange(0, bytes@.len() as int) =~= blank_nul(bytes@));
        let ghost middle = self.out@;
        let mut j: usize = 0;
        while j < self.separator.len()
            invariant
                0 <= j <= self.separator@.len(),
                self.separator@ == old(self).separator@,
                self.out@ =~= middle + self.separator@.subrange(0, j as int),
            decreases self.separator@.len() - j,
        {
            let b = self.separator[j];
            self.out.push(b);
            j = j + 1;
        }
        assert(self.separator@.subrange(0, self.separator@.len() as int) =~= self.separator@);
        Ok(())
    }

    /// Nothing is held back, so flushing always succeeds and changes nothing.
    pub fn flush(&mut self) -> (r: Result<(), Error>)
        ensures
            r is Ok,
            final(self).written() == old(self).written(),
            final(self).separator() == old(self).separator(),
    {
        Ok(())
    }

    /// The bytes written so far, in place.
    pub fn output(&self) -> (r: &[u8])
        ensures
            r@ == self.written(),
    {
        self.out.as_slice()
    }

    /// The bytes written, handed over.
    pub fn into_inner(self) -> (r: Vec<u8>)
        ensures
            r@ == self.written(),
    {
        self.out
    }
}

/// The contents of a list of byte strings.
pub open spec fn key_view(k: Vec<Vec<u8>>) -> Seq<Seq<u8>> {
    Seq::new(k@.len(), |i: int| k@[i]@)
}

/// Lexicographic order of lists of byte strings, each element compared by
/// `lex_order`: `-1`, `0` or `1`.
pub open spec fn key_order(a: Seq<Seq<u8>>, b: Seq<Seq<u8>>) -> int
    decreases a.len(),
{
    if a.len() == 0 {
        if b.len() == 0 {
            0
        } else {
            -1
        }
    } else if b.len() == 0 {
        1
    } else if lex_order(a[0], b[0]) != 0 {
        lex_order(a[0], b[0])
    } else {
        key_order(a.drop_first(), b.drop_first())
    }
}

/// The sequence-check key of a record: the bytes of each checked field.
pub open spec fn key_of<T: FixedRecord>(bytes: Seq<u8>, fields: Seq<T::Field>) -> Seq<Seq<u8>> {
    Seq::new(fields.len(), |i: int| T::spec_field_in(bytes, fields[i]))
}

/// The names of the checked fields.
pub open spec fn names_of<T: FixedRecord>(fields: Seq<T::Field>) -> Seq<&'static str> {
    Seq::new(fields.len(), |i: int| T::spec_field_name(fields[i]))
}

/// Whether a record with `key` may follow one with `previous`: its key must
/// be greater, or equal when equal keys are allowed.
pub open spec fn in_sequence(previous: Option<Seq<Seq<u8>>>, key: Seq<Seq<u8>>, allow_equal: bool) -> bool {
    match previous {
        Option::None => true,
        Option::Some(p) => key_order(key, p) > 0 || (key_order(key, p) == 0 && allow_equal),
    }
}

/// No field is listed twice.
pub open spec fn distinct_fields<T: FixedRecord>(fields: Seq<T::Field>) -> bool {
    forall|i: int, j: int|
        0 <= i < j < fields.len() ==> T::spec_field_id(fields[i]) != T::spec_field_id(fields[j])
}

/// Compares two keys as `key_order` does.
fn key_compare(a: &Vec<Vec<u8>>, b: &Vec<Vec<u8>>) -> (r: i8)
    ensures
        r as int == key_order(key_view(*a), key_view(*b)),
{
    let n = if a.len() < b.len() { a.len() } else { b.len() };
    let mut i: usize = 0;
    assert(key_view(*a).subrange(0, a@.len() as int) =~= key_view(*a));
    assert(key_view(*b).subrange(0, b@.len() as int) =~= key_view(*b));
    while i < n
        invariant
            0 <= i <= n,
            n <= a@.len(),
            n <= b@.len(),
            n == a@.len() || n == b@.len(),
            key_order(key_view(*a), key_view(*b)) == key_order(
                key_view(*a).subrange(i as int, a@.len() as int),
                key_view(*b).subrange(i as int, b@.len() as int),
            ),
        decreases n - i,
    {
        let c = lex_compare(a[i].as_slice(), b[i].as_slice());
        let ghost sa = key_view(*a).subrange(i as int, a@.len() as int);
        let ghost sb = key_view(*b).subrange(i as int, b@.len() as int);
        assert(sa[0] == a@[i as int]@);
        assert(sb[0] == b@[i as int]@);
        if c != 0 {
            return c;
        }
        assert(sa.drop_first() =~= key_view(*a).subrange(i + 1, a@.len() as int));
        assert(sb.drop_first() =~= key_view(*b).subrange(i + 1, b@.len() as int));
        i = i + 1;
    }
    if a.len() < b.len() {
        -1
    } else if a.len() > b.len() {
        1
    } else {
        0
    }
}

/// A copy of a key.
fn copy_key(k: &Vec<Vec<u8>>) -> (r: Vec<Vec<u8>>)
    ensures
        key_view(r) == key_view(*k),
{
    let mut r: Vec<Vec<u8>> = Vec::new();
    let mut i: usize = 0;
    while i < k.len()
        invariant
            0 <= i <= k@.len(),
            r@.len() == i,
            forall|j: int| 0 <= j < i ==> r@[j]@ == k@[j]@,
        decreases k@.len() - i,
    {
        r.push(slice_to_vec(k[i].as_slice()));
        i = i + 1;
    }
    assert(key_view(r) =~= key_view(*k));
    r
}

/// Skipping never moves back, and from inside the data it stops at its end
/// at the latest.
pub proof fn lemma_skip_end_ahead(data: Seq<u8>, q: int, sep: Seq<u8>)
    requires
        0 <= q,
    ensures
        skip_end(data, q, sep) >= q,
        q <= data.len() ==> skip_end(data, q, sep) <= data.len(),
    decreases data.len() - q,
{
    if q < data.len() && skip_end(data, q, sep) != q {
        lemma_skip_end_ahead(data, q + 1, sep);
    }
}

/// The records of `n` bytes each that a reader over `data` standing at `pos`
/// reads to the end of a clean source, skipping after each record as
/// `skip_end` does; `None` when the data ends inside a record.
pub open spec fn read_records(data: Seq<u8>, pos: int, sep: Seq<u8>, n: int) -> Option<Seq<Seq<u8>>>
    decreases data.len() - pos,
{
    if pos < 0 || n <= 0 || pos >= data.len() {
        Some(Seq::empty())
    } else if data.len() - pos < n {
        None
    } else {
        proof {
            lemma_skip_end_ahead(data, pos + n, sep);
        }
        match read_records(data, skip_end(data, pos + n, sep), sep, n) {
            Some(rest) => Some(seq![data.subrange(pos, pos + n)] + rest),
            None => None,
        }
    }
}

/// Records, each followed by its gap of skipped bytes, one after another.
pub open spec fn joined(recs: Seq<Seq<u8>>, gaps: Seq<Seq<u8>>) -> Seq<u8>
    decreases recs.len(),
{
    if recs.len() == 0 {
        Seq::empty()
    } else {
        recs[0] + gaps[0] + joined(recs.drop_first(), gaps.drop_first())
    }
}

/// Skipping inside data behind a prefix is skipping in the data, shifted.
proof fn lemma_skip_shift(a: Seq<u8>, d: Seq<u8>, q: int, sep: Seq<u8>)
    requires
        0 <= q,
    ensures
        skip_end(a + d, a.len() + q, sep) == a.len() + skip_end(d, q, sep),
    decreases d.len() - q,
{
    if q < d.len() {
        assert((a + d)[a.len() + q] == d[q]);
        if is_skip(d[q], sep) {
            lemma_skip_shift(a, d, q + 1, sep);
        }
    }
}

/// Reading data behind a prefix, from inside the data, is reading the data.
proof fn lemma_read_shift(a: Seq<u8>, d: Seq<u8>, p: int, sep: Seq<u8>, n: int)
    requires
        0 <= p,
    ensures
        read_records(a + d, a.len() + p, sep, n) == read_records(d, p, sep, n),
    decreases d.len() - p,
{
    let ad = a + d;
    if n > 0 && p < d.len() && d.len() - p >= n {
        lemma_skip_shift(a, d, p + n, sep);
        lemma_skip_end_ahead(d, p + n, sep);
        lemma_read_shift(a, d, skip_end(d, p + n, sep), sep, n);
        assert(ad.subrange(a.len() + p, a.len() + p + n) =~= d.subrange(p, p + n));
    }
}

/// A run of skipped bytes is skipped to its end, where the next record (if
/// any) starts with a byte that is not skipped.
proof fn lemma_skip_gap(g: Seq<u8>, rest: Seq<u8>, q: int, sep: Seq<u8>)
    requires
        0 <= q <= g.len(),
        forall|k: int| 0 <= k < g.len() ==> is_skip(#[trigger] g[k], sep),
        rest.len() == 0 || !is_skip(rest[0], sep),
    ensures
        skip_end(g + rest, q, sep) == g.len(),
    decreases g.len() - q,
{
    let d = g + rest;
    if q < g.len() {
        assert(d[q] == g[q]);
        lemma_skip_gap(g, rest, q + 1, sep);
    } else if rest.len() > 0 {
        assert(d[q] == rest[0]);
    }
}

/// Reading records joined by runs of skipped bytes gives the records back,
/// whatever the runs hold, as long as no record starts with a skipped byte.
pub proof fn law_read_joined(recs: Seq<Seq<u8>>, gaps: Seq<Seq<u8>>, sep: Seq<u8>, n: int)
    requires
        n > 0,
        gaps.len() == recs.len(),
        forall|k: int| 0 <= k < recs.len() ==> (#[trigger] recs[k]).len() == n,
        forall|k: int| 0 <= k < recs.len() ==> !is_skip(#[trigger] recs[k][0], sep),
        forall|k: int, j: int| 0 <= k < gaps.len() && 0 <= j < gaps[k].len() ==> is_skip(#[trigger] gaps[k][j], sep),
    ensures
        read_records(joined(recs, gaps), 0, sep, n) == Some(recs),
    decreases recs.len(),
{
    if recs.len() == 0 {
        assert(read_records(joined(recs, gaps), 0, sep, n) == Some(Seq::<Seq<u8>>::empty()));
        assert(recs =~= Seq::<Seq<u8>>::empty());
    } else {
        let tr = recs.drop_first();
        let tg = gaps.drop_first();
        assert forall|k: int| 0 <= k < tr.len() implies (#[trigger] tr[k]).len() == n by {
            assert(tr[k] == recs[k + 1]);
        }
        assert forall|k: int| 0 <= k < tr.len() implies !is_skip(#[trigger] tr[k][0], sep) by {
            assert(tr[k] == recs[k + 1]);
        }
        assert forall|k: int, j: int| 0 <= k < tg.len() && 0 <= j < tg[k].len() implies is_skip(
            #[trigger] tg[k][j],
            sep,
        ) by {
            assert(tg[k] == gaps[k + 1]);
        }
        law_read_joined(tr, tg, sep, n);
        let r0 = recs[0];
        let g0 = gaps[0];
        let rest = joined(tr, tg);
        let data = joined(recs, gaps);
        assert(data == r0 + g0 + rest);
        assert(rest.len() == 0 || rest[0] == tr[0][0]) by {
            if tr.len() > 0 {
                assert(rest == tr[0] + tg[0] + joined(tr.drop_first(), tg.drop_first()));
            }
        }
        assert forall|k: int| 0 <= k < g0.len() implies is_skip(#[trigger] g0[k], sep) by {
            assert(is_skip(gaps[0][k], sep));
        }
        lemma_skip_gap(g0, rest, 0, sep);
        assert(data =~= r0 + (g0 + rest));
        lemma_skip_shift(r0, g0 + rest, 0, sep);
        assert(skip_end(data, n, sep) == n + g0.len());
        assert(data =~= (r0 + g0) + rest);
        lemma_read_shift(r0 + g0, rest, 0, sep, n);
        assert(data.subrange(0, n) =~= r0);
        assert(seq![r0] + tr =~= recs);
    }
}

/// How reading a source to its end turns out.
pub enum ReadOutcome {
    /// Every record was read: their bytes, in order.
    Records(Seq<Seq<u8>>),
    /// The source ended inside a record: the record's length and the bytes
    /// that were left.
    Incomplete(nat, nat),
    /// The source failed with an error of this kind.
    Failed(IoErrorKind),
    /// A record came out of order: the key of the record accepted before it,
    /// and its own key.
    OutOfOrder(Seq<Seq<u8>>, Seq<Seq<u8>>),
}

/// `o` with the records `xs` read before it.
pub open spec fn after_records(xs: Seq<Seq<u8>>, o: ReadOutcome) -> ReadOutcome {
    match o {
        ReadOutcome::Records(rs) => ReadOutcome::Records(xs + rs),
        _ => o,
    }
}

/// Records read one after another add up.
pub proof fn lemma_after_records_twice(xs: Seq<Seq<u8>>, ys: Seq<Seq<u8>>, o: ReadOutcome)
    ensures
        after_records(xs, after_records(ys, o)) == after_records(xs + ys, o),
{
    if let ReadOutcome::Records(rs) = o {
        assert(xs + (ys + rs) =~= (xs + ys) + rs);
    }
}

/// What calling `next` on a reader of `T` records until it gives `None` or
/// an error turns out to be, from a reader standing at `pos` of `data` that
/// skips `sep`, whose source then ends as `failure` says, lenient or not,
/// checking the order of `fields` (equal keys allowed when `allow`) after a
/// record with key `prev`.
pub open spec fn read_all<T: FixedRecord>(
    data: Seq<u8>,
    pos: int,
    sep: Seq<u8>,
    failure: Option<IoErrorKind>,
    lenient: bool,
    fields: Seq<T::Field>,
    allow: bool,
    prev: Option<Seq<Seq<u8>>>,
) -> ReadOutcome
    decreases data.len() - pos,
{
    let n = T::spec_total_len();
    if pos < 0 || n <= 0 || pos >= data.len() {
        if failure is Some && !lenient {
            ReadOutcome::Failed(failure->0)
        } else {
            ReadOutcome::Records(Seq::empty())
        }
    } else if data.len() - pos < n {
        if lenient {
            ReadOutcome::Records(Seq::empty())
        } else if failure is Some {
            ReadOutcome::Failed(failure->0)
        } else {
            ReadOutcome::Incomplete(n as nat, (data.len() - pos) as nat)
        }
    } else {
        proof {
            lemma_skip_end_ahead(data, pos + n, sep);
        }
        let bytes = data.subrange(pos, pos + n);
        let q = skip_end(data, pos + n, sep);
        let key = key_of::<T>(bytes, fields);
        if q == data.len() && failure is Some && !lenient {
            ReadOutcome::Failed(failure->0)
        } else if fields.len() == 0 || in_sequence(prev, key, allow) {
            let prev2 = if fields.len() == 0 {
                prev
            } else {
                Some(key)
            };
            after_records(seq![bytes], read_all::<T>(data, q, sep, failure, lenient, fields, allow, prev2))
        } else {
            ReadOutcome::OutOfOrder(prev->0, key)
        }
    }
}

/// Reads fixed-width records one after another from a byte source.
///
/// The source is the bytes it delivers and how it ends: cleanly, or with a
/// failure once those bytes are used up. After each record the reader skips
/// every following `\n`, `\r` and separator byte. A sequence check, when
/// set, makes the reader refuse a record whose checked fields are not in
/// ascending order after the previous accepted record.
pub struct Reader<T: FixedRecord> {
    data: Vec<u8>,
    failure: Option<IoErrorKind>,
    pos: usize,
    separator: Vec<u8>,
    sequence_fields: Vec<T::Field>,
    allow_equal_sequence: bool,
    previous_sequence_key: Option<Vec<Vec<u8>>>,
    lenient: bool,
}

impl<T: FixedRecord> Reader<T> {
    /// The reader never stands past the end of its source.
    #[verifier::type_invariant]
    pub closed spec fn inv(self) -> bool {
        self.pos <= self.data@.len()
    }

    /// The bytes the source delivers.
    pub closed spec fn source(&self) -> Seq<u8> {
        self.data@
    }

    /// Whether the source fails once its bytes are used up.
    pub closed spec fn fails(&self) -> bool {
        self.failure is Some
    }

    /// How the source fails once its bytes are used up, if it does.
    pub closed spec fn failure(&self) -> Option<IoErrorKind> {
        self.failure
    }

    /// The source fails exactly when it has a failure to report.
    pub proof fn lemma_fails(&self)
        ensures
            self.fails() == (self.failure() is Some),
    {
    }

    /// How many source bytes have been used.
    pub closed spec fn position(&self) -> int {
        self.pos as int
    }

    /// Whether the reader ends quietly where it would report a short tail or
    /// a failure of the source.
    pub closed spec fn is_lenient(&self) -> bool {
        self.lenient
    }

    /// The configured separator.
    pub closed spec fn separator(&self) -> Seq<u8> {
        self.separator@
    }

    /// The fields of the sequence check; none when there is no check.
    pub closed spec fn checked_fields(&self) -> Seq<T::Field> {
        self.sequence_fields@
    }

    /// Whether the sequence check lets equal keys follow each other.
    pub closed spec fn allows_equal(&self) -> bool {
        self.allow_equal_sequence
    }

    /// The key of the last record the sequence check accepted.
    pub closed spec fn previous_key(&self) -> Option<Seq<Seq<u8>>> {
        match self.previous_sequence_key {
            Option::Some(k) => Option::Some(key_view(k)),
            Option::None => Option::None,
        }
    }

    /// How many source bytes have been used; never more than the source holds.
    pub fn consumed(&self) -> (n: usize)
        ensures
            n == self.position(),
            n <= self.source().len(),
    {
        proof {
            use_type_invariant(self);
        }
        self.pos
    }

    /// A reader over `data`, a source that ends cleanly after these bytes.
    /// Until another separator is set, it skips `\n`, `\r` and `,` after a
    /// record, so a record that starts with one of them is not read whole.
    /// No separator is required after the last record.
    pub fn new(data: Vec<u8>) -> (r: Self)
        ensures
            r.source() == data@,
            !r.fails(),
            r.position() == 0,
            r.separator() == seq![44u8],
            r.checked_fields().len() == 0,
            r.allows_equal(),
            r.previous_key() is None,
            !r.is_lenient(),
    {
        Self::from_source(data, Option::None)
    }

    /// A reader over a source that delivers `data` and then either ends
    /// cleanly (`failure` is `None`) or fails with an error of the given kind.
    pub fn from_source(data: Vec<u8>, failure: Option<IoErrorKind>) -> (r: Self)
        ensures
            r.source() == data@,
            r.fails() == (failure is Some),
            r.failure() == failure,
            r.position() == 0,
            r.separator() == seq![44u8],
            r.checked_fields().len() == 0,
            r.allows_equal(),
            r.previous_key() is None,
            !r.is_lenient(),
    {
        let mut separator: Vec<u8> = Vec::new();
        separator.push(44);
        let r = Reader {
            data,
            failure,
            pos: 0,
            separator,
            sequence_fields: Vec::new(),
            allow_equal_sequence: true,
            previous_sequence_key: Option::None,
            lenient: false,
        };
        assert(r.separator() =~= seq![44u8]);
        r
    }

    /// Uses `sep` as the separator.
    pub fn with_separator(self, sep: RecordSeparator) -> (r: Self)
        ensures
            r.source() == self.source(),
            r.fails() == self.fails(),
            r.position() == self.position(),
            r.separator() == separator_bytes(sep),
            r.checked_fields() == self.checked_fields(),
            r.allows_equal() == self.allows_equal(),
            r.previous_key() == self.previous_key(),
            r.is_lenient() == self.is_lenient(),
    {
        let mut r = self;
        proof {
            use_type_invariant(&r);
        }
        r.separator = sep.to_bytes();
        r
    }

    /// Ends quietly instead of reporting a short tail or a failing source, and
    /// keeps a record after which the source fails.
    pub fn lenient(self) -> (r: Self)
        ensures
            r.source() == self.source(),
            r.fails() == self.fails(),
            r.failure() == self.failure(),
            r.position() == self.position(),
            r.separator() == self.separator(),
            r.checked_fields() == self.checked_fields(),
            r.allows_equal() == self.allows_equal(),
            r.previous_key() == self.previous_key(),
            r.is_lenient(),
    {
        let mut r = self;
        proof {
            use_type_invariant(&r);
        }
        r.lenient = true;
        r
    }

    /// Checks that records come in ascending order of `fields`; equal keys
    /// may follow each other.
    pub fn with_sequence_check<S: SequenceFields<T>>(self, fields: S) -> (r: Self)
        requires
            distinct_fields::<T>(fields.spec_fields()),
        ensures
            r.source() == self.source(),
            r.fails() == self.fails(),
            r.position() == self.position(),
            r.separator() == self.separator(),
            r.checked_fields() == fields.spec_fields(),
            r.allows_equal() == self.allows_equal(),
            r.previous_key() == self.previous_key(),
            r.is_lenient() == self.is_lenient(),
    {
        let mut r = self;
        proof {
            use_type_invariant(&r);
        }
        r.set_sequence_check_fields(fields.to_sequence_fields());
        r
    }

    /// Checks that records come in ascending order of `fields`; equal keys
    /// may follow each other only when `allow_equal` is set.
    pub fn with_sequence_check_options<S: SequenceFields<T>>(self, fields: S, allow_equal: bool) -> (r: Self)
        requires
            distinct_fields::<T>(fields.spec_fields()),
        ensures
            r.source() == self.source(),
            r.fails() == self.fails(),
            r.position() == self.position(),
            r.separator() == self.separator(),
            r.checked_fields() == fields.spec_fields(),
            r.allows_equal() == allow_equal,
            r.previous_key() == self.previous_key(),
            r.is_lenient() == self.is_lenient(),
    {
        let mut r = self;
        proof {
            use_type_invariant(&r);
        }
        r.set_sequence_check_fields(fields.to_sequence_fields());
        r.allow_equal_sequence = allow_equal;
        r
    }

    /// Sets the fields of the sequence check.
    fn set_sequence_check_fields(&mut self, fields: Vec<T::Field>)
        requires
            distinct_fields::<T>(fields@),
        ensures
            final(self).source() == old(self).source(),
            final(self).fails() == old(self).fails(),
            final(self).failure() == old(self).failure(),
            final(self).position() == old(self).position(),
            final(self).separator() == old(self).separator(),
            final(self).checked_fields() == fields@,
            final(self).allows_equal() == old(self).allows_equal(),
            final(self).previous_key() == old(self).previous_key(),
            final(self).is_lenient() == old(self).is_lenient(),
    {
        proof {
            use_type_invariant(&*self);
        }
        self.sequence_fields = fields;
    }

    /// Applies the sequence check to a record with the bytes `bytes`.
    fn check_sequence(&mut self, record: &T) -> (r: Result<(), Error>)
        ensures
            final(self).source() == old(self).source(),
            final(self).fails() == old(self).fails(),
            final(self).failure() == old(self).failure(),
            final(self).position() == old(self).position(),
            final(self).separator() == old(self).separator(),
            final(self).checked_fields() == old(self).checked_fields(),
            final(self).allows_equal() == old(self).allows_equal(),
            final(self).is_lenient() == old(self).is_lenient(),
            old(self).checked_fields().len() == 0 ==> r is Ok && final(self).previous_key()
                == old(self).previous_key(),
            old(self).checked_fields().len() > 0 ==> {
                let key = key_of::<T>(record.spec_bytes(), old(self).checked_fields());
                if in_sequence(old(self).previous_key(), key, old(self).allows_equal()) {
                    r is Ok && final(self).previous_key() == Option::Some(key)
                } else {
                    &&& final(self).previous_key() == old(self).previous_key()
                    &&& r matches Err(Error::SequenceError { fields, previous, current })
                    &&& fields@ == names_of::<T>(old(self).checked_fields())
                    &&& old(self).previous_key() == Option::Some(key_view(previous))
                    &&& key_view(current) == key
                }
            },
    {
        proof {
            use_type_invariant(&*self);
        }
        let n = self.sequence_fields.len();
        if n == 0 {
            return Ok(());
        }
        let mut key: Vec<Vec<u8>> = Vec::new();
        let mut i: usize = 0;
        while i < n
            invariant
                0 <= i <= n,
                n == self.sequence_fields@.len(),
                key@.len() == i,
                forall|j: int|
                    0 <= j < i ==> key@[j]@ == T::spec_field_in(
                        record.spec_bytes(),
                        self.sequence_fields@[j],
                    ),
            decreases n - i,
        {
            key.push(slice_to_vec(record.field_bytes(self.sequence_fields[i])));
            i = i + 1;
        }
        assert(key_view(key) =~= key_of::<T>(record.spec_bytes(), self.sequence_fields@));
        let ok = match &self.previous_sequence_key {
            Option::Some(prev) => {
                let c = key_compare(&key, prev);
                c > 0 || (c == 0 && self.allow_equal_sequence)
            },
            Option::None => true,
        };
        if ok {
            self.previous_sequence_key = Option::Some(key);
            return Ok(());
        }
        let mut names: Vec<&'static str> = Vec::new();
        let mut j: usize = 0;
        while j < n
            invariant
                0 <= j <= n,
                n == self.sequence_fields@.len(),
                names@ =~= names_of::<T>(self.sequence_fields@).subrange(0, j as int),
            decreases n - j,
        {
            names.push(T::field_name(self.sequence_fields[j]));
            j = j + 1;
        }
        let previous = match &self.previous_sequence_key {
            Option::Some(prev) => copy_key(prev),
            Option::None => Vec::new(),
        };
        Err(Error::SequenceError { fields: names, previous, current: key })
    }
}

impl<T: FixedRecord> Reader<T> {
    /// The I/O error of the source's failure.
    fn failure_error(&self) -> (e: Error)
        requires
            self.fails(),
        ensures
            e == Error::Io(self.failure()->0),
    {
        match self.failure {
            Option::Some(kind) => Error::Io(kind),
            Option::None => Error::Io(IoErrorKind::Other),
        }
    }

    /// Reads the next record.
    ///
    /// At the end of a clean source the result is `None`; at the end of a
    /// failing source it is an `Io` error. A source that ends inside a record
    /// gives `IncompleteRecord` (or `Io` when it fails there). Otherwise the
    /// record is read, the bytes skipped after it, and the sequence check
    /// applied. A lenient reader gives `None` in place of those errors, and
    /// ignores a failure met while skipping.
    ///
    /// For a reader without a sequence check over a clean source, successive
    /// calls give the records `read_records` finds from where the reader
    /// stands, one per call, then `None`; see `law_read_joined` for streams
    /// joined by runs of skipped bytes.
    pub fn next(&mut self) -> (r: Option<Result<T, Error>>)
        ensures
            final(self).source() == old(self).source(),
            final(self).fails() == old(self).fails(),
            final(self).failure() == old(self).failure(),
            final(self).separator() == old(self).separator(),
            final(self).checked_fields() == old(self).checked_fields(),
            final(self).allows_equal() == old(self).allows_equal(),
            final(self).is_lenient() == old(self).is_lenient(),
            ({
                let data = old(self).source();
                let pos = old(self).position();
                let n = T::spec_total_len();
                let rest = data.len() - pos;
                if rest == 0 {
                    &&& final(self).position() == pos
                    &&& final(self).previous_key() == old(self).previous_key()
                    &&& if old(self).fails() && !old(self).is_lenient() {
                        r == Option::Some(Err::<T, Error>(Error::Io(old(self).failure()->0)))
                    } else {
                        r is None
                    }
                } else if rest < n {
                    &&& final(self).position() == data.len()
                    &&& final(self).previous_key() == old(self).previous_key()
                    &&& if old(self).is_lenient() {
                        r is None
                    } else if old(self).fails() {
                        r == Option::Some(Err::<T, Error>(Error::Io(old(self).failure()->0)))
                    } else {
                        r == Option::Some(
                            Err::<T, Error>(Error::IncompleteRecord { expected: n as usize, actual: rest as usize }),
                        )
                    }
                } else {
                    let bytes = data.subrange(pos, pos + n);
                    let q = skip_end(data, pos + n, old(self).separator());
                    let fields = old(self).checked_fields();
                    let key = key_of::<T>(bytes, fields);
                    &&& final(self).position() == q
                    &&& if q == data.len() && old(self).fails() && !old(self).is_lenient() {
                        &&& r == Option::Some(Err::<T, Error>(Error::Io(old(self).failure()->0)))
                        &&& final(self).previous_key() == old(self).previous_key()
                    } else if fields.len() == 0 || in_sequence(
                        old(self).previous_key(),
                        key,
                        old(self).allows_equal(),
                    ) {
                        &&& r matches Option::Some(Ok(rec)) && rec.spec_bytes() == bytes
                        &&& final(self).previous_key() == if fields.len() == 0 {
                            old(self).previous_key()
                        } else {
                            Option::Some(key)
                        }
                    } else {
                        &&& final(self).previous_key() == old(self).previous_key()
                        &&& r matches Option::Some(
                            Err(Error::SequenceError { fields: names, previous, current }),
                        )
                        &&& names@ == names_of::<T>(fields)
                        &&& old(self).previous_key() == Option::Some(key_view(previous))
                        &&& key_view(current) == key
                    }
                }
            }),
            ({
                let data = old(self).source();
                let sep = old(self).separator();
                let n = T::spec_total_len();
                old(self).checked_fields().len() == 0 && !old(self).fails() && !old(self).is_lenient() && n > 0
                    ==> match read_records(data, old(self).position(), sep, n) {
                    Some(rs) => if rs.len() == 0 {
                        r is None
                    } else {
                        &&& r matches Option::Some(Ok(rec)) && rec.spec_bytes() == rs[0]
                        &&& read_records(data, final(self).position(), sep, n) == Some(rs.drop_first())
                    },
                    None => if data.len() - old(self).position() < n {
                        r matches Option::Some(Err(Error::IncompleteRecord { .. }))
                    } else {
                        &&& r matches Option::Some(Ok(rec)) && rec.spec_bytes() == data.subrange(
                            old(self).position(),
                            old(self).position() + n,
                        )
                        &&& read_records(data, final(self).position(), sep, n) is None
                    },
                }
            }),
    {
        proof {
            use_type_invariant(&*self);
            let data = self.source();
            let pos = self.position();
            let n = T::spec_total_len();
            if n > 0 && pos < data.len() && data.len() - pos >= n {
                lemma_skip_end_ahead(data, pos + n, self.separator());
                let rest = read_records(data, skip_end(data, pos + n, self.separator()), self.separator(), n);
                if let Some(t) = rest {
                    assert((seq![data.subrange(pos, pos + n)] + t).drop_first() =~= t);
                }
            }
        }
        let n = T::total_len();
        let len = self.data.len();
        if self.pos == len {
            if self.failure.is_some() && !self.lenient {
                return Option::Some(Err(self.failure_error()));
            }
            return Option::None;
        }
        let rest = len - self.pos;
        if rest < n {
            self.pos = len;
            if self.lenient {
                return Option::None;
            }
            if self.failure.is_some() {
                return Option::Some(Err(self.failure_error()));
            }
            return Option::Some(Err(Error::IncompleteRecord { expected: n, actual: rest }));
        }
        let start = self.pos;
        let record = match T::parse(slice_subrange(self.data.as_slice(), start, start + n)) {
            Ok(rec) => rec,
            Err(e) => {
                return Option::Some(Err(e));
            },
        };
        assert(self.data@.subrange(start as int, start + n).subrange(0, n as int) =~= self.data@.subrange(
            start as int,
            start + n,
        ));
        let mut q = start + n;
        while q < len && (self.data[q] == 10 || self.data[q] == 13 || contains_byte(
            self.separator.as_slice(),
            self.data[q],
        ))
            invariant
                start + n <= q <= len,
                len == self.data@.len(),
                skip_end(self.data@, q as int, self.separator@) == skip_end(
                    self.data@,
                    start + n,
                    self.separator@,
                ),
            decreases len - q,
        {
            q = q + 1;
        }
        self.pos = q;
        if q == len && self.failure.is_some() && !self.lenient {
            return Option::Some(Err(self.failure_error()));
        }
        match self.check_sequence(&record) {
            Ok(()) => Option::Some(Ok(record)),
            Err(e) => Option::Some(Err(e)),
        }
    }
}

/// Whether `b` is one of the bytes of `s`.
fn contains_byte(s: &[u8], b: u8) -> (r: bool)
    ensures
        r == s@.contains(b),
{
    let mut i: usize = 0;
    while i < s.len()
        invariant
            0 <= i <= s@.len(),
            forall|k: int| 0 <= k < i ==> s@[k] != b,
        decreases s@.len() - i,
    {
        if s[i] == b {
            return true;
        }
        i = i + 1;
    }
    false
}

/// From a position where only skipped bytes remain, skipping reaches the end.
proof fn lemma_skip_to_end(data: Seq<u8>, q: int, sep: Seq<u8>)
    requires
        0 <= q <= data.len(),
        forall|k: int| q <= k < data.len() ==> is_skip(#[trigger] data[k], sep),
    ensures
        skip_end(data, q, sep) == data.len(),
    decreases data.len() - q,
{
    if q < data.len() {
        lemma_skip_to_end(data, q + 1, sep);
    }
}

/// Appending bytes that start with a byte that is not skipped does not move
/// the end of a skip that starts inside the bytes before them.
proof fn lemma_skip_extend(data: Seq<u8>, tail: Seq<u8>, q: int, sep: Seq<u8>)
    requires
        0 <= q <= data.len(),
        tail.len() == 0 || !is_skip(tail[0], sep),
    ensures
        skip_end(data + tail, q, sep) == skip_end(data, q, sep),
    decreases data.len() - q,
{
    let all = data + tail;
    if q < data.len() {
        assert(all[q] == data[q]);
        if is_skip(data[q], sep) {
            lemma_skip_extend(data, tail, q + 1, sep);
        }
    } else if tail.len() > 0 {
        assert(all[q] == tail[0]);
    }
}

/// Reading back what a writer wrote gives the records back: in the stream a
/// writer produces for `recs`, record `i` (with its NULs blanked) sits right
/// where the reader stands after `i` records, and skipping after it lands
/// exactly where record `i + 1` starts. It holds whenever no record starts
/// with a byte the reader skips.
pub proof fn lemma_read_back(recs: Seq<Seq<u8>>, sep: Seq<u8>, n: int, i: int)
    requires
        n > 0,
        forall|k: int| 0 <= k < recs.len() ==> (#[trigger] recs[k]).len() == n,
        forall|k: int| 0 <= k < recs.len() ==> !is_skip(#[trigger] blank_nul(recs[k])[0], sep),
        0 <= i < recs.len(),
    ensures
        ({
            let data = written_stream(recs, sep);
            let p = written_stream(recs.take(i), sep).len() as int;
            &&& p + n <= data.len()
            &&& data.subrange(p, p + n) == blank_nul(recs[i])
            &&& skip_end(data, p + n, sep) == written_stream(recs.take(i + 1), sep).len()
        }),
    decreases recs.len(),
{
    let m = recs.len() as int;
    let front = recs.drop_last();
    let d = written_stream(front, sep);
    let last = blank_nul(recs.last());
    let data = written_stream(recs, sep);
    assert(data == d + last + sep);
    assert(recs.take(m - 1) =~= front);
    assert(recs.take(m) =~= recs);
    if i == m - 1 {
        let p = d.len() as int;
        assert(data.subrange(p, p + n) =~= last);
        assert forall|k: int| p + n <= k < data.len() implies is_skip(#[trigger] data[k], sep) by {
            assert(data[k] == sep[k - p - n]);
            assert(sep.contains(sep[k - p - n]));
        }
        lemma_skip_to_end(data, p + n, sep);
    } else {
        assert forall|k: int| 0 <= k < front.len() implies (#[trigger] front[k]).len() == n by {
            assert(front[k] == recs[k]);
        }
        assert forall|k: int| 0 <= k < front.len() implies !is_skip(#[trigger] blank_nul(front[k])[0], sep) by {
            assert(front[k] == recs[k]);
        }
        lemma_read_back(front, sep, n, i);
        assert(front.take(i) =~= recs.take(i));
        assert(front.take(i + 1) =~= recs.take(i + 1));
        assert(front[i] == recs[i]);
        let p = written_stream(recs.take(i), sep).len() as int;
        assert(data.subrange(p, p + n) =~= d.subrange(p, p + n));
        assert(recs.last() == recs[m - 1]);
        assert((last + sep).len() == 0 || (last + sep)[0] == last[0]);
        assert(data =~= d + (last + sep));
        lemma_skip_extend(d, last + sep, p + n, sep);
    }
}

} // verus!
