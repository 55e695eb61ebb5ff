use vstd::prelude::*;
use vstd::string::*;
use vstd::utf8::*;

use crate::layout::{field_view, RecordLayout};
use crate::record::Record;
use crate::text::utf8_str;

verus! {

/// How many spaces follow a field name so that it fills 15 characters.
pub open spec fn name_pad(name: &'static str) -> nat {
    if name@.len() < 15 {
        (15 - name@.len()) as nat
    } else {
        0
    }
}

/// `n` spaces.
pub open spec fn spaces(n: nat) -> Seq<u8> {
    Seq::new(n, |_k: int| 32u8)
}

/// What a dump shows of a field: its text, or a marker when it is not valid
/// UTF-8.
pub open spec fn dump_value(field: Seq<u8>) -> Seq<u8> {
    if valid_utf8(field) {
        field
    } else {
        "[Invalid UTF-8]".spec_bytes()
    }
}

/// The dump line of field `f`: its name padded to 15 characters, then
/// `: [`, the value and `]` and a newline.
pub open spec fn dump_line<F: RecordLayout>(rec: Seq<u8>, f: F) -> Seq<u8> {
    f.spec_name().spec_bytes() + spaces(name_pad(f.spec_name())) + ": [".spec_bytes() + dump_value(
        field_view(rec, F::spec_widths(), f.spec_index()),
    ) + "]\n".spec_bytes()
}

/// The dump lines of the listed fields, in order.
pub open spec fn dump_lines<F: RecordLayout>(rec: Seq<u8>, fields: Seq<F>) -> Seq<u8>
    decreases fields.len(),
{
    if fields.len() == 0 {
        Seq::empty()
    } else {
        dump_lines(rec, fields.drop_last()) + dump_line(rec, fields.last())
    }
}

/// The whole dump of a record: a header with the record's name, one line per
/// field in declaration order, and a closing rule.
pub open spec fn dump_text<F: RecordLayout>(rec: Seq<u8>) -> Seq<u8> {
    "--- ".spec_bytes() + F::spec_record_name().spec_bytes() + " Dump ---\n".spec_bytes() + dump_lines(
        rec,
        F::spec_fields(),
    ) + "------------------\n".spec_bytes()
}

/// Bytes below 128 are valid UTF-8.
proof fn lemma_ascii_valid(b: Seq<u8>)
    requires
        forall|k: int| 0 <= k < b.len() ==> #[trigger] b[k] < 128,
    ensures
        valid_utf8(b),
    decreases b.len(),
{
    if b.len() > 0 {
        let c = b[0];
        assert((c & 0x7f) == c) by (bit_vector)
            requires
                c < 128,
        ;
        assert(pop_first_scalar(b) =~= b.drop_first());
        lemma_ascii_valid(b.drop_first());
    }
}

/// The bytes of a string are valid UTF-8.
proof fn lemma_str_valid(s: &str)
    ensures
        valid_utf8(s.spec_bytes()),
{
    encode_utf8_valid_utf8(s@);
}

/// Appends `s` to `out`.
fn push_all(out: &mut Vec<u8>, s: &[u8])
    ensures
        final(out)@ == old(out)@ + s@,
{
    let ghost o = out@;
    let mut k: usize = 0;
    while k < s.len()
        invariant
            0 <= k <= s@.len(),
            out@ == o + s@.subrange(0, k as int),
        decreases s@.len() - k,
    {
        out.push(s[k]);
        assert(out@ =~= o + s@.subrange(0, k + 1));
        k = k + 1;
    }
    assert(s@.subrange(0, k as int) =~= s@);
}

/// Appends `n` spaces to `out`.
fn push_spaces(out: &mut Vec<u8>, n: usize)
    ensures
        final(out)@ == old(out)@ + spaces(n as nat),
{
    let ghost o = out@;
    let mut k: usize = 0;
    while k < n
        invariant
            0 <= k <= n,
            out@ == o + spaces(k as nat),
        decreases n - k,
    {
        out.push(32);
        assert(out@ =~= o + spaces((k + 1) as nat));
        k = k + 1;
    }
}

/// A dump line is valid UTF-8.
proof fn lemma_line_valid<F: RecordLayout>(rec: Seq<u8>, f: F)
    ensures
        valid_utf8(dump_line(rec, f)),
{
    let name = f.spec_name();
    lemma_str_valid(name);
    lemma_ascii_valid(spaces(name_pad(name)));
    lemma_str_valid(": [");
    lemma_str_valid("]\n");
    lemma_str_valid("[Invalid UTF-8]");
    let v = dump_value(field_view(rec, F::spec_widths(), f.spec_index()));
    let a = name.spec_bytes() + spaces(name_pad(name));
    valid_utf8_concat(name.spec_bytes(), spaces(name_pad(name)));
    valid_utf8_concat(a, ": [".spec_bytes());
    valid_utf8_concat(a + ": [".spec_bytes(), v);
    valid_utf8_concat(a + ": [".spec_bytes() + v, "]\n".spec_bytes());
}

impl<F: RecordLayout> Record<F> {
    /// Appends the dump line of field `f`.
    fn push_line(&self, out: &mut Vec<u8>, f: F)
        ensures
            final(out)@ == old(out)@ + dump_line(self@, f),
    {
        let ghost before = out@;
        let name = f.name();
        push_all(out, name.as_bytes());
        let chars = name.unicode_len();
        let pad: usize = if chars < 15 { 15 - chars } else { 0 };
        push_spaces(out, pad);
        push_all(out, ": [".as_bytes());
        let value = self.get_field_bytes(f);
        match utf8_str(value) {
            Some(s) => push_all(out, s.as_bytes()),
            None => push_all(out, "[Invalid UTF-8]".as_bytes()),
        }
        push_all(out, "]\n".as_bytes());
        assert(out@ =~= before + dump_line(self@, f));
    }

    /// The record's fields, one per line, as `dump_text` lays them out.
    pub fn to_dump_string(&self) -> (r: String)
        ensures
            encode_utf8(r@) == dump_text::<F>(self@),
    {
        proof {
            F::lemma_layout();
        }
        let mut out: Vec<u8> = Vec::new();
        let rname = F::record_name();
        push_all(&mut out, "--- ".as_bytes());
        push_all(&mut out, rname.as_bytes());
        push_all(&mut out, " Dump ---\n".as_bytes());
        let ghost head = out@;
        proof {
            lemma_str_valid("--- ");
            lemma_str_valid(rname);
            lemma_str_valid(" Dump ---\n");
            valid_utf8_concat("--- ".spec_bytes(), rname.spec_bytes());
            valid_utf8_concat("--- ".spec_bytes() + rname.spec_bytes(), " Dump ---\n".spec_bytes());
            assert(dump_lines(self@, Seq::<F>::empty()) == Seq::<u8>::empty());
        }
        let fields = F::all_fields();
        let mut k: usize = 0;
        assert(fields@.subrange(0, 0) =~= Seq::<F>::empty());
        assert(head =~= "--- ".spec_bytes() + F::spec_record_name().spec_bytes() + " Dump ---\n".spec_bytes());
        while k < fields.len()
            invariant
                0 <= k <= fields@.len(),
                fields@ == F::spec_fields(),
                head == "--- ".spec_bytes() + F::spec_record_name().spec_bytes() + " Dump ---\n".spec_bytes(),
                out@ == head + dump_lines(self@, fields@.subrange(0, k as int)),
                valid_utf8(out@),
            decreases fields@.len() - k,
        {
            let f = fields[k];
            let ghost before = out@;
            self.push_line(&mut out, f);
            proof {
                lemma_line_valid(self@, f);
                valid_utf8_concat(before, dump_line(self@, f));
                assert(fields@.subrange(0, k + 1).drop_last() =~= fields@.subrange(0, k as int));
                assert(fields@.subrange(0, k + 1).last() == f);
                assert(out@ =~= before + dump_line(self@, f));
                assert(out@ =~= head + dump_lines(self@, fields@.subrange(0, k + 1)));
            }
            k = k + 1;
        }
        let ghost body = out@;
        push_all(&mut out, "------------------\n".as_bytes());
        proof {
            lemma_str_valid("------------------\n");
            valid_utf8_concat(body, "------------------\n".spec_bytes());
        }
        assert(fields@.subrange(0, k as int) =~= fields@);
        assert(out@ =~= dump_text::<F>(self@));
        match utf8_str(out.as_slice()) {
            Some(s) => s.to_owned(),
            None => {
                assert(false);
                String::new()
            },
        }
    }
}

} // verus!
