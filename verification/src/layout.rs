use vstd::prelude::*;

verus! {

/// Where field `count` starts: the sum of the widths of the fields before it.
pub open spec fn offset_of(widths: Seq<usize>, count: int) -> int
    decreases count,
{
    if count <= 0 {
        0
    } else {
        offset_of(widths, count - 1) + widths[count - 1]
    }
}

/// The byte length of a whole record: the sum of all field widths.
pub open spec fn total_of(widths: Seq<usize>) -> int {
    offset_of(widths, widths.len() as int)
}

/// A usable layout: at least one field, every field at least one byte wide,
/// and a total length that fits in memory.
pub open spec fn layout_ok(widths: Seq<usize>) -> bool {
    &&& widths.len() > 0
    &&& forall|i: int| 0 <= i < widths.len() ==> #[trigger] widths[i] > 0
    &&& total_of(widths) <= isize::MAX
}

/// The bytes of field `index` inside the record bytes `bytes`.
pub open spec fn field_view(bytes: Seq<u8>, widths: Seq<usize>, index: int) -> Seq<u8> {
    bytes.subrange(offset_of(widths, index), offset_of(widths, index) + widths[index])
}

/// Offsets grow with the field count.
pub proof fn lemma_offset_monotone(widths: Seq<usize>, i: int, j: int)
    requires
        0 <= i <= j <= widths.len(),
    ensures
        offset_of(widths, i) <= offset_of(widths, j),
    decreases j - i,
{
    if i < j {
        lemma_offset_monotone(widths, i, j - 1);
    }
}

/// Every field lies inside the record, and the next field starts where it ends.
pub proof fn lemma_field_bounds(widths: Seq<usize>, index: int)
    requires
        0 <= index < widths.len(),
    ensures
        0 <= offset_of(widths, index),
        offset_of(widths, index) + widths[index] == offset_of(widths, index + 1),
        offset_of(widths, index + 1) <= total_of(widths),
{
    lemma_offset_monotone(widths, 0, index);
    lemma_offset_monotone(widths, index + 1, widths.len() as int);
}

/// The record bytes with field `index` replaced by `value`.
pub open spec fn replace_field(bytes: Seq<u8>, widths: Seq<usize>, index: int, value: Seq<u8>) -> Seq<u8> {
    bytes.subrange(0, offset_of(widths, index)) + value + bytes.subrange(
        offset_of(widths, index) + widths[index],
        bytes.len() as int,
    )
}

/// Replacing one field leaves the length and every other field unchanged.
pub proof fn lemma_replace_field(
    bytes: Seq<u8>,
    widths: Seq<usize>,
    index: int,
    value: Seq<u8>,
    other: int,
)
    requires
        bytes.len() == total_of(widths),
        0 <= index < widths.len(),
        0 <= other < widths.len(),
        value.len() == widths[index],
    ensures
        replace_field(bytes, widths, index, value).len() == total_of(widths),
        field_view(replace_field(bytes, widths, index, value), widths, other) == if other == index {
            value
        } else {
            field_view(bytes, widths, other)
        },
{
    let r = replace_field(bytes, widths, index, value);
    lemma_field_bounds(widths, index);
    lemma_field_bounds(widths, other);
    let oi = offset_of(widths, index);
    let oo = offset_of(widths, other);
    if other < index {
        lemma_offset_monotone(widths, other + 1, index);
        assert(field_view(r, widths, other) =~= field_view(bytes, widths, other));
    } else if other > index {
        lemma_offset_monotone(widths, index + 1, other);
        assert(field_view(r, widths, other) =~= field_view(bytes, widths, other));
    } else {
        assert(field_view(r, widths, other) =~= value);
    }
}

/// Records that agree on the first `k` fields agree on the bytes before field `k`.
proof fn lemma_prefix_agrees(a: Seq<u8>, b: Seq<u8>, widths: Seq<usize>, k: int)
    requires
        a.len() == total_of(widths),
        b.len() == total_of(widths),
        0 <= k <= widths.len(),
        forall|i: int| 0 <= i < widths.len() ==> field_view(a, widths, i) == field_view(b, widths, i),
    ensures
        a.subrange(0, offset_of(widths, k)) == b.subrange(0, offset_of(widths, k)),
    decreases k,
{
    if k > 0 {
        lemma_prefix_agrees(a, b, widths, k - 1);
        lemma_field_bounds(widths, k - 1);
        let o = offset_of(widths, k - 1);
        let e = offset_of(widths, k);
        assert(field_view(a, widths, k - 1) == field_view(b, widths, k - 1));
        assert(a.subrange(0, e) =~= a.subrange(0, o) + field_view(a, widths, k - 1));
        assert(b.subrange(0, e) =~= b.subrange(0, o) + field_view(b, widths, k - 1));
    } else {
        assert(a.subrange(0, 0) =~= b.subrange(0, 0));
    }
}

/// Two records of the same layout are equal when all their fields are.
pub proof fn lemma_fields_determine(a: Seq<u8>, b: Seq<u8>, widths: Seq<usize>)
    requires
        a.len() == total_of(widths),
        b.len() == total_of(widths),
        forall|i: int| 0 <= i < widths.len() ==> field_view(a, widths, i) == field_view(b, widths, i),
    ensures
        a == b,
{
    lemma_prefix_agrees(a, b, widths, widths.len() as int);
    assert(a =~= a.subrange(0, total_of(widths)));
    assert(b =~= b.subrange(0, total_of(widths)));
}

/// The field set of a record type: one value per field, in declaration order.
///
/// A record layout is described by its field enum: how wide each field is,
/// what it is called, and which byte clears a field before it is rewritten.
pub trait RecordLayout: Copy + Sized {
    /// The widths of the fields, in declaration order.
    spec fn spec_widths() -> Seq<usize>;

    /// The position of this field in declaration order.
    spec fn spec_index(self) -> int;

    /// The declared name of this field.
    spec fn spec_name(self) -> &'static str;

    /// The byte that `set_field_*` writes before copying new data in.
    spec fn spec_clear_byte() -> u8;

    /// Every field, in declaration order.
    spec fn spec_fields() -> Seq<Self>;

    /// The name of the record type.
    spec fn spec_record_name() -> &'static str;

    /// The layout is usable, every field has a position inside it, and no
    /// two fields share a position.
    proof fn lemma_layout()
        ensures
            layout_ok(Self::spec_widths()),
            forall|f: Self| 0 <= #[trigger] f.spec_index() < Self::spec_widths().len(),
            Self::spec_fields().len() == Self::spec_widths().len(),
            forall|i: int| 0 <= i < Self::spec_fields().len() ==> (#[trigger] Self::spec_fields()[i]).spec_index() == i,
            forall|f: Self, g: Self| #[trigger] f.spec_index() == #[trigger] g.spec_index() ==> f == g,
    ;

    /// The field widths, in declaration order.
    fn widths() -> (w: Vec<usize>)
        ensures
            w@ == Self::spec_widths(),
    ;

    /// The position of this field in declaration order.
    fn index(self) -> (i: usize)
        ensures
            i == self.spec_index(),
    ;

    /// Every field, in declaration order.
    fn all_fields() -> (v: Vec<Self>)
        ensures
            v@ == Self::spec_fields(),
            v@.len() == Self::spec_widths().len(),
            forall|i: int| 0 <= i < v@.len() ==> (#[trigger] v@[i]).spec_index() == i,
    ;

    /// The declared name of this field.
    fn name(self) -> (s: &'static str)
        ensures
            s == self.spec_name(),
    ;

    /// The byte used to clear a field before it is rewritten.
    fn clear_byte() -> (b: u8)
        ensures
            b == Self::spec_clear_byte(),
    ;

    /// The name of the record type.
    fn record_name() -> (s: &'static str)
        ensures
            s == Self::spec_record_name(),
    ;
}

/// The offset of field `index`, computed from the widths.
pub fn offset_at(widths: &Vec<usize>, index: usize) -> (off: usize)
    requires
        layout_ok(widths@),
        index <= widths@.len(),
    ensures
        off == offset_of(widths@, index as int),
{
    let mut off: usize = 0;
    let mut i: usize = 0;
    while i < index
        invariant
            layout_ok(widths@),
            index <= widths@.len(),
            0 <= i <= index,
            off == offset_of(widths@, i as int),
        decreases index - i,
    {
        proof {
            lemma_field_bounds(widths@, i as int);
        }
        off = off + widths[i];
        i = i + 1;
    }
    off
}

/// The total length of a record, computed from the widths.
pub fn total_len_of(widths: &Vec<usize>) -> (n: usize)
    requires
        layout_ok(widths@),
    ensures
        n == total_of(widths@),
{
    offset_at(widths, widths.len())
}

} // verus!
