use vstd::prelude::*;

use crate::record::{clear_write, spread_field};
use crate::text::{is_pad, trim_pad};

verus! {

/// Spreading the same data a second time changes nothing: what `apply_bytes`
/// (and `apply_bytes_from`) gives once, it gives again.
pub proof fn law_apply_idempotent(
    widths: Seq<usize>,
    start: int,
    index: int,
    old: Seq<u8>,
    data: Seq<u8>,
    clear: u8,
)
    ensures
        spread_field(widths, start, index, spread_field(widths, start, index, old, data, clear), data, clear)
            == spread_field(widths, start, index, old, data, clear),
{
}

/// Padding bytes after a string do not change what trimming leaves.
pub proof fn lemma_trim_ignores_trailing_pad(s: Seq<u8>, t: Seq<u8>)
    requires
        forall|k: int| 0 <= k < t.len() ==> is_pad(#[trigger] t[k]),
    ensures
        trim_pad(s + t) == trim_pad(s),
    decreases s.len() + t.len(),
{
    if s.len() == 0 {
        assert(s + t =~= t);
        if t.len() > 0 {
            assert(t.drop_first() =~= Seq::<u8>::empty() + t.drop_first());
            lemma_trim_ignores_trailing_pad(s, t.drop_first());
            assert(s + t.drop_first() =~= t.drop_first());
        }
    } else if is_pad(s[0]) {
        assert((s + t)[0] == s[0]);
        assert((s + t).drop_first() =~= s.drop_first() + t);
        lemma_trim_ignores_trailing_pad(s.drop_first(), t);
    } else if t.len() > 0 {
        assert((s + t)[0] == s[0]);
        assert((s + t).last() == t.last());
        assert((s + t).drop_last() =~= s + t.drop_last());
        lemma_trim_ignores_trailing_pad(s, t.drop_last());
    } else {
        assert(s + t =~= s);
    }
}

/// A field written by `set_field_str` or `set_field_bytes` with a value that
/// fits, and a clear byte that is a padding byte, reads back through
/// `get_field_trimmed` as the value trimmed.
pub proof fn law_set_then_get_trimmed(width: nat, data: Seq<u8>, clear: u8)
    requires
        data.len() <= width,
        is_pad(clear),
    ensures
        trim_pad(clear_write(width, data, clear)) == trim_pad(data),
{
    let tail = Seq::new((width - data.len()) as nat, |_k: int| clear);
    assert(clear_write(width, data, clear) =~= data + tail);
    lemma_trim_ignores_trailing_pad(data, tail);
}

} // verus!
