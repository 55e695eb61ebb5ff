use vstd::prelude::*;
use vstd::string::*;
use vstd::utf8::*;

verus! {

/// A padding byte: NUL (`0x00`) or space (`0x20`).
pub open spec fn is_pad(b: u8) -> bool {
    b == 0 || b == 32
}

/// The bytes with every leading and trailing padding byte removed.
pub open spec fn trim_pad(s: Seq<u8>) -> Seq<u8>
    decreases s.len(),
{
    if s.len() == 0 {
        s
    } else if is_pad(s[0]) {
        trim_pad(s.drop_first())
    } else if is_pad(s.last()) {
        trim_pad(s.drop_last())
    } else {
        s
    }
}

/// `trim_pad` keeps exactly the bytes between the padding at both ends.
pub proof fn lemma_trim_pad(s: Seq<u8>, i: int, j: int)
    requires
        0 <= i <= j <= s.len(),
        forall|k: int| 0 <= k < i ==> is_pad(#[trigger] s[k]),
        forall|k: int| j <= k < s.len() ==> is_pad(#[trigger] s[k]),
        i < j ==> !is_pad(s[i]) && !is_pad(s[j - 1]),
    ensures
        trim_pad(s) == s.subrange(i, j),
    decreases s.len(),
{
    if s.len() == 0 {
        assert(s.subrange(i, j) =~= s);
    } else if is_pad(s[0]) {
        let t = s.drop_first();
        let i2 = if i > 0 { i - 1 } else { 0 };
        let j2 = if j > 0 { j - 1 } else { 0 };
        assert forall|k: int| 0 <= k < i2 implies is_pad(#[trigger] t[k]) by {
            assert(t[k] == s[k + 1]);
        }
        assert forall|k: int| j2 <= k < t.len() implies is_pad(#[trigger] t[k]) by {
            assert(t[k] == s[k + 1]);
        }
        lemma_trim_pad(t, i2, j2);
        assert(t.subrange(i2, j2) =~= s.subrange(i, j));
    } else if is_pad(s.last()) {
        let t = s.drop_last();
        assert(j < s.len());
        assert forall|k: int| 0 <= k < i implies is_pad(#[trigger] t[k]) by {
            assert(t[k] == s[k]);
        }
        assert forall|k: int| j <= k < t.len() implies is_pad(#[trigger] t[k]) by {
            assert(t[k] == s[k]);
        }
        lemma_trim_pad(t, i, j);
        assert(t.subrange(i, j) =~= s.subrange(i, j));
    } else {
        assert(i == 0);
        assert(j == s.len());
        assert(s.subrange(i, j) =~= s);
    }
}

/// Where the unpadded part of `s` starts and ends.
pub fn pad_bounds(s: &[u8]) -> (r: (usize, usize))
    ensures
        r.0 <= r.1 <= s@.len(),
        s@.subrange(r.0 as int, r.1 as int) == trim_pad(s@),
        forall|k: int| 0 <= k < r.0 ==> is_pad(#[trigger] s@[k]),
        forall|k: int| r.1 <= k < s@.len() ==> is_pad(#[trigger] s@[k]),
        r.0 < r.1 ==> !is_pad(s@[r.0 as int]) && !is_pad(s@[r.1 - 1]),
{
    let n = s.len();
    let mut i: usize = 0;
    while i < n && (s[i] == 0 || s[i] == 32)
        invariant
            0 <= i <= n,
            n == s@.len(),
            forall|k: int| 0 <= k < i ==> is_pad(#[trigger] s@[k]),
        decreases n - i,
    {
        i = i + 1;
    }
    let mut j: usize = n;
    while j > i && (s[j - 1] == 0 || s[j - 1] == 32)
        invariant
            i <= j <= n,
            n == s@.len(),
            forall|k: int| j <= k < n ==> is_pad(#[trigger] s@[k]),
        decreases j,
    {
        j = j - 1;
    }
    proof {
        lemma_trim_pad(s@, i as int, j as int);
    }
    (i, j)
}

/// `std::str::from_utf8`: the bytes as a string slice, when they are valid UTF-8.
///
/// Claims that the call succeeds exactly on valid UTF-8 (as vstd defines it) and
/// that the string it returns holds exactly the given bytes.
#[verifier::external_body]
pub(crate) fn utf8_str(bytes: &[u8]) -> (r: Option<&str>)
    ensures
        r is Some <==> valid_utf8(bytes@),
        r matches Some(s) ==> s.spec_bytes() == bytes@,
{
    std::str::from_utf8(bytes).ok()
}

/// The string the trimmed bytes of a valid UTF-8 sequence decode to is valid too.
pub proof fn lemma_trim_keeps_utf8(s: Seq<u8>, i: int, j: int)
    requires
        valid_utf8(s),
        0 <= i <= j <= s.len(),
        forall|k: int| 0 <= k < i ==> is_pad(#[trigger] s[k]),
        forall|k: int| j <= k < s.len() ==> is_pad(#[trigger] s[k]),
    ensures
        valid_utf8(s.subrange(i, j)),
{
    broadcast use is_char_boundary_iff_not_is_continuation_byte, is_char_boundary_start_end_of_seq;

    let t = lemma_valid_suffix(s, i);
    if j < s.len() {
        assert(is_pad(s[j]));
        assert(t[j - i] == s[j]);
        is_char_boundary_iff_not_is_continuation_byte(t, j - i);
        assert(!is_continuation_byte(t[j - i]));
        assert(is_char_boundary(t, j - i));
        valid_utf8_split(t, j - i);
        assert(t.subrange(0, j - i) =~= s.subrange(i, j));
    } else {
        assert(t =~= s.subrange(i, j));
    }
}

/// Dropping leading padding from valid UTF-8 leaves valid UTF-8.
proof fn lemma_valid_suffix(s: Seq<u8>, i: int) -> (t: Seq<u8>)
    requires
        valid_utf8(s),
        0 <= i <= s.len(),
        forall|k: int| 0 <= k < i ==> is_pad(#[trigger] s[k]),
    ensures
        t == s.subrange(i, s.len() as int),
        valid_utf8(t),
    decreases i,
{
    if i == 0 {
        assert(s =~= s.subrange(0, s.len() as int));
        s
    } else {
        let p = lemma_valid_suffix(s, i - 1);
        assert(p[0] == s[i - 1]);
        assert(is_pad(p[0]));
        assert(length_of_first_scalar(p) == 1);
        assert(pop_first_scalar(p) =~= s.subrange(i, s.len() as int));
        s.subrange(i, s.len() as int)
    }
}

} // verus!
