use vstd::prelude::*;
use vstd::string::StringExecFns;

use crate::error::{Error, IoErrorKind};

verus! {

/// The text of one decimal digit.
pub open spec fn digit_text(d: nat) -> Seq<char> {
    if d == 0 {
        "0"@
    } else if d == 1 {
        "1"@
    } else if d == 2 {
        "2"@
    } else if d == 3 {
        "3"@
    } else if d == 4 {
        "4"@
    } else if d == 5 {
        "5"@
    } else if d == 6 {
        "6"@
    } else if d == 7 {
        "7"@
    } else if d == 8 {
        "8"@
    } else {
        "9"@
    }
}

/// `n` in decimal, without leading zeros.
pub open spec fn decimal_text(n: nat) -> Seq<char>
    decreases n,
{
    if n < 10 {
        digit_text(n)
    } else {
        decimal_text(n / 10) + digit_text(n % 10)
    }
}

/// The items of `b` in decimal, separated by `", "`.
pub open spec fn byte_items(b: Seq<u8>) -> Seq<char>
    decreases b.len(),
{
    if b.len() == 0 {
        Seq::empty()
    } else if b.len() == 1 {
        decimal_text(b[0] as nat)
    } else {
        byte_items(b.drop_last()) + ", "@ + decimal_text(b.last() as nat)
    }
}

/// `b` as a bracketed list of decimal bytes, such as `[65, 66]`.
pub open spec fn byte_list(b: Seq<u8>) -> Seq<char> {
    "["@ + byte_items(b) + "]"@
}

/// The byte lists of `k`, separated by `", "`.
pub open spec fn key_items(k: Seq<Seq<u8>>) -> Seq<char>
    decreases k.len(),
{
    if k.len() == 0 {
        Seq::empty()
    } else if k.len() == 1 {
        byte_list(k[0])
    } else {
        key_items(k.drop_last()) + ", "@ + byte_list(k.last())
    }
}

/// The names of `n`, each in double quotes, separated by `", "`.
pub open spec fn name_items(n: Seq<Seq<char>>) -> Seq<char>
    decreases n.len(),
{
    if n.len() == 0 {
        Seq::empty()
    } else if n.len() == 1 {
        "\""@ + n[0] + "\""@
    } else {
        name_items(n.drop_last()) + ", "@ + "\""@ + n.last() + "\""@
    }
}

/// The name of an I/O error kind.
pub open spec fn kind_text(k: IoErrorKind) -> Seq<char> {
    match k {
        IoErrorKind::NotFound => "NotFound"@,
        IoErrorKind::PermissionDenied => "PermissionDenied"@,
        IoErrorKind::AlreadyExists => "AlreadyExists"@,
        IoErrorKind::WouldBlock => "WouldBlock"@,
        IoErrorKind::InvalidInput => "InvalidInput"@,
        IoErrorKind::InvalidData => "InvalidData"@,
        IoErrorKind::TimedOut => "TimedOut"@,
        IoErrorKind::WriteZero => "WriteZero"@,
        IoErrorKind::Interrupted => "Interrupted"@,
        IoErrorKind::Unsupported => "Unsupported"@,
        IoErrorKind::UnexpectedEof => "UnexpectedEof"@,
        IoErrorKind::OutOfMemory => "OutOfMemory"@,
        IoErrorKind::Other => "Other"@,
    }
}

/// The message reported for an error.
pub open spec fn error_text(e: Error) -> Seq<char> {
    match e {
        Error::TooShort => "input data is too short for the fixed length"@,
        Error::Utf8Error => "input data contains invalid UTF-8 sequence"@,
        Error::IncompleteRecord { expected, actual } => "incomplete fixed record: expected "@ + decimal_text(
            expected as nat,
        ) + " bytes, got "@ + decimal_text(actual as nat) + " bytes"@,
        Error::Io(kind) => "I/O error while processing fixed record: "@ + kind_text(kind),
        Error::AlignmentError => "Alignment error"@,
        Error::ParseError => "failed to parse field value"@,
        Error::FieldOverflow { field, size, actual } => "field `"@ + field@ + "` overflow: size "@ + decimal_text(
            size as nat,
        ) + " bytes, got "@ + decimal_text(actual as nat) + " bytes"@,
        Error::InvalidRange { field, start, end } => "invalid range for field `"@ + field@
            + "`: start "@ + byte_list(start@) + " is greater than end "@ + byte_list(end@),
        Error::SequenceError { fields, previous, current } => "sequence check failed on ["@ + name_items(
            Seq::new(fields@.len(), |i: int| fields@[i]@),
        ) + "]: previous ["@ + key_items(Seq::new(previous@.len(), |i: int| previous@[i]@)) + "], current ["@
            + key_items(Seq::new(current@.len(), |i: int| current@[i]@)) + "]"@,
    }
}

/// Appends `n` in decimal.
fn push_decimal(s: &mut String, n: usize)
    ensures
        final(s)@ == old(s)@ + decimal_text(n as nat),
    decreases n,
{
    if n >= 10 {
        push_decimal(s, n / 10);
    }
    let ghost mid = s@;
    let d = n % 10;
    if d == 0 {
        s.append("0");
    } else if d == 1 {
        s.append("1");
    } else if d == 2 {
        s.append("2");
    } else if d == 3 {
        s.append("3");
    } else if d == 4 {
        s.append("4");
    } else if d == 5 {
        s.append("5");
    } else if d == 6 {
        s.append("6");
    } else if d == 7 {
        s.append("7");
    } else if d == 8 {
        s.append("8");
    } else {
        s.append("9");
    }
    assert(s@ == mid + digit_text(d as nat));
    if n >= 10 {
        assert(s@ =~= old(s)@ + (decimal_text((n / 10) as nat) + digit_text((n % 10) as nat)));
    } else {
        assert(s@ =~= old(s)@ + digit_text(n as nat));
    }
}

/// Appends `b` as a bracketed list of decimal bytes.
fn push_byte_list(s: &mut String, b: &[u8])
    ensures
        final(s)@ == old(s)@ + byte_list(b@),
{
    s.append("[");
    let ghost start = s@;
    let mut i: usize = 0;
    while i < b.len()
        invariant
            0 <= i <= b@.len(),
            s@ == start + byte_items(b@.subrange(0, i as int)),
        decreases b@.len() - i,
    {
        let ghost before = s@;
        if i > 0 {
            s.append(", ");
        }
        push_decimal(s, b[i] as usize);
        proof {
            let t = b@.subrange(0, i + 1);
            assert(t.drop_last() =~= b@.subrange(0, i as int));
            assert(t.last() == b@[i as int]);
            if i == 0 {
                assert(s@ =~= start + byte_items(t));
            } else {
                assert(s@ =~= start + (byte_items(t.drop_last()) + ", "@ + decimal_text(t.last() as nat)));
            }
        }
        i = i + 1;
    }
    assert(b@.subrange(0, i as int) =~= b@);
    s.append("]");
    assert(s@ =~= old(s)@ + byte_list(b@));
}

/// Appends the byte lists of `k`, separated by `", "`.
fn push_key_items(s: &mut String, k: &Vec<Vec<u8>>)
    ensures
        final(s)@ == old(s)@ + key_items(Seq::new(k@.len(), |i: int| k@[i]@)),
{
    let ghost kv = Seq::new(k@.len(), |i: int| k@[i]@);
    let mut i: usize = 0;
    while i < k.len()
        invariant
            0 <= i <= k@.len(),
            kv == Seq::new(k@.len(), |i: int| k@[i]@),
            s@ == old(s)@ + key_items(kv.subrange(0, i as int)),
        decreases k@.len() - i,
    {
        if i > 0 {
            s.append(", ");
        }
        push_byte_list(s, k[i].as_slice());
        proof {
            let t = kv.subrange(0, i + 1);
            assert(t.drop_last() =~= kv.subrange(0, i as int));
            assert(t.last() == k@[i as int]@);
            if i == 0 {
                assert(s@ =~= old(s)@ + key_items(t));
            } else {
                assert(s@ =~= old(s)@ + (key_items(t.drop_last()) + ", "@ + byte_list(t.last())));
            }
        }
        i = i + 1;
    }
    assert(kv.subrange(0, i as int) =~= kv);
}

/// Appends the names of `n`, each in double quotes, separated by `", "`.
fn push_name_items(s: &mut String, n: &Vec<&'static str>)
    ensures
        final(s)@ == old(s)@ + name_items(Seq::new(n@.len(), |i: int| n@[i]@)),
{
    let ghost nv = Seq::new(n@.len(), |i: int| n@[i]@);
    let mut i: usize = 0;
    while i < n.len()
        invariant
            0 <= i <= n@.len(),
            nv == Seq::new(n@.len(), |i: int| n@[i]@),
            s@ == old(s)@ + name_items(nv.subrange(0, i as int)),
        decreases n@.len() - i,
    {
        if i > 0 {
            s.append(", ");
        }
        s.append("\"");
        s.append(n[i]);
        s.append("\"");
        proof {
            let t = nv.subrange(0, i + 1);
            assert(t.drop_last() =~= nv.subrange(0, i as int));
            assert(t.last() == n@[i as int]@);
            if i == 0 {
                assert(s@ =~= old(s)@ + name_items(t));
            } else {
                assert(s@ =~= old(s)@ + (name_items(t.drop_last()) + ", "@ + "\""@ + t.last() + "\""@));
            }
        }
        i = i + 1;
    }
    assert(nv.subrange(0, i as int) =~= nv);
}

/// The name of an I/O error kind.
fn kind_name(k: IoErrorKind) -> (r: &'static str)
    ensures
        r@ == kind_text(k),
{
    match k {
        IoErrorKind::NotFound => "NotFound",
        IoErrorKind::PermissionDenied => "PermissionDenied",
        IoErrorKind::AlreadyExists => "AlreadyExists",
        IoErrorKind::WouldBlock => "WouldBlock",
        IoErrorKind::InvalidInput => "InvalidInput",
        IoErrorKind::InvalidData => "InvalidData",
        IoErrorKind::TimedOut => "TimedOut",
        IoErrorKind::WriteZero => "WriteZero",
        IoErrorKind::Interrupted => "Interrupted",
        IoErrorKind::Unsupported => "Unsupported",
        IoErrorKind::UnexpectedEof => "UnexpectedEof",
        IoErrorKind::OutOfMemory => "OutOfMemory",
        IoErrorKind::Other => "Other",
    }
}

impl Error {
    /// The message reported for the error.
    pub fn message(&self) -> (r: String)
        ensures
            r@ == error_text(*self),
    {
        let mut s = String::new();
        match self {
            Error::TooShort => s.append("input data is too short for the fixed length"),
            Error::Utf8Error => s.append("input data contains invalid UTF-8 sequence"),
            Error::IncompleteRecord { expected, actual } => {
                s.append("incomplete fixed record: expected ");
                push_decimal(&mut s, *expected);
                s.append(" bytes, got ");
                push_decimal(&mut s, *actual);
                s.append(" bytes");
            },
            Error::Io(kind) => {
                s.append("I/O error while processing fixed record: ");
                s.append(kind_name(*kind));
            },
            Error::AlignmentError => s.append("Alignment error"),
            Error::ParseError => s.append("failed to parse field value"),
            Error::FieldOverflow { field, size, actual } => {
                s.append("field `");
                s.append(field);
                s.append("` overflow: size ");
                push_decimal(&mut s, *size);
                s.append(" bytes, got ");
                push_decimal(&mut s, *actual);
                s.append(" bytes");
            },
            Error::InvalidRange { field, start, end } => {
                s.append("invalid range for field `");
                s.append(field);
                s.append("`: start ");
                push_byte_list(&mut s, start.as_slice());
                s.append(" is greater than end ");
                push_byte_list(&mut s, end.as_slice());
            },
            Error::SequenceError { fields, previous, current } => {
                s.append("sequence check failed on [");
                push_name_items(&mut s, fields);
                s.append("]: previous [");
                push_key_items(&mut s, previous);
                s.append("], current [");
                push_key_items(&mut s, current);
                s.append("]");
            },
        }
        assert(s@ =~= error_text(*self));
        s
    }
}

} // verus!
