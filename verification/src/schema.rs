use vstd::prelude::*;
use vstd::string::*;
use vstd::utf8::*;

verus! {

/// Why a record declaration or its options were refused.
#[derive(Debug, Clone, Copy, PartialEq, Eq)]
pub enum SchemaError {
    /// The declaration is not a struct.
    NotStruct,
    /// The struct's fields are not named.
    NotNamedFields,
    /// A field has no name.
    UnnamedField,
    /// A field's type is not `Fixed<N>`.
    NotFixed,
    /// `Fixed` is written without a length.
    MissingLength,
    /// The length of `Fixed<N>` is not an integer literal.
    LengthNotLiteral,
    /// The length of `Fixed<N>` is negative.
    NegativeLength,
    /// The length of `Fixed<N>` does not fit in `usize` (the only way a
    /// decimal literal fails to parse as one).
    InvalidLength,
    /// The length of `Fixed<N>` is zero.
    ZeroLength,
    /// An option other than `clear_byte` was given.
    UnsupportedOption,
    /// `clear_byte` is not `ZERO`, `SPACE`, a byte literal or an integer literal.
    ClearByteKind,
    /// `clear_byte` is an integer literal above 255 (the only way a decimal
    /// literal fails to parse as a byte).
    ClearByteValue,
}

/// The attribute macro a declaration is written with: `#[fixed_record]` or
/// `#[fixed_record_main]`. The messages that name the macro name this one.
#[derive(Debug, Clone, Copy, PartialEq, Eq)]
pub enum MacroName {
    FixedRecord,
    FixedRecordMain,
}

/// The message reported for an error under the macro `m`.
pub open spec fn message_text(e: SchemaError, m: MacroName) -> Seq<char> {
    match e {
        SchemaError::NotStruct => match m {
            MacroName::FixedRecord => "fixed_record can only be used on structs"@,
            MacroName::FixedRecordMain => "fixed_record_main can only be used on structs"@,
        },
        SchemaError::NotNamedFields => match m {
            MacroName::FixedRecord => "fixed_record supports only structs with named fields"@,
            MacroName::FixedRecordMain => "fixed_record_main supports only structs with named fields"@,
        },
        SchemaError::UnnamedField => match m {
            MacroName::FixedRecord => "fixed_record supports only named fields"@,
            MacroName::FixedRecordMain => "fixed_record_main supports only named fields"@,
        },
        SchemaError::NotFixed => match m {
            MacroName::FixedRecord => "fixed_record fields must be Fixed<N>"@,
            MacroName::FixedRecordMain => "fixed_record_main fields must be Fixed<N>"@,
        },
        SchemaError::MissingLength => "Fixed field must specify a byte length, for example Fixed<8>"@,
        SchemaError::LengthNotLiteral => "Fixed<N> length must be an integer literal"@,
        SchemaError::NegativeLength => "Fixed<N> length must not be negative"@,
        SchemaError::InvalidLength => "invalid Fixed<N> length: number too large to fit in target type"@,
        SchemaError::ZeroLength => "Fixed<N> length must be greater than 0"@,
        SchemaError::UnsupportedOption => match m {
            MacroName::FixedRecord => "unsupported fixed_record option"@,
            MacroName::FixedRecordMain => "unsupported fixed_record_main option"@,
        },
        SchemaError::ClearByteKind => "clear_byte must be ZERO, SPACE, a byte literal, or an integer from 0 to 255"@,
        SchemaError::ClearByteValue => "invalid clear_byte value: number too large to fit in target type"@,
    }
}

impl SchemaError {
    /// The message reported for the error under the macro `m`.
    pub fn message(&self, m: MacroName) -> (r: &'static str)
        ensures
            r@ == message_text(*self, m),
    {
        match self {
            SchemaError::NotStruct => match m {
                MacroName::FixedRecord => "fixed_record can only be used on structs",
                MacroName::FixedRecordMain => "fixed_record_main can only be used on structs",
            },
            SchemaError::NotNamedFields => match m {
                MacroName::FixedRecord => "fixed_record supports only structs with named fields",
                MacroName::FixedRecordMain => "fixed_record_main supports only structs with named fields",
            },
            SchemaError::UnnamedField => match m {
                MacroName::FixedRecord => "fixed_record supports only named fields",
                MacroName::FixedRecordMain => "fixed_record_main supports only named fields",
            },
            SchemaError::NotFixed => match m {
                MacroName::FixedRecord => "fixed_record fields must be Fixed<N>",
                MacroName::FixedRecordMain => "fixed_record_main fields must be Fixed<N>",
            },
            SchemaError::MissingLength => "Fixed field must specify a byte length, for example Fixed<8>",
            SchemaError::LengthNotLiteral => "Fixed<N> length must be an integer literal",
            SchemaError::NegativeLength => "Fixed<N> length must not be negative",
            SchemaError::InvalidLength => "invalid Fixed<N> length: number too large to fit in target type",
            SchemaError::ZeroLength => "Fixed<N> length must be greater than 0",
            SchemaError::UnsupportedOption => match m {
                MacroName::FixedRecord => "unsupported fixed_record option",
                MacroName::FixedRecordMain => "unsupported fixed_record_main option",
            },
            SchemaError::ClearByteKind => "clear_byte must be ZERO, SPACE, a byte literal, or an integer from 0 to 255",
            SchemaError::ClearByteValue => "invalid clear_byte value: number too large to fit in target type",
        }
    }
}

/// The options of a record declaration.
#[derive(Debug, Clone, Copy, PartialEq, Eq)]
pub struct MacroOptions {
    /// The byte that clears a field before `set_field_*` writes it.
    pub clear_byte: u8,
}

/// The value written for the `clear_byte` option.
pub enum ClearByteArg {
    /// A path that is one plain name, such as `ZERO` or `SPACE`.
    Name(String),
    /// Any other path.
    OtherPath,
    /// A byte literal such as `b' '`.
    Byte(u8),
    /// An integer literal, by its base-10 digits (without suffix or `_`).
    Int(String),
    /// Any other expression.
    Other,
}

/// One option of a record declaration: its name and its value.
pub struct MacroArg {
    pub name: String,
    pub value: ClearByteArg,
}

/// The value of the ASCII decimal digits `d`, when they are all digits and
/// there is at least one.
pub open spec fn decimal_value(d: Seq<u8>) -> Option<nat>
    decreases d.len(),
{
    if d.len() == 0 {
        None
    } else if !(48 <= d.last() <= 57) {
        None
    } else if d.len() == 1 {
        Some((d.last() - 48) as nat)
    } else {
        match decimal_value(d.drop_last()) {
            Some(v) => Some(v * 10 + (d.last() - 48) as nat),
            None => None,
        }
    }
}

/// Reads the ASCII decimal digits `d` as a number up to `max`; `None` when
/// they are not all digits, are empty, or give a larger number.
pub fn parse_decimal(d: &[u8], max: u64) -> (r: Option<u64>)
    ensures
        match decimal_value(d@) {
            Some(v) => if v <= max { r == Some(v as u64) } else { r is None },
            None => r is None,
        },
{
    if d.len() == 0 {
        return None;
    }
    let mut v: u64 = 0;
    let mut k: usize = 0;
    while k < d.len()
        invariant
            0 <= k <= d@.len(),
            d@.len() > 0,
            v <= max,
            k == 0 ==> v == 0,
            k > 0 ==> decimal_value(d@.subrange(0, k as int)) == Some(v as nat),
        decreases d@.len() - k,
    {
        let b = d[k];
        let ghost p = d@.subrange(0, k + 1);
        assert(p.drop_last() =~= d@.subrange(0, k as int));
        assert(p.last() == b);
        if b < 48 || b > 57 {
            proof {
                lemma_decimal_none_extends(d@, k as int + 1);
            }
            return None;
        }
        let digit = (b - 48) as u64;
        let next = match v.checked_mul(10) {
            Some(t) => t.checked_add(digit),
            None => None,
        };
        match next {
            Some(x) if x <= max => {
                v = x;
            },
            _ => {
                proof {
                    lemma_decimal_grows(d@, k as int + 1);
                }
                return None;
            },
        }
        k = k + 1;
    }
    assert(d@.subrange(0, k as int) =~= d@);
    Some(v)
}

/// Once a prefix is not all digits, no longer prefix is.
proof fn lemma_decimal_none_extends(d: Seq<u8>, k: int)
    requires
        1 <= k <= d.len(),
        decimal_value(d.subrange(0, k)) is None,
    ensures
        decimal_value(d) is None,
    decreases d.len() - k,
{
    if k < d.len() {
        assert(d.subrange(0, k + 1).drop_last() =~= d.subrange(0, k));
        lemma_decimal_none_extends(d, k + 1);
    } else {
        assert(d.subrange(0, k) =~= d);
    }
}

/// A longer run of digits is never smaller than its prefix.
proof fn lemma_decimal_grows(d: Seq<u8>, k: int)
    requires
        1 <= k <= d.len(),
    ensures
        decimal_value(d) is Some && decimal_value(d.subrange(0, k)) is Some ==> decimal_value(d)->0
            >= decimal_value(d.subrange(0, k))->0,
        decimal_value(d.subrange(0, k)) is None ==> decimal_value(d) is None,
    decreases d.len() - k,
{
    if k < d.len() {
        assert(d.subrange(0, k + 1).drop_last() =~= d.subrange(0, k));
        lemma_decimal_grows(d, k + 1);
    } else {
        assert(d.subrange(0, k) =~= d);
    }
}

/// The UTF-8 bytes of a string.
pub open spec fn text_bytes(s: String) -> Seq<u8> {
    encode_utf8(s@)
}

/// `ZERO`, as bytes.
pub open spec fn zero_name() -> Seq<u8> {
    seq![90u8, 69u8, 82u8, 79u8]
}

/// `SPACE`, as bytes.
pub open spec fn space_name() -> Seq<u8> {
    seq![83u8, 80u8, 65u8, 67u8, 69u8]
}

/// `clear_byte`, as bytes.
pub open spec fn clear_byte_option() -> Seq<u8> {
    seq![99u8, 108u8, 101u8, 97u8, 114u8, 95u8, 98u8, 121u8, 116u8, 101u8]
}

/// The clear byte an option value stands for: `ZERO` is `0x00`, `SPACE` a
/// space, a byte literal its byte, an integer literal its value when it is
/// at most 255.
pub open spec fn clear_byte_of(a: ClearByteArg) -> Result<u8, SchemaError> {
    match a {
        ClearByteArg::Name(n) => if text_bytes(n) == zero_name() {
            Ok(0u8)
        } else if text_bytes(n) == space_name() {
            Ok(32u8)
        } else {
            Err(SchemaError::ClearByteKind)
        },
        ClearByteArg::OtherPath => Err(SchemaError::ClearByteKind),
        ClearByteArg::Byte(b) => Ok(b),
        ClearByteArg::Int(d) => match decimal_value(text_bytes(d)) {
            Some(v) => if v <= 255 { Ok(v as u8) } else { Err(SchemaError::ClearByteValue) },
            None => Err(SchemaError::ClearByteValue),
        },
        ClearByteArg::Other => Err(SchemaError::ClearByteKind),
    }
}

/// Whether two byte strings are equal.
fn bytes_equal(a: &[u8], b: &[u8]) -> (r: bool)
    ensures
        r == (a@ == b@),
{
    if a.len() != b.len() {
        return false;
    }
    let mut k: usize = 0;
    while k < a.len()
        invariant
            0 <= k <= a@.len(),
            a@.len() == b@.len(),
            a@.subrange(0, k as int) == b@.subrange(0, k as int),
        decreases a@.len() - k,
    {
        if a[k] != b[k] {
            assert(a@[k as int] != b@[k as int]);
            return false;
        }
        assert(a@.subrange(0, k + 1) =~= a@.subrange(0, k as int).push(a@[k as int]));
        assert(b@.subrange(0, k + 1) =~= b@.subrange(0, k as int).push(b@[k as int]));
        k = k + 1;
    }
    assert(a@ =~= a@.subrange(0, k as int));
    assert(b@ =~= b@.subrange(0, k as int));
    true
}

/// The clear byte an option value stands for, as `clear_byte_of` describes.
pub fn parse_clear_byte(a: &ClearByteArg) -> (r: Result<u8, SchemaError>)
    ensures
        r == clear_byte_of(*a),
{
    match a {
        ClearByteArg::Name(n) => {
            let b = n.as_str().as_bytes();
            let zero: [u8; 4] = [90, 69, 82, 79];
            let space: [u8; 5] = [83, 80, 65, 67, 69];
            assert(zero@ =~= zero_name());
            assert(space@ =~= space_name());
            if bytes_equal(b, zero.as_slice()) {
                Ok(0)
            } else if bytes_equal(b, space.as_slice()) {
                Ok(32)
            } else {
                Err(SchemaError::ClearByteKind)
            }
        },
        ClearByteArg::OtherPath => Err(SchemaError::ClearByteKind),
        ClearByteArg::Byte(b) => Ok(*b),
        ClearByteArg::Int(d) => match parse_decimal(d.as_str().as_bytes(), 255) {
            Some(v) => Ok(v as u8),
            None => Err(SchemaError::ClearByteValue),
        },
        ClearByteArg::Other => Err(SchemaError::ClearByteKind),
    }
}

/// The options that `args` give, starting from a clear byte of `default`:
/// each `clear_byte` sets it (the last one wins); the first option that is
/// not `clear_byte`, or the first bad value, is the error.
pub open spec fn options_of(args: Seq<MacroArg>, default: u8) -> Result<MacroOptions, SchemaError>
    decreases args.len(),
{
    if args.len() == 0 {
        Ok(MacroOptions { clear_byte: default })
    } else {
        match options_of(args.drop_last(), default) {
            Err(e) => Err(e),
            Ok(_) => if text_bytes(args.last().name) != clear_byte_option() {
                Err(SchemaError::UnsupportedOption)
            } else {
                match clear_byte_of(args.last().value) {
                    Ok(b) => Ok(MacroOptions { clear_byte: b }),
                    Err(e) => Err(e),
                }
            },
        }
    }
}

/// Reads the options of a record declaration, as `options_of` describes.
pub fn parse_macro_args(args: &Vec<MacroArg>, default: u8) -> (r: Result<MacroOptions, SchemaError>)
    ensures
        r == options_of(args@, default),
{
    let mut opts = MacroOptions { clear_byte: default };
    let mut k: usize = 0;
    let name: [u8; 10] = [99, 108, 101, 97, 114, 95, 98, 121, 116, 101];
    assert(name@ =~= clear_byte_option());
    assert(args@.subrange(0, 0).len() == 0);
    while k < args.len()
        invariant
            0 <= k <= args@.len(),
            name@ == clear_byte_option(),
            options_of(args@.subrange(0, k as int), default) == Ok::<MacroOptions, SchemaError>(opts),
        decreases args@.len() - k,
    {
        let a = &args[k];
        assert(args@.subrange(0, k + 1).drop_last() =~= args@.subrange(0, k as int));
        if !bytes_equal(a.name.as_str().as_bytes(), name.as_slice()) {
            proof {
                lemma_options_error_stays(args@, default, k as int + 1);
            }
            return Err(SchemaError::UnsupportedOption);
        }
        match parse_clear_byte(&a.value) {
            Ok(b) => {
                opts = MacroOptions { clear_byte: b };
            },
            Err(e) => {
                proof {
                    lemma_options_error_stays(args@, default, k as int + 1);
                }
                return Err(e);
            },
        }
        k = k + 1;
    }
    assert(args@.subrange(0, k as int) =~= args@);
    Ok(opts)
}

/// An error in the options of a prefix is the error of the whole list.
proof fn lemma_options_error_stays(args: Seq<MacroArg>, default: u8, k: int)
    requires
        0 <= k <= args.len(),
        options_of(args.subrange(0, k), default) is Err,
    ensures
        options_of(args, default) == options_of(args.subrange(0, k), default),
    decreases args.len() - k,
{
    if k < args.len() {
        assert(args.subrange(0, k + 1).drop_last() =~= args.subrange(0, k));
        lemma_options_error_stays(args, default, k + 1);
    } else {
        assert(args.subrange(0, k) =~= args);
    }
}

impl Default for MacroOptions {
    /// Fields are cleared with spaces unless an option says otherwise.
    fn default() -> (r: Self)
        ensures
            r.clear_byte == 32,
    {
        MacroOptions { clear_byte: 32 }
    }
}

/// The length written in `Fixed<N>`.
pub enum LenArg {
    /// A negated expression, such as `-1`.
    Negated,
    /// An integer literal: whether its text starts with `-`, and its base-10
    /// digits (without suffix or `_`).
    Int { negative: bool, digits: String },
    /// Any other literal or expression.
    Other,
}

/// The first generic argument written after a type's last path segment.
pub enum TypeArgs {
    /// No angle brackets.
    Absent,
    /// Angle brackets whose first argument is a constant expression.
    Const(LenArg),
    /// Angle brackets whose first argument is missing or not a constant.
    NotConst,
}

/// The type of a record field.
pub enum FieldTypeArg {
    /// A path type: the name of its last segment (none for an empty path) and
    /// its generic arguments.
    Path { last: Option<String>, args: TypeArgs },
    /// Any other type.
    Other,
}

/// `Fixed`, as bytes.
pub open spec fn fixed_name() -> Seq<u8> {
    seq![70u8, 105u8, 120u8, 101u8, 100u8]
}

/// The byte length a field type declares: `Fixed<N>` with `N` a positive
/// integer literal that fits in `usize`.
pub open spec fn fixed_len_of(ty: FieldTypeArg) -> Result<usize, SchemaError> {
    match ty {
        FieldTypeArg::Other => Err(SchemaError::NotFixed),
        FieldTypeArg::Path { last, args } => match last {
            None => Err(SchemaError::NotFixed),
            Some(name) => if text_bytes(name) != fixed_name() {
                Err(SchemaError::NotFixed)
            } else {
                match args {
                    TypeArgs::Absent => Err(SchemaError::MissingLength),
                    TypeArgs::NotConst => Err(SchemaError::LengthNotLiteral),
                    TypeArgs::Const(len) => match len {
                        LenArg::Negated => Err(SchemaError::NegativeLength),
                        LenArg::Other => Err(SchemaError::LengthNotLiteral),
                        LenArg::Int { negative, digits } => if negative {
                            Err(SchemaError::NegativeLength)
                        } else {
                            match decimal_value(text_bytes(digits)) {
                                None => Err(SchemaError::InvalidLength),
                                Some(v) => if v > usize::MAX {
                                    Err(SchemaError::InvalidLength)
                                } else if v == 0 {
                                    Err(SchemaError::ZeroLength)
                                } else {
                                    Ok(v as usize)
                                },
                            }
                        },
                    },
                }
            },
        },
    }
}

/// The byte length a field type declares, as `fixed_len_of` describes.
pub fn extract_fixed_len(ty: &FieldTypeArg) -> (r: Result<usize, SchemaError>)
    ensures
        r == fixed_len_of(*ty),
{
    match ty {
        FieldTypeArg::Other => Err(SchemaError::NotFixed),
        FieldTypeArg::Path { last, args } => match last {
            None => Err(SchemaError::NotFixed),
            Some(name) => {
                let fixed: [u8; 5] = [70, 105, 120, 101, 100];
                assert(fixed@ =~= fixed_name());
                if !bytes_equal(name.as_str().as_bytes(), fixed.as_slice()) {
                    return Err(SchemaError::NotFixed);
                }
                match args {
                    TypeArgs::Absent => Err(SchemaError::MissingLength),
                    TypeArgs::NotConst => Err(SchemaError::LengthNotLiteral),
                    TypeArgs::Const(len) => match len {
                        LenArg::Negated => Err(SchemaError::NegativeLength),
                        LenArg::Other => Err(SchemaError::LengthNotLiteral),
                        LenArg::Int { negative, digits } => {
                            if *negative {
                                return Err(SchemaError::NegativeLength);
                            }
                            match parse_decimal(digits.as_str().as_bytes(), usize::MAX as u64) {
                                None => Err(SchemaError::InvalidLength),
                                Some(v) => {
                                    if v == 0 {
                                        Err(SchemaError::ZeroLength)
                                    } else {
                                        Ok(v as usize)
                                    }
                                },
                            }
                        },
                    },
                }
            },
        },
    }
}

/// A field of the record declaration: its name, if it has one, and its type.
pub struct FieldInput {
    pub name: Option<String>,
    pub ty: FieldTypeArg,
}

/// The shape of a record declaration.
pub enum StructInput {
    /// A struct with named fields, in declaration order.
    Named(Vec<FieldInput>),
    /// A tuple or unit struct.
    Unnamed,
    /// Not a struct.
    NotStruct,
}

/// What a declaration says of one field: its name, its byte length, where it
/// starts, and the name of its variant in the field enum.
pub struct FieldMeta {
    pub name: String,
    pub size: usize,
    pub offset: usize,
    pub variant: String,
}

/// The name `heck::AsPascalCase` makes of `s`: words split at non-alphanumeric
/// characters and case changes, each capitalized, joined.
pub uninterp spec fn pascal_case(s: Seq<char>) -> Seq<char>;

/// `s` in PascalCase, by `heck::AsPascalCase`. Its contract claims only that
/// the result is a function of `s`, named `pascal_case`.
#[verifier::external_body]
fn to_pascal_case(s: &str) -> (r: String)
    ensures
        r@ == pascal_case(s@),
{
    heck::AsPascalCase(s).to_string()
}

/// A field is accepted when it has a name and a `Fixed<N>` type.
pub open spec fn field_ok(f: FieldInput) -> bool {
    f.name is Some && fixed_len_of(f.ty) is Ok
}

/// Why a field that is not accepted is refused.
pub open spec fn field_error(f: FieldInput) -> SchemaError {
    if f.name is None {
        SchemaError::UnnamedField
    } else {
        fixed_len_of(f.ty)->Err_0
    }
}

/// Field `k` is the first field that is refused.
pub open spec fn first_refused(fields: Seq<FieldInput>, k: int) -> bool {
    &&& 0 <= k < fields.len()
    &&& forall|i: int| 0 <= i < k ==> field_ok(#[trigger] fields[i])
    &&& !field_ok(fields[k])
}

/// The total length of the first `k` fields (a refused field counts 0).
pub open spec fn sizes_before(fields: Seq<FieldInput>, k: int) -> int
    decreases k,
{
    if k <= 0 {
        0
    } else {
        sizes_before(fields, k - 1) + match fixed_len_of(fields[k - 1].ty) {
            Ok(n) => n as int,
            Err(_) => 0int,
        }
    }
}

/// `metas` describe `fields`: same count, each field's name, length, start
/// (the total length of the fields before it) and variant name.
pub open spec fn describes(fields: Seq<FieldInput>, metas: Seq<FieldMeta>) -> bool {
    &&& metas.len() == fields.len()
    &&& forall|i: int|
        0 <= i < fields.len() ==> {
            &&& field_ok(#[trigger] fields[i])
            &&& metas[i].name@ == fields[i].name->0@
            &&& fixed_len_of(fields[i].ty) == Ok::<usize, SchemaError>(metas[i].size)
            &&& metas[i].offset == sizes_before(fields, i)
            &&& metas[i].variant@ == pascal_case(metas[i].name@)
        }
}

/// The fields up to the first refused one fit in `usize` together: every run
/// of accepted fields from the start has a total length that fits.
pub open spec fn accepted_fit(fields: Seq<FieldInput>) -> bool {
    forall|k: int|
        0 <= k <= fields.len() && (forall|i: int| 0 <= i < k ==> field_ok(#[trigger] fields[i]))
            ==> #[trigger] sizes_before(fields, k) <= usize::MAX
}

/// The field layout of a declaration: the first refused field, in order, is
/// the error.
pub fn collect_field_meta(input: &StructInput) -> (r: Result<Vec<FieldMeta>, SchemaError>)
    requires
        input matches StructInput::Named(fields) ==> accepted_fit(fields@),
    ensures
        input is NotStruct ==> r == Err::<Vec<FieldMeta>, SchemaError>(SchemaError::NotStruct),
        input is Unnamed ==> r == Err::<Vec<FieldMeta>, SchemaError>(SchemaError::NotNamedFields),
        input matches StructInput::Named(fields) ==> match r {
            Ok(metas) => describes(fields@, metas@),
            Err(e) => exists|k: int| #[trigger] first_refused(fields@, k) && e == field_error(fields@[k]),
        },
{
    match input {
        StructInput::Named(fields) => collect_named_fields(fields),
        StructInput::Unnamed => Err(SchemaError::NotNamedFields),
        StructInput::NotStruct => Err(SchemaError::NotStruct),
    }
}

/// The layout of named fields: the first refused field, in order, is the error.
fn collect_named_fields(fields: &Vec<FieldInput>) -> (r: Result<Vec<FieldMeta>, SchemaError>)
    requires
        accepted_fit(fields@),
    ensures
        match r {
            Ok(metas) => describes(fields@, metas@),
            Err(e) => exists|k: int| #[trigger] first_refused(fields@, k) && e == field_error(fields@[k]),
        },
{
    let mut metas: Vec<FieldMeta> = Vec::new();
    let mut offset: usize = 0;
    let mut k: usize = 0;
    while k < fields.len()
        invariant
            0 <= k <= fields@.len(),
            accepted_fit(fields@),
            offset == sizes_before(fields@, k as int),
            describes(fields@.subrange(0, k as int), metas@),
            forall|i: int| 0 <= i < k ==> field_ok(#[trigger] fields@[i]),
        decreases fields@.len() - k,
    {
        let f = &fields[k];
        let name = match &f.name {
            Some(n) => n,
            None => {
                assert(first_refused(fields@, k as int) && field_error(fields@[k as int]) == SchemaError::UnnamedField);
                return Err(SchemaError::UnnamedField);
            },
        };
        let size = match extract_fixed_len(&f.ty) {
            Ok(n) => n,
            Err(e) => {
                assert(first_refused(fields@, k as int) && field_error(fields@[k as int]) == e);
                return Err(e);
            },
        };
        proof {
            assert(field_ok(fields@[k as int]));
            assert(forall|i: int| 0 <= i < k + 1 ==> field_ok(#[trigger] fields@[i]));
            assert(sizes_before(fields@, k + 1) <= usize::MAX);
        }
        let variant = to_pascal_case(name.as_str());
        let ghost m0 = metas@;
        metas.push(FieldMeta { name: name.clone(), size, offset, variant });
        proof {
            lemma_describes_push(fields@, k as int, m0, metas@.last());
            assert(metas@ =~= m0.push(metas@.last()));
        }
        offset = offset + size;
        k = k + 1;
    }
    assert(fields@.subrange(0, k as int) =~= fields@);
    Ok(metas)
}

/// Describing one more field keeps the description of the ones before it.
proof fn lemma_describes_push(fields: Seq<FieldInput>, k: int, m0: Seq<FieldMeta>, meta: FieldMeta)
    requires
        0 <= k < fields.len(),
        describes(fields.subrange(0, k), m0),
        field_ok(fields[k]),
        meta.name@ == fields[k].name->0@,
        fixed_len_of(fields[k].ty) == Ok::<usize, SchemaError>(meta.size),
        meta.offset == sizes_before(fields, k),
        meta.variant@ == pascal_case(meta.name@),
    ensures
        describes(fields.subrange(0, k + 1), m0.push(meta)),
{
    let sub = fields.subrange(0, k + 1);
    let m = m0.push(meta);
    assert forall|i: int| 0 <= i < sub.len() implies {
        &&& field_ok(#[trigger] sub[i])
        &&& m[i].name@ == sub[i].name->0@
        &&& fixed_len_of(sub[i].ty) == Ok::<usize, SchemaError>(m[i].size)
        &&& m[i].offset == sizes_before(sub, i)
        &&& m[i].variant@ == pascal_case(m[i].name@)
    } by {
        lemma_sizes_before_prefix(fields, k + 1, i);
        if i < k {
            assert(fields.subrange(0, k)[i] == sub[i]);
            lemma_sizes_before_prefix(fields, k, i);
        }
    }
}

/// The total of the first `i` fields is the same in any prefix that holds them.
proof fn lemma_sizes_before_prefix(fields: Seq<FieldInput>, k: int, i: int)
    requires
        0 <= i <= k <= fields.len(),
    ensures
        sizes_before(fields.subrange(0, k), i) == sizes_before(fields, i),
    decreases i,
{
    if i > 0 {
        lemma_sizes_before_prefix(fields, k, i - 1);
    }
}

} // verus!
