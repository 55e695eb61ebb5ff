use vstd::prelude::*;
use vstd::string::*;
use vstd::utf8::*;

use crate::error::Error;
use crate::layout::{offset_of, total_of, RecordLayout};
use crate::number::{padded_text, signed_padded_text};
use crate::list::RecordList;
use crate::record::{overwrite, with_field, width_of, Record};
use crate::traits::FixedRecord;

verus! {

/// The fields of `TestRecord`, in declaration order.
#[derive(Clone, Copy, Debug, PartialEq, Eq, Hash)]
pub enum TestRecordField {
    /// The name.
    Name,
    /// The code.
    Code,
    /// The amount, as decimal text.
    Amount,
}

impl RecordLayout for TestRecordField {
    open spec fn spec_widths() -> Seq<usize> {
        seq![10usize, 5usize, 8usize]
    }

    open spec fn spec_index(self) -> int {
        match self {
            TestRecordField::Name => 0,
            TestRecordField::Code => 1,
            TestRecordField::Amount => 2,
        }
    }

    open spec fn spec_name(self) -> &'static str {
        match self {
            TestRecordField::Name => "name",
            TestRecordField::Code => "code",
            TestRecordField::Amount => "amount",
        }
    }

    open spec fn spec_clear_byte() -> u8 {
        32
    }

    open spec fn spec_fields() -> Seq<Self> {
        seq![TestRecordField::Name, TestRecordField::Code, TestRecordField::Amount]
    }

    open spec fn spec_record_name() -> &'static str {
        "TestRecord"
    }

    proof fn lemma_layout() {
        reveal_with_fuel(offset_of, 4);
        assert(total_of(Self::spec_widths()) == 23);
    }

    fn widths() -> (w: Vec<usize>) {
        let mut w = Vec::new();
        w.push(10);
        w.push(5);
        w.push(8);
        assert(w@ =~= Self::spec_widths());
        w
    }

    fn index(self) -> (i: usize) {
        match self {
            TestRecordField::Name => 0,
            TestRecordField::Code => 1,
            TestRecordField::Amount => 2,
        }
    }

    fn all_fields() -> (v: Vec<Self>) {
        let mut v = Vec::new();
        v.push(TestRecordField::Name);
        v.push(TestRecordField::Code);
        v.push(TestRecordField::Amount);
        assert(v@ =~= Self::spec_fields());
        v
    }

    fn name(self) -> (s: &'static str) {
        match self {
            TestRecordField::Name => "name",
            TestRecordField::Code => "code",
            TestRecordField::Amount => "amount",
        }
    }

    fn clear_byte() -> (b: u8) {
        32
    }

    fn record_name() -> &'static str {
        "TestRecord"
    }
}

impl TestRecordField {
    /// The declared name of this field.
    pub fn as_str(&self) -> (s: &'static str)
        ensures
            s == self.spec_name(),
    {
        self.name()
    }

    /// The declared width of this field.
    pub fn size(&self) -> (n: usize)
        ensures
            n == Self::spec_widths()[self.spec_index()],
    {
        match self {
            TestRecordField::Name => 10,
            TestRecordField::Code => 5,
            TestRecordField::Amount => 8,
        }
    }
}

/// A sample record: a 10-byte name, a 5-byte code and an 8-byte amount; fields are cleared with spaces.
pub type TestRecord = Record<TestRecordField>;

/// A list of `TestRecord` records.
pub type TestRecordList = RecordList<TestRecordField>;

impl Record<TestRecordField> {
    /// Total byte length of the record.
    pub const TOTAL_LEN: usize = 23;

    /// The byte `set_field_*` clears a field with.
    pub const CLEAR_BYTE: u8 = 32;

    /// Width of the `name` field.
    pub const FIELD_SIZE_NAME: usize = 10;

    /// Width of the `code` field.
    pub const FIELD_SIZE_CODE: usize = 5;

    /// Width of the `amount` field.
    pub const FIELD_SIZE_AMOUNT: usize = 8;

    /// The name. The bytes of the field.
    pub fn name(&self) -> (r: &[u8])
        ensures
            r@ == self.field(TestRecordField::Name),
    {
        self.get_field_bytes(TestRecordField::Name)
    }

    /// The name. The field as a string, when it is valid UTF-8.
    pub fn name_str(&self) -> (r: Result<&str, Error>)
        ensures
            r is Ok <==> valid_utf8(self.field(TestRecordField::Name)),
            r matches Ok(s) ==> s.spec_bytes() == self.field(TestRecordField::Name),
            r matches Err(e) ==> e == Error::Utf8Error,
    {
        self.get_field_str(TestRecordField::Name)
    }

    /// The name. Copies `s` over the start of the field without clearing it first;
    /// a shorter string leaves the field's trailing bytes as they were.
    pub fn with_name(self, s: &str) -> (r: Self)
        ensures
            r@ == with_field(self@, TestRecordField::Name, overwrite(self.field(TestRecordField::Name), s.spec_bytes())),
    {
        self.with_field_str(TestRecordField::Name, s)
    }

    /// The name. Writes `v` as `0`-filled decimal text; a wider text keeps only its
    /// leading bytes.
    pub fn with_name_int(self, v: i64) -> (r: Self)
        ensures
            r@ == with_field(self@, TestRecordField::Name, overwrite(self.field(TestRecordField::Name), padded_text(v as int, width_of(TestRecordField::Name)))),
    {
        self.with_field_int(TestRecordField::Name, v)
    }

    /// The name. Writes `v` as `0`-filled decimal text, or reports `FieldOverflow`
    /// when the text is wider than the field.
    pub fn try_with_name_int(self, v: i64) -> (r: Result<Self, Error>)
        ensures
            match r {
                Ok(rec) => padded_text(v as int, width_of(TestRecordField::Name)).len() <= width_of(TestRecordField::Name) && rec@ == with_field(
                    self@,
                    TestRecordField::Name,
                    overwrite(self.field(TestRecordField::Name), padded_text(v as int, width_of(TestRecordField::Name))),
                ),
                Err(e) => padded_text(v as int, width_of(TestRecordField::Name)).len() > width_of(TestRecordField::Name) && e == Error::FieldOverflow {
                    field: TestRecordField::Name.spec_name(),
                    size: width_of(TestRecordField::Name) as usize,
                    actual: padded_text(v as int, width_of(TestRecordField::Name)).len() as usize,
                },
            },
    {
        self.try_with_field_int(TestRecordField::Name, v)
    }

    /// The name. Writes `v` as `0`-filled decimal text, keeping only the leading
    /// bytes of a wider text.
    pub fn with_name_int_truncated(self, v: i64) -> (r: Self)
        ensures
            r@ == with_field(self@, TestRecordField::Name, overwrite(self.field(TestRecordField::Name), padded_text(v as int, width_of(TestRecordField::Name)))),
    {
        self.with_field_int_truncated(TestRecordField::Name, v)
    }

    /// The name. Writes a `+` or `-` sign and `|v|` `0`-filled; a wider text keeps
    /// only its leading bytes.
    pub fn with_name_int_signed(self, v: i64) -> (r: Self)
        ensures
            r@ == with_field(self@, TestRecordField::Name, overwrite(self.field(TestRecordField::Name), signed_padded_text(v as int, width_of(TestRecordField::Name)))),
    {
        self.with_field_int_signed(TestRecordField::Name, v)
    }

    /// The name. Writes a `+` or `-` sign and `|v|` `0`-filled, or reports
    /// `FieldOverflow` when the text is wider than the field.
    pub fn try_with_name_int_signed(self, v: i64) -> (r: Result<Self, Error>)
        ensures
            match r {
                Ok(rec) => signed_padded_text(v as int, width_of(TestRecordField::Name)).len() <= width_of(TestRecordField::Name) && rec@ == with_field(
                    self@,
                    TestRecordField::Name,
                    overwrite(self.field(TestRecordField::Name), signed_padded_text(v as int, width_of(TestRecordField::Name))),
                ),
                Err(e) => signed_padded_text(v as int, width_of(TestRecordField::Name)).len() > width_of(TestRecordField::Name) && e == Error::FieldOverflow {
                    field: TestRecordField::Name.spec_name(),
                    size: width_of(TestRecordField::Name) as usize,
                    actual: signed_padded_text(v as int, width_of(TestRecordField::Name)).len() as usize,
                },
            },
    {
        self.try_with_field_int_signed(TestRecordField::Name, v)
    }

    /// The name. Writes a `+` or `-` sign and `|v|` `0`-filled, keeping only the
    /// leading bytes of a wider text.
    pub fn with_name_int_signed_truncated(self, v: i64) -> (r: Self)
        ensures
            r@ == with_field(self@, TestRecordField::Name, overwrite(self.field(TestRecordField::Name), signed_padded_text(v as int, width_of(TestRecordField::Name)))),
    {
        self.with_field_int_signed_truncated(TestRecordField::Name, v)
    }

    /// The code. The bytes of the field.
    pub fn code(&self) -> (r: &[u8])
        ensures
            r@ == self.field(TestRecordField::Code),
    {
        self.get_field_bytes(TestRecordField::Code)
    }

    /// The code. The field as a string, when it is valid UTF-8.
    pub fn code_str(&self) -> (r: Result<&str, Error>)
        ensures
            r is Ok <==> valid_utf8(self.field(TestRecordField::Code)),
            r matches Ok(s) ==> s.spec_bytes() == self.field(TestRecordField::Code),
            r matches Err(e) ==> e == Error::Utf8Error,
    {
        self.get_field_str(TestRecordField::Code)
    }

    /// The code. Copies `s` over the start of the field without clearing it first;
    /// a shorter string leaves the field's trailing bytes as they were.
    pub fn with_code(self, s: &str) -> (r: Self)
        ensures
            r@ == with_field(self@, TestRecordField::Code, overwrite(self.field(TestRecordField::Code), s.spec_bytes())),
    {
        self.with_field_str(TestRecordField::Code, s)
    }

    /// The code. Writes `v` as `0`-filled decimal text; a wider text keeps only its
    /// leading bytes.
    pub fn with_code_int(self, v: i64) -> (r: Self)
        ensures
            r@ == with_field(self@, TestRecordField::Code, overwrite(self.field(TestRecordField::Code), padded_text(v as int, width_of(TestRecordField::Code)))),
    {
        self.with_field_int(TestRecordField::Code, v)
    }

    /// The code. Writes `v` as `0`-filled decimal text, or reports `FieldOverflow`
    /// when the text is wider than the field.
    pub fn try_with_code_int(self, v: i64) -> (r: Result<Self, Error>)
        ensures
            match r {
                Ok(rec) => padded_text(v as int, width_of(TestRecordField::Code)).len() <= width_of(TestRecordField::Code) && rec@ == with_field(
                    self@,
                    TestRecordField::Code,
                    overwrite(self.field(TestRecordField::Code), padded_text(v as int, width_of(TestRecordField::Code))),
                ),
                Err(e) => padded_text(v as int, width_of(TestRecordField::Code)).len() > width_of(TestRecordField::Code) && e == Error::FieldOverflow {
                    field: TestRecordField::Code.spec_name(),
                    size: width_of(TestRecordField::Code) as usize,
                    actual: padded_text(v as int, width_of(TestRecordField::Code)).len() as usize,
                },
            },
    {
        self.try_with_field_int(TestRecordField::Code, v)
    }

    /// The code. Writes `v` as `0`-filled decimal text, keeping only the leading
    /// bytes of a wider text.
    pub fn with_code_int_truncated(self, v: i64) -> (r: Self)
        ensures
            r@ == with_field(self@, TestRecordField::Code, overwrite(self.field(TestRecordField::Code), padded_text(v as int, width_of(TestRecordField::Code)))),
    {
        self.with_field_int_truncated(TestRecordField::Code, v)
    }

    /// The code. Writes a `+` or `-` sign and `|v|` `0`-filled; a wider text keeps
    /// only its leading bytes.
    pub fn with_code_int_signed(self, v: i64) -> (r: Self)
        ensures
            r@ == with_field(self@, TestRecordField::Code, overwrite(self.field(TestRecordField::Code), signed_padded_text(v as int, width_of(TestRecordField::Code)))),
    {
        self.with_field_int_signed(TestRecordField::Code, v)
    }

    /// The code. Writes a `+` or `-` sign and `|v|` `0`-filled, or reports
    /// `FieldOverflow` when the text is wider than the field.
    pub fn try_with_code_int_signed(self, v: i64) -> (r: Result<Self, Error>)
        ensures
            match r {
                Ok(rec) => signed_padded_text(v as int, width_of(TestRecordField::Code)).len() <= width_of(TestRecordField::Code) && rec@ == with_field(
                    self@,
                    TestRecordField::Code,
                    overwrite(self.field(TestRecordField::Code), signed_padded_text(v as int, width_of(TestRecordField::Code))),
                ),
                Err(e) => signed_padded_text(v as int, width_of(TestRecordField::Code)).len() > width_of(TestRecordField::Code) && e == Error::FieldOverflow {
                    field: TestRecordField::Code.spec_name(),
                    size: width_of(TestRecordField::Code) as usize,
                    actual: signed_padded_text(v as int, width_of(TestRecordField::Code)).len() as usize,
                },
            },
    {
        self.try_with_field_int_signed(TestRecordField::Code, v)
    }

    /// The code. Writes a `+` or `-` sign and `|v|` `0`-filled, keeping only the
    /// leading bytes of a wider text.
    pub fn with_code_int_signed_truncated(self, v: i64) -> (r: Self)
        ensures
            r@ == with_field(self@, TestRecordField::Code, overwrite(self.field(TestRecordField::Code), signed_padded_text(v as int, width_of(TestRecordField::Code)))),
    {
        self.with_field_int_signed_truncated(TestRecordField::Code, v)
    }

    /// The amount, as decimal text. The bytes of the field.
    pub fn amount(&self) -> (r: &[u8])
        ensures
            r@ == self.field(TestRecordField::Amount),
    {
        self.get_field_bytes(TestRecordField::Amount)
    }

    /// The amount, as decimal text. The field as a string, when it is valid UTF-8.
    pub fn amount_str(&self) -> (r: Result<&str, Error>)
        ensures
            r is Ok <==> valid_utf8(self.field(TestRecordField::Amount)),
            r matches Ok(s) ==> s.spec_bytes() == self.field(TestRecordField::Amount),
            r matches Err(e) ==> e == Error::Utf8Error,
    {
        self.get_field_str(TestRecordField::Amount)
    }

    /// The amount, as decimal text. Copies `s` over the start of the field without clearing it first;
    /// a shorter string leaves the field's trailing bytes as they were.
    pub fn with_amount(self, s: &str) -> (r: Self)
        ensures
            r@ == with_field(self@, TestRecordField::Amount, overwrite(self.field(TestRecordField::Amount), s.spec_bytes())),
    {
        self.with_field_str(TestRecordField::Amount, s)
    }

    /// The amount, as decimal text. Writes `v` as `0`-filled decimal text; a wider text keeps only its
    /// leading bytes.
    pub fn with_amount_int(self, v: i64) -> (r: Self)
        ensures
            r@ == with_field(self@, TestRecordField::Amount, overwrite(self.field(TestRecordField::Amount), padded_text(v as int, width_of(TestRecordField::Amount)))),
    {
        self.with_field_int(TestRecordField::Amount, v)
    }

    /// The amount, as decimal text. Writes `v` as `0`-filled decimal text, or reports `FieldOverflow`
    /// when the text is wider than the field.
    pub fn try_with_amount_int(self, v: i64) -> (r: Result<Self, Error>)
        ensures
            match r {
                Ok(rec) => padded_text(v as int, width_of(TestRecordField::Amount)).len() <= width_of(TestRecordField::Amount) && rec@ == with_field(
                    self@,
                    TestRecordField::Amount,
                    overwrite(self.field(TestRecordField::Amount), padded_text(v as int, width_of(TestRecordField::Amount))),
                ),
                Err(e) => padded_text(v as int, width_of(TestRecordField::Amount)).len() > width_of(TestRecordField::Amount) && e == Error::FieldOverflow {
                    field: TestRecordField::Amount.spec_name(),
                    size: width_of(TestRecordField::Amount) as usize,
                    actual: padded_text(v as int, width_of(TestRecordField::Amount)).len() as usize,
                },
            },
    {
        self.try_with_field_int(TestRecordField::Amount, v)
    }

    /// The amount, as decimal text. Writes `v` as `0`-filled decimal text, keeping only the leading
    /// bytes of a wider text.
    pub fn with_amount_int_truncated(self, v: i64) -> (r: Self)
        ensures
            r@ == with_field(self@, TestRecordField::Amount, overwrite(self.field(TestRecordField::Amount), padded_text(v as int, width_of(TestRecordField::Amount)))),
    {
        self.with_field_int_truncated(TestRecordField::Amount, v)
    }

    /// The amount, as decimal text. Writes a `+` or `-` sign and `|v|` `0`-filled; a wider text keeps
    /// only its leading bytes.
    pub fn with_amount_int_signed(self, v: i64) -> (r: Self)
        ensures
            r@ == with_field(self@, TestRecordField::Amount, overwrite(self.field(TestRecordField::Amount), signed_padded_text(v as int, width_of(TestRecordField::Amount)))),
    {
        self.with_field_int_signed(TestRecordField::Amount, v)
    }

    /// The amount, as decimal text. Writes a `+` or `-` sign and `|v|` `0`-filled, or reports
    /// `FieldOverflow` when the text is wider than the field.
    pub fn try_with_amount_int_signed(self, v: i64) -> (r: Result<Self, Error>)
        ensures
            match r {
                Ok(rec) => signed_padded_text(v as int, width_of(TestRecordField::Amount)).len() <= width_of(TestRecordField::Amount) && rec@ == with_field(
                    self@,
                    TestRecordField::Amount,
                    overwrite(self.field(TestRecordField::Amount), signed_padded_text(v as int, width_of(TestRecordField::Amount))),
                ),
                Err(e) => signed_padded_text(v as int, width_of(TestRecordField::Amount)).len() > width_of(TestRecordField::Amount) && e == Error::FieldOverflow {
                    field: TestRecordField::Amount.spec_name(),
                    size: width_of(TestRecordField::Amount) as usize,
                    actual: signed_padded_text(v as int, width_of(TestRecordField::Amount)).len() as usize,
                },
            },
    {
        self.try_with_field_int_signed(TestRecordField::Amount, v)
    }

    /// The amount, as decimal text. Writes a `+` or `-` sign and `|v|` `0`-filled, keeping only the
    /// leading bytes of a wider text.
    pub fn with_amount_int_signed_truncated(self, v: i64) -> (r: Self)
        ensures
            r@ == with_field(self@, TestRecordField::Amount, overwrite(self.field(TestRecordField::Amount), signed_padded_text(v as int, width_of(TestRecordField::Amount)))),
    {
        self.with_field_int_signed_truncated(TestRecordField::Amount, v)
    }
}

/// The fields of `NulClearTestRecord`, in declaration order.
#[derive(Clone, Copy, Debug, PartialEq, Eq, Hash)]
pub enum NulClearTestRecordField {
    /// The name.
    Name,
    /// The code.
    Code,
    /// The amount, as decimal text.
    Amount,
}

impl RecordLayout for NulClearTestRecordField {
    open spec fn spec_widths() -> Seq<usize> {
        seq![10usize, 5usize, 8usize]
    }

    open spec fn spec_index(self) -> int {
        match self {
            NulClearTestRecordField::Name => 0,
            NulClearTestRecordField::Code => 1,
            NulClearTestRecordField::Amount => 2,
        }
    }

    open spec fn spec_name(self) -> &'static str {
        match self {
            NulClearTestRecordField::Name => "name",
            NulClearTestRecordField::Code => "code",
            NulClearTestRecordField::Amount => "amount",
        }
    }

    open spec fn spec_clear_byte() -> u8 {
        0
    }

    open spec fn spec_fields() -> Seq<Self> {
        seq![NulClearTestRecordField::Name, NulClearTestRecordField::Code, NulClearTestRecordField::Amount]
    }

    open spec fn spec_record_name() -> &'static str {
        "TestRecord"
    }

    proof fn lemma_layout() {
        reveal_with_fuel(offset_of, 4);
        assert(total_of(Self::spec_widths()) == 23);
    }

    fn widths() -> (w: Vec<usize>) {
        let mut w = Vec::new();
        w.push(10);
        w.push(5);
        w.push(8);
        assert(w@ =~= Self::spec_widths());
        w
    }

    fn index(self) -> (i: usize) {
        match self {
            NulClearTestRecordField::Name => 0,
            NulClearTestRecordField::Code => 1,
            NulClearTestRecordField::Amount => 2,
        }
    }

    fn all_fields() -> (v: Vec<Self>) {
        let mut v = Vec::new();
        v.push(NulClearTestRecordField::Name);
        v.push(NulClearTestRecordField::Code);
        v.push(NulClearTestRecordField::Amount);
        assert(v@ =~= Self::spec_fields());
        v
    }

    fn name(self) -> (s: &'static str) {
        match self {
            NulClearTestRecordField::Name => "name",
            NulClearTestRecordField::Code => "code",
            NulClearTestRecordField::Amount => "amount",
        }
    }

    fn clear_byte() -> (b: u8) {
        0
    }

    fn record_name() -> &'static str {
        "TestRecord"
    }
}

impl NulClearTestRecordField {
    /// The declared name of this field.
    pub fn as_str(&self) -> (s: &'static str)
        ensures
            s == self.spec_name(),
    {
        self.name()
    }

    /// The declared width of this field.
    pub fn size(&self) -> (n: usize)
        ensures
            n == Self::spec_widths()[self.spec_index()],
    {
        match self {
            NulClearTestRecordField::Name => 10,
            NulClearTestRecordField::Code => 5,
            NulClearTestRecordField::Amount => 8,
        }
    }
}

/// The sample record's layout with fields cleared with `0x00`.
pub type NulClearTestRecord = Record<NulClearTestRecordField>;

/// A list of `NulClearTestRecord` records.
pub type NulClearTestRecordList = RecordList<NulClearTestRecordField>;

impl Record<NulClearTestRecordField> {
    /// Total byte length of the record.
    pub const TOTAL_LEN: usize = 23;

    /// The byte `set_field_*` clears a field with.
    pub const CLEAR_BYTE: u8 = 0;

    /// Width of the `name` field.
    pub const FIELD_SIZE_NAME: usize = 10;

    /// Width of the `code` field.
    pub const FIELD_SIZE_CODE: usize = 5;

    /// Width of the `amount` field.
    pub const FIELD_SIZE_AMOUNT: usize = 8;

    /// The name. The bytes of the field.
    pub fn name(&self) -> (r: &[u8])
        ensures
            r@ == self.field(NulClearTestRecordField::Name),
    {
        self.get_field_bytes(NulClearTestRecordField::Name)
    }

    /// The name. The field as a string, when it is valid UTF-8.
    pub fn name_str(&self) -> (r: Result<&str, Error>)
        ensures
            r is Ok <==> valid_utf8(self.field(NulClearTestRecordField::Name)),
            r matches Ok(s) ==> s.spec_bytes() == self.field(NulClearTestRecordField::Name),
            r matches Err(e) ==> e == Error::Utf8Error,
    {
        self.get_field_str(NulClearTestRecordField::Name)
    }

    /// The name. Copies `s` over the start of the field without clearing it first;
    /// a shorter string leaves the field's trailing bytes as they were.
    pub fn with_name(self, s: &str) -> (r: Self)
        ensures
            r@ == with_field(self@, NulClearTestRecordField::Name, overwrite(self.field(NulClearTestRecordField::Name), s.spec_bytes())),
    {
        self.with_field_str(NulClearTestRecordField::Name, s)
    }

    /// The name. Writes `v` as `0`-filled decimal text; a wider text keeps only its
    /// leading bytes.
    pub fn with_name_int(self, v: i64) -> (r: Self)
        ensures
            r@ == with_field(self@, NulClearTestRecordField::Name, overwrite(self.field(NulClearTestRecordField::Name), padded_text(v as int, width_of(NulClearTestRecordField::Name)))),
    {
        self.with_field_int(NulClearTestRecordField::Name, v)
    }

    /// The name. Writes `v` as `0`-filled decimal text, or reports `FieldOverflow`
    /// when the text is wider than the field.
    pub fn try_with_name_int(self, v: i64) -> (r: Result<Self, Error>)
        ensures
            match r {
                Ok(rec) => padded_text(v as int, width_of(NulClearTestRecordField::Name)).len() <= width_of(NulClearTestRecordField::Name) && rec@ == with_field(
                    self@,
                    NulClearTestRecordField::Name,
                    overwrite(self.field(NulClearTestRecordField::Name), padded_text(v as int, width_of(NulClearTestRecordField::Name))),
                ),
                Err(e) => padded_text(v as int, width_of(NulClearTestRecordField::Name)).len() > width_of(NulClearTestRecordField::Name) && e == Error::FieldOverflow {
                    field: NulClearTestRecordField::Name.spec_name(),
                    size: width_of(NulClearTestRecordField::Name) as usize,
                    actual: padded_text(v as int, width_of(NulClearTestRecordField::Name)).len() as usize,
                },
            },
    {
        self.try_with_field_int(NulClearTestRecordField::Name, v)
    }

    /// The name. Writes `v` as `0`-filled decimal text, keeping only the leading
    /// bytes of a wider text.
    pub fn with_name_int_truncated(self, v: i64) -> (r: Self)
        ensures
            r@ == with_field(self@, NulClearTestRecordField::Name, overwrite(self.field(NulClearTestRecordField::Name), padded_text(v as int, width_of(NulClearTestRecordField::Name)))),
    {
        self.with_field_int_truncated(NulClearTestRecordField::Name, v)
    }

    /// The name. Writes a `+` or `-` sign and `|v|` `0`-filled; a wider text keeps
    /// only its leading bytes.
    pub fn with_name_int_signed(self, v: i64) -> (r: Self)
        ensures
            r@ == with_field(self@, NulClearTestRecordField::Name, overwrite(self.field(NulClearTestRecordField::Name), signed_padded_text(v as int, width_of(NulClearTestRecordField::Name)))),
    {
        self.with_field_int_signed(NulClearTestRecordField::Name, v)
    }

    /// The name. Writes a `+` or `-` sign and `|v|` `0`-filled, or reports
    /// `FieldOverflow` when the text is wider than the field.
    pub fn try_with_name_int_signed(self, v: i64) -> (r: Result<Self, Error>)
        ensures
            match r {
                Ok(rec) => signed_padded_text(v as int, width_of(NulClearTestRecordField::Name)).len() <= width_of(NulClearTestRecordField::Name) && rec@ == with_field(
                    self@,
                    NulClearTestRecordField::Name,
                    overwrite(self.field(NulClearTestRecordField::Name), signed_padded_text(v as int, width_of(NulClearTestRecordField::Name))),
                ),
                Err(e) => signed_padded_text(v as int, width_of(NulClearTestRecordField::Name)).len() > width_of(NulClearTestRecordField::Name) && e == Error::FieldOverflow {
                    field: NulClearTestRecordField::Name.spec_name(),
                    size: width_of(NulClearTestRecordField::Name) as usize,
                    actual: signed_padded_text(v as int, width_of(NulClearTestRecordField::Name)).len() as usize,
                },
            },
    {
        self.try_with_field_int_signed(NulClearTestRecordField::Name, v)
    }

    /// The name. Writes a `+` or `-` sign and `|v|` `0`-filled, keeping only the
    /// leading bytes of a wider text.
    pub fn with_name_int_signed_truncated(self, v: i64) -> (r: Self)
        ensures
            r@ == with_field(self@, NulClearTestRecordField::Name, overwrite(self.field(NulClearTestRecordField::Name), signed_padded_text(v as int, width_of(NulClearTestRecordField::Name)))),
    {
        self.with_field_int_signed_truncated(NulClearTestRecordField::Name, v)
    }

    /// The code. The bytes of the field.
    pub fn code(&self) -> (r: &[u8])
        ensures
            r@ == self.field(NulClearTestRecordField::Code),
    {
        self.get_field_bytes(NulClearTestRecordField::Code)
    }

    /// The code. The field as a string, when it is valid UTF-8.
    pub fn code_str(&self) -> (r: Result<&str, Error>)
        ensures
            r is Ok <==> valid_utf8(self.field(NulClearTestRecordField::Code)),
            r matches Ok(s) ==> s.spec_bytes() == self.field(NulClearTestRecordField::Code),
            r matches Err(e) ==> e == Error::Utf8Error,
    {
        self.get_field_str(NulClearTestRecordField::Code)
    }

    /// The code. Copies `s` over the start of the field without clearing it first;
    /// a shorter string leaves the field's trailing bytes as they were.
    pub fn with_code(self, s: &str) -> (r: Self)
        ensures
            r@ == with_field(self@, NulClearTestRecordField::Code, overwrite(self.field(NulClearTestRecordField::Code), s.spec_bytes())),
    {
        self.with_field_str(NulClearTestRecordField::Code, s)
    }

    /// The code. Writes `v` as `0`-filled decimal text; a wider text keeps only its
    /// leading bytes.
    pub fn with_code_int(self, v: i64) -> (r: Self)
        ensures
            r@ == with_field(self@, NulClearTestRecordField::Code, overwrite(self.field(NulClearTestRecordField::Code), padded_text(v as int, width_of(NulClearTestRecordField::Code)))),
    {
        self.with_field_int(NulClearTestRecordField::Code, v)
    }

    /// The code. Writes `v` as `0`-filled decimal text, or reports `FieldOverflow`
    /// when the text is wider than the field.
    pub fn try_with_code_int(self, v: i64) -> (r: Result<Self, Error>)
        ensures
            match r {
                Ok(rec) => padded_text(v as int, width_of(NulClearTestRecordField::Code)).len() <= width_of(NulClearTestRecordField::Code) && rec@ == with_field(
                    self@,
                    NulClearTestRecordField::Code,
                    overwrite(self.field(NulClearTestRecordField::Code), padded_text(v as int, width_of(NulClearTestRecordField::Code))),
                ),
                Err(e) => padded_text(v as int, width_of(NulClearTestRecordField::Code)).len() > width_of(NulClearTestRecordField::Code) && e == Error::FieldOverflow {
                    field: NulClearTestRecordField::Code.spec_name(),
                    size: width_of(NulClearTestRecordField::Code) as usize,
                    actual: padded_text(v as int, width_of(NulClearTestRecordField::Code)).len() as usize,
                },
            },
    {
        self.try_with_field_int(NulClearTestRecordField::Code, v)
    }

    /// The code. Writes `v` as `0`-filled decimal text, keeping only the leading
    /// bytes of a wider text.
    pub fn with_code_int_truncated(self, v: i64) -> (r: Self)
        ensures
            r@ == with_field(self@, NulClearTestRecordField::Code, overwrite(self.field(NulClearTestRecordField::Code), padded_text(v as int, width_of(NulClearTestRecordField::Code)))),
    {
        self.with_field_int_truncated(NulClearTestRecordField::Code, v)
    }

    /// The code. Writes a `+` or `-` sign and `|v|` `0`-filled; a wider text keeps
    /// only its leading bytes.
    pub fn with_code_int_signed(self, v: i64) -> (r: Self)
        ensures
            r@ == with_field(self@, NulClearTestRecordField::Code, overwrite(self.field(NulClearTestRecordField::Code), signed_padded_text(v as int, width_of(NulClearTestRecordField::Code)))),
    {
        self.with_field_int_signed(NulClearTestRecordField::Code, v)
    }

    /// The code. Writes a `+` or `-` sign and `|v|` `0`-filled, or reports
    /// `FieldOverflow` when the text is wider than the field.
    pub fn try_with_code_int_signed(self, v: i64) -> (r: Result<Self, Error>)
        ensures
            match r {
                Ok(rec) => signed_padded_text(v as int, width_of(NulClearTestRecordField::Code)).len() <= width_of(NulClearTestRecordField::Code) && rec@ == with_field(
                    self@,
                    NulClearTestRecordField::Code,
                    overwrite(self.field(NulClearTestRecordField::Code), signed_padded_text(v as int, width_of(NulClearTestRecordField::Code))),
                ),
                Err(e) => signed_padded_text(v as int, width_of(NulClearTestRecordField::Code)).len() > width_of(NulClearTestRecordField::Code) && e == Error::FieldOverflow {
                    field: NulClearTestRecordField::Code.spec_name(),
                    size: width_of(NulClearTestRecordField::Code) as usize,
                    actual: signed_padded_text(v as int, width_of(NulClearTestRecordField::Code)).len() as usize,
                },
            },
    {
        self.try_with_field_int_signed(NulClearTestRecordField::Code, v)
    }

    /// The code. Writes a `+` or `-` sign and `|v|` `0`-filled, keeping only the
    /// leading bytes of a wider text.
    pub fn with_code_int_signed_truncated(self, v: i64) -> (r: Self)
        ensures
            r@ == with_field(self@, NulClearTestRecordField::Code, overwrite(self.field(NulClearTestRecordField::Code), signed_padded_text(v as int, width_of(NulClearTestRecordField::Code)))),
    {
        self.with_field_int_signed_truncated(NulClearTestRecordField::Code, v)
    }

    /// The amount, as decimal text. The bytes of the field.
    pub fn amount(&self) -> (r: &[u8])
        ensures
            r@ == self.field(NulClearTestRecordField::Amount),
    {
        self.get_field_bytes(NulClearTestRecordField::Amount)
    }

    /// The amount, as decimal text. The field as a string, when it is valid UTF-8.
    pub fn amount_str(&self) -> (r: Result<&str, Error>)
        ensures
            r is Ok <==> valid_utf8(self.field(NulClearTestRecordField::Amount)),
            r matches Ok(s) ==> s.spec_bytes() == self.field(NulClearTestRecordField::Amount),
            r matches Err(e) ==> e == Error::Utf8Error,
    {
        self.get_field_str(NulClearTestRecordField::Amount)
    }

    /// The amount, as decimal text. Copies `s` over the start of the field without clearing it first;
    /// a shorter string leaves the field's trailing bytes as they were.
    pub fn with_amount(self, s: &str) -> (r: Self)
        ensures
            r@ == with_field(self@, NulClearTestRecordField::Amount, overwrite(self.field(NulClearTestRecordField::Amount), s.spec_bytes())),
    {
        self.with_field_str(NulClearTestRecordField::Amount, s)
    }

    /// The amount, as decimal text. Writes `v` as `0`-filled decimal text; a wider text keeps only its
    /// leading bytes.
    pub fn with_amount_int(self, v: i64) -> (r: Self)
        ensures
            r@ == with_field(self@, NulClearTestRecordField::Amount, overwrite(self.field(NulClearTestRecordField::Amount), padded_text(v as int, width_of(NulClearTestRecordField::Amount)))),
    {
        self.with_field_int(NulClearTestRecordField::Amount, v)
    }

    /// The amount, as decimal text. Writes `v` as `0`-filled decimal text, or reports `FieldOverflow`
    /// when the text is wider than the field.
    pub fn try_with_amount_int(self, v: i64) -> (r: Result<Self, Error>)
        ensures
            match r {
                Ok(rec) => padded_text(v as int, width_of(NulClearTestRecordField::Amount)).len() <= width_of(NulClearTestRecordField::Amount) && rec@ == with_field(
                    self@,
                    NulClearTestRecordField::Amount,
                    overwrite(self.field(NulClearTestRecordField::Amount), padded_text(v as int, width_of(NulClearTestRecordField::Amount))),
                ),
                Err(e) => padded_text(v as int, width_of(NulClearTestRecordField::Amount)).len() > width_of(NulClearTestRecordField::Amount) && e == Error::FieldOverflow {
                    field: NulClearTestRecordField::Amount.spec_name(),
                    size: width_of(NulClearTestRecordField::Amount) as usize,
                    actual: padded_text(v as int, width_of(NulClearTestRecordField::Amount)).len() as usize,
                },
            },
    {
        self.try_with_field_int(NulClearTestRecordField::Amount, v)
    }

    /// The amount, as decimal text. Writes `v` as `0`-filled decimal text, keeping only the leading
    /// bytes of a wider text.
    pub fn with_amount_int_truncated(self, v: i64) -> (r: Self)
        ensures
            r@ == with_field(self@, NulClearTestRecordField::Amount, overwrite(self.field(NulClearTestRecordField::Amount), padded_text(v as int, width_of(NulClearTestRecordField::Amount)))),
    {
        self.with_field_int_truncated(NulClearTestRecordField::Amount, v)
    }

    /// The amount, as decimal text. Writes a `+` or `-` sign and `|v|` `0`-filled; a wider text keeps
    /// only its leading bytes.
    pub fn with_amount_int_signed(self, v: i64) -> (r: Self)
        ensures
            r@ == with_field(self@, NulClearTestRecordField::Amount, overwrite(self.field(NulClearTestRecordField::Amount), signed_padded_text(v as int, width_of(NulClearTestRecordField::Amount)))),
    {
        self.with_field_int_signed(NulClearTestRecordField::Amount, v)
    }

    /// The amount, as decimal text. Writes a `+` or `-` sign and `|v|` `0`-filled, or reports
    /// `FieldOverflow` when the text is wider than the field.
    pub fn try_with_amount_int_signed(self, v: i64) -> (r: Result<Self, Error>)
        ensures
            match r {
                Ok(rec) => signed_padded_text(v as int, width_of(NulClearTestRecordField::Amount)).len() <= width_of(NulClearTestRecordField::Amount) && rec@ == with_field(
                    self@,
                    NulClearTestRecordField::Amount,
                    overwrite(self.field(NulClearTestRecordField::Amount), signed_padded_text(v as int, width_of(NulClearTestRecordField::Amount))),
                ),
                Err(e) => signed_padded_text(v as int, width_of(NulClearTestRecordField::Amount)).len() > width_of(NulClearTestRecordField::Amount) && e == Error::FieldOverflow {
                    field: NulClearTestRecordField::Amount.spec_name(),
                    size: width_of(NulClearTestRecordField::Amount) as usize,
                    actual: signed_padded_text(v as int, width_of(NulClearTestRecordField::Amount)).len() as usize,
                },
            },
    {
        self.try_with_field_int_signed(NulClearTestRecordField::Amount, v)
    }

    /// The amount, as decimal text. Writes a `+` or `-` sign and `|v|` `0`-filled, keeping only the
    /// leading bytes of a wider text.
    pub fn with_amount_int_signed_truncated(self, v: i64) -> (r: Self)
        ensures
            r@ == with_field(self@, NulClearTestRecordField::Amount, overwrite(self.field(NulClearTestRecordField::Amount), signed_padded_text(v as int, width_of(NulClearTestRecordField::Amount)))),
    {
        self.with_field_int_signed_truncated(NulClearTestRecordField::Amount, v)
    }
}

/// The fields of `SplitUtf8Record`, in declaration order.
#[derive(Clone, Copy, Debug, PartialEq, Eq, Hash)]
pub enum SplitUtf8RecordField {
    /// The first field.
    Name,
    /// The rest of the record.
    Rest,
}

impl RecordLayout for SplitUtf8RecordField {
    open spec fn spec_widths() -> Seq<usize> {
        seq![8usize, 2usize]
    }

    open spec fn spec_index(self) -> int {
        match self {
            SplitUtf8RecordField::Name => 0,
            SplitUtf8RecordField::Rest => 1,
        }
    }

    open spec fn spec_name(self) -> &'static str {
        match self {
            SplitUtf8RecordField::Name => "name",
            SplitUtf8RecordField::Rest => "rest",
        }
    }

    open spec fn spec_clear_byte() -> u8 {
        32
    }

    open spec fn spec_fields() -> Seq<Self> {
        seq![SplitUtf8RecordField::Name, SplitUtf8RecordField::Rest]
    }

    open spec fn spec_record_name() -> &'static str {
        "SplitUtf8Record"
    }

    proof fn lemma_layout() {
        reveal_with_fuel(offset_of, 3);
        assert(total_of(Self::spec_widths()) == 10);
    }

    fn widths() -> (w: Vec<usize>) {
        let mut w = Vec::new();
        w.push(8);
        w.push(2);
        assert(w@ =~= Self::spec_widths());
        w
    }

    fn index(self) -> (i: usize) {
        match self {
            SplitUtf8RecordField::Name => 0,
            SplitUtf8RecordField::Rest => 1,
        }
    }

    fn all_fields() -> (v: Vec<Self>) {
        let mut v = Vec::new();
        v.push(SplitUtf8RecordField::Name);
        v.push(SplitUtf8RecordField::Rest);
        assert(v@ =~= Self::spec_fields());
        v
    }

    fn name(self) -> (s: &'static str) {
        match self {
            SplitUtf8RecordField::Name => "name",
            SplitUtf8RecordField::Rest => "rest",
        }
    }

    fn clear_byte() -> (b: u8) {
        32
    }

    fn record_name() -> &'static str {
        "SplitUtf8Record"
    }
}

impl SplitUtf8RecordField {
    /// The declared name of this field.
    pub fn as_str(&self) -> (s: &'static str)
        ensures
            s == self.spec_name(),
    {
        self.name()
    }

    /// The declared width of this field.
    pub fn size(&self) -> (n: usize)
        ensures
            n == Self::spec_widths()[self.spec_index()],
    {
        match self {
            SplitUtf8RecordField::Name => 8,
            SplitUtf8RecordField::Rest => 2,
        }
    }
}

/// A record whose 8-byte first field can end inside a UTF-8 character.
pub type SplitUtf8Record = Record<SplitUtf8RecordField>;

/// A list of `SplitUtf8Record` records.
pub type SplitUtf8RecordList = RecordList<SplitUtf8RecordField>;

impl Record<SplitUtf8RecordField> {
    /// Total byte length of the record.
    pub const TOTAL_LEN: usize = 10;

    /// The byte `set_field_*` clears a field with.
    pub const CLEAR_BYTE: u8 = 32;

    /// Width of the `name` field.
    pub const FIELD_SIZE_NAME: usize = 8;

    /// Width of the `rest` field.
    pub const FIELD_SIZE_REST: usize = 2;

    /// The first field. The bytes of the field.
    pub fn name(&self) -> (r: &[u8])
        ensures
            r@ == self.field(SplitUtf8RecordField::Name),
    {
        self.get_field_bytes(SplitUtf8RecordField::Name)
    }

    /// The first field. The field as a string, when it is valid UTF-8.
    pub fn name_str(&self) -> (r: Result<&str, Error>)
        ensures
            r is Ok <==> valid_utf8(self.field(SplitUtf8RecordField::Name)),
            r matches Ok(s) ==> s.spec_bytes() == self.field(SplitUtf8RecordField::Name),
            r matches Err(e) ==> e == Error::Utf8Error,
    {
        self.get_field_str(SplitUtf8RecordField::Name)
    }

    /// The first field. Copies `s` over the start of the field without clearing it first;
    /// a shorter string leaves the field's trailing bytes as they were.
    pub fn with_name(self, s: &str) -> (r: Self)
        ensures
            r@ == with_field(self@, SplitUtf8RecordField::Name, overwrite(self.field(SplitUtf8RecordField::Name), s.spec_bytes())),
    {
        self.with_field_str(SplitUtf8RecordField::Name, s)
    }

    /// The first field. Writes `v` as `0`-filled decimal text; a wider text keeps only its
    /// leading bytes.
    pub fn with_name_int(self, v: i64) -> (r: Self)
        ensures
            r@ == with_field(self@, SplitUtf8RecordField::Name, overwrite(self.field(SplitUtf8RecordField::Name), padded_text(v as int, width_of(SplitUtf8RecordField::Name)))),
    {
        self.with_field_int(SplitUtf8RecordField::Name, v)
    }

    /// The first field. Writes `v` as `0`-filled decimal text, or reports `FieldOverflow`
    /// when the text is wider than the field.
    pub fn try_with_name_int(self, v: i64) -> (r: Result<Self, Error>)
        ensures
            match r {
                Ok(rec) => padded_text(v as int, width_of(SplitUtf8RecordField::Name)).len() <= width_of(SplitUtf8RecordField::Name) && rec@ == with_field(
                    self@,
                    SplitUtf8RecordField::Name,
                    overwrite(self.field(SplitUtf8RecordField::Name), padded_text(v as int, width_of(SplitUtf8RecordField::Name))),
                ),
                Err(e) => padded_text(v as int, width_of(SplitUtf8RecordField::Name)).len() > width_of(SplitUtf8RecordField::Name) && e == Error::FieldOverflow {
                    field: SplitUtf8RecordField::Name.spec_name(),
                    size: width_of(SplitUtf8RecordField::Name) as usize,
                    actual: padded_text(v as int, width_of(SplitUtf8RecordField::Name)).len() as usize,
                },
            },
    {
        self.try_with_field_int(SplitUtf8RecordField::Name, v)
    }

    /// The first field. Writes `v` as `0`-filled decimal text, keeping only the leading
    /// bytes of a wider text.
    pub fn with_name_int_truncated(self, v: i64) -> (r: Self)
        ensures
            r@ == with_field(self@, SplitUtf8RecordField::Name, overwrite(self.field(SplitUtf8RecordField::Name), padded_text(v as int, width_of(SplitUtf8RecordField::Name)))),
    {
        self.with_field_int_truncated(SplitUtf8RecordField::Name, v)
    }

    /// The first field. Writes a `+` or `-` sign and `|v|` `0`-filled; a wider text keeps
    /// only its leading bytes.
    pub fn with_name_int_signed(self, v: i64) -> (r: Self)
        ensures
            r@ == with_field(self@, SplitUtf8RecordField::Name, overwrite(self.field(SplitUtf8RecordField::Name), signed_padded_text(v as int, width_of(SplitUtf8RecordField::Name)))),
    {
        self.with_field_int_signed(SplitUtf8RecordField::Name, v)
    }

    /// The first field. Writes a `+` or `-` sign and `|v|` `0`-filled, or reports
    /// `FieldOverflow` when the text is wider than the field.
    pub fn try_with_name_int_signed(self, v: i64) -> (r: Result<Self, Error>)
        ensures
            match r {
                Ok(rec) => signed_padded_text(v as int, width_of(SplitUtf8RecordField::Name)).len() <= width_of(SplitUtf8RecordField::Name) && rec@ == with_field(
                    self@,
                    SplitUtf8RecordField::Name,
                    overwrite(self.field(SplitUtf8RecordField::Name), signed_padded_text(v as int, width_of(SplitUtf8RecordField::Name))),
                ),
                Err(e) => signed_padded_text(v as int, width_of(SplitUtf8RecordField::Name)).len() > width_of(SplitUtf8RecordField::Name) && e == Error::FieldOverflow {
                    field: SplitUtf8RecordField::Name.spec_name(),
                    size: width_of(SplitUtf8RecordField::Name) as usize,
                    actual: signed_padded_text(v as int, width_of(SplitUtf8RecordField::Name)).len() as usize,
                },
            },
    {
        self.try_with_field_int_signed(SplitUtf8RecordField::Name, v)
    }

    /// The first field. Writes a `+` or `-` sign and `|v|` `0`-filled, keeping only the
    /// leading bytes of a wider text.
    pub fn with_name_int_signed_truncated(self, v: i64) -> (r: Self)
        ensures
            r@ == with_field(self@, SplitUtf8RecordField::Name, overwrite(self.field(SplitUtf8RecordField::Name), signed_padded_text(v as int, width_of(SplitUtf8RecordField::Name)))),
    {
        self.with_field_int_signed_truncated(SplitUtf8RecordField::Name, v)
    }

    /// The rest of the record. The bytes of the field.
    pub fn rest(&self) -> (r: &[u8])
        ensures
            r@ == self.field(SplitUtf8RecordField::Rest),
    {
        self.get_field_bytes(SplitUtf8RecordField::Rest)
    }

    /// The rest of the record. The field as a string, when it is valid UTF-8.
    pub fn rest_str(&self) -> (r: Result<&str, Error>)
        ensures
            r is Ok <==> valid_utf8(self.field(SplitUtf8RecordField::Rest)),
            r matches Ok(s) ==> s.spec_bytes() == self.field(SplitUtf8RecordField::Rest),
            r matches Err(e) ==> e == Error::Utf8Error,
    {
        self.get_field_str(SplitUtf8RecordField::Rest)
    }

    /// The rest of the record. Copies `s` over the start of the field without clearing it first;
    /// a shorter string leaves the field's trailing bytes as they were.
    pub fn with_rest(self, s: &str) -> (r: Self)
        ensures
            r@ == with_field(self@, SplitUtf8RecordField::Rest, overwrite(self.field(SplitUtf8RecordField::Rest), s.spec_bytes())),
    {
        self.with_field_str(SplitUtf8RecordField::Rest, s)
    }

    /// The rest of the record. Writes `v` as `0`-filled decimal text; a wider text keeps only its
    /// leading bytes.
    pub fn with_rest_int(self, v: i64) -> (r: Self)
        ensures
            r@ == with_field(self@, SplitUtf8RecordField::Rest, overwrite(self.field(SplitUtf8RecordField::Rest), padded_text(v as int, width_of(SplitUtf8RecordField::Rest)))),
    {
        self.with_field_int(SplitUtf8RecordField::Rest, v)
    }

    /// The rest of the record. Writes `v` as `0`-filled decimal text, or reports `FieldOverflow`
    /// when the text is wider than the field.
    pub fn try_with_rest_int(self, v: i64) -> (r: Result<Self, Error>)
        ensures
            match r {
                Ok(rec) => padded_text(v as int, width_of(SplitUtf8RecordField::Rest)).len() <= width_of(SplitUtf8RecordField::Rest) && rec@ == with_field(
                    self@,
                    SplitUtf8RecordField::Rest,
                    overwrite(self.field(SplitUtf8RecordField::Rest), padded_text(v as int, width_of(SplitUtf8RecordField::Rest))),
                ),
                Err(e) => padded_text(v as int, width_of(SplitUtf8RecordField::Rest)).len() > width_of(SplitUtf8RecordField::Rest) && e == Error::FieldOverflow {
                    field: SplitUtf8RecordField::Rest.spec_name(),
                    size: width_of(SplitUtf8RecordField::Rest) as usize,
                    actual: padded_text(v as int, width_of(SplitUtf8RecordField::Rest)).len() as usize,
                },
            },
    {
        self.try_with_field_int(SplitUtf8RecordField::Rest, v)
    }

    /// The rest of the record. Writes `v` as `0`-filled decimal text, keeping only the leading
    /// bytes of a wider text.
    pub fn with_rest_int_truncated(self, v: i64) -> (r: Self)
        ensures
            r@ == with_field(self@, SplitUtf8RecordField::Rest, overwrite(self.field(SplitUtf8RecordField::Rest), padded_text(v as int, width_of(SplitUtf8RecordField::Rest)))),
    {
        self.with_field_int_truncated(SplitUtf8RecordField::Rest, v)
    }

    /// The rest of the record. Writes a `+` or `-` sign and `|v|` `0`-filled; a wider text keeps
    /// only its leading bytes.
    pub fn with_rest_int_signed(self, v: i64) -> (r: Self)
        ensures
            r@ == with_field(self@, SplitUtf8RecordField::Rest, overwrite(self.field(SplitUtf8RecordField::Rest), signed_padded_text(v as int, width_of(SplitUtf8RecordField::Rest)))),
    {
        self.with_field_int_signed(SplitUtf8RecordField::Rest, v)
    }

    /// The rest of the record. Writes a `+` or `-` sign and `|v|` `0`-filled, or reports
    /// `FieldOverflow` when the text is wider than the field.
    pub fn try_with_rest_int_signed(self, v: i64) -> (r: Result<Self, Error>)
        ensures
            match r {
                Ok(rec) => signed_padded_text(v as int, width_of(SplitUtf8RecordField::Rest)).len() <= width_of(SplitUtf8RecordField::Rest) && rec@ == with_field(
                    self@,
                    SplitUtf8RecordField::Rest,
                    overwrite(self.field(SplitUtf8RecordField::Rest), signed_padded_text(v as int, width_of(SplitUtf8RecordField::Rest))),
                ),
                Err(e) => signed_padded_text(v as int, width_of(SplitUtf8RecordField::Rest)).len() > width_of(SplitUtf8RecordField::Rest) && e == Error::FieldOverflow {
                    field: SplitUtf8RecordField::Rest.spec_name(),
                    size: width_of(SplitUtf8RecordField::Rest) as usize,
                    actual: signed_padded_text(v as int, width_of(SplitUtf8RecordField::Rest)).len() as usize,
                },
            },
    {
        self.try_with_field_int_signed(SplitUtf8RecordField::Rest, v)
    }

    /// The rest of the record. Writes a `+` or `-` sign and `|v|` `0`-filled, keeping only the
    /// leading bytes of a wider text.
    pub fn with_rest_int_signed_truncated(self, v: i64) -> (r: Self)
        ensures
            r@ == with_field(self@, SplitUtf8RecordField::Rest, overwrite(self.field(SplitUtf8RecordField::Rest), signed_padded_text(v as int, width_of(SplitUtf8RecordField::Rest)))),
    {
        self.with_field_int_signed_truncated(SplitUtf8RecordField::Rest, v)
    }
}

/// The fields of `SpaceClearRecord`, in declaration order.
#[derive(Clone, Copy, Debug, PartialEq, Eq, Hash)]
pub enum SpaceClearRecordField {
    /// The name.
    Name,
}

impl RecordLayout for SpaceClearRecordField {
    open spec fn spec_widths() -> Seq<usize> {
        seq![6usize]
    }

    open spec fn spec_index(self) -> int {
        match self {
            SpaceClearRecordField::Name => 0,
        }
    }

    open spec fn spec_name(self) -> &'static str {
        match self {
            SpaceClearRecordField::Name => "name",
        }
    }

    open spec fn spec_clear_byte() -> u8 {
        32
    }

    open spec fn spec_fields() -> Seq<Self> {
        seq![SpaceClearRecordField::Name]
    }

    open spec fn spec_record_name() -> &'static str {
        "SpaceClearRecord"
    }

    proof fn lemma_layout() {
        reveal_with_fuel(offset_of, 2);
        assert(total_of(Self::spec_widths()) == 6);
    }

    fn widths() -> (w: Vec<usize>) {
        let mut w = Vec::new();
        w.push(6);
        assert(w@ =~= Self::spec_widths());
        w
    }

    fn index(self) -> (i: usize) {
        match self {
            SpaceClearRecordField::Name => 0,
        }
    }

    fn all_fields() -> (v: Vec<Self>) {
        let mut v = Vec::new();
        v.push(SpaceClearRecordField::Name);
        assert(v@ =~= Self::spec_fields());
        v
    }

    fn name(self) -> (s: &'static str) {
        match self {
            SpaceClearRecordField::Name => "name",
        }
    }

    fn clear_byte() -> (b: u8) {
        32
    }

    fn record_name() -> &'static str {
        "SpaceClearRecord"
    }
}

impl SpaceClearRecordField {
    /// The declared name of this field.
    pub fn as_str(&self) -> (s: &'static str)
        ensures
            s == self.spec_name(),
    {
        self.name()
    }

    /// The declared width of this field.
    pub fn size(&self) -> (n: usize)
        ensures
            n == Self::spec_widths()[self.spec_index()],
    {
        match self {
            SpaceClearRecordField::Name => 6,
        }
    }
}

/// A one-field record cleared with spaces.
pub type SpaceClearRecord = Record<SpaceClearRecordField>;

/// A list of `SpaceClearRecord` records.
pub type SpaceClearRecordList = RecordList<SpaceClearRecordField>;

impl Record<SpaceClearRecordField> {
    /// Total byte length of the record.
    pub const TOTAL_LEN: usize = 6;

    /// The byte `set_field_*` clears a field with.
    pub const CLEAR_BYTE: u8 = 32;

    /// Width of the `name` field.
    pub const FIELD_SIZE_NAME: usize = 6;

    /// The name. The bytes of the field.
    pub fn name(&self) -> (r: &[u8])
        ensures
            r@ == self.field(SpaceClearRecordField::Name),
    {
        self.get_field_bytes(SpaceClearRecordField::Name)
    }

    /// The name. The field as a string, when it is valid UTF-8.
    pub fn name_str(&self) -> (r: Result<&str, Error>)
        ensures
            r is Ok <==> valid_utf8(self.field(SpaceClearRecordField::Name)),
            r matches Ok(s) ==> s.spec_bytes() == self.field(SpaceClearRecordField::Name),
            r matches Err(e) ==> e == Error::Utf8Error,
    {
        self.get_field_str(SpaceClearRecordField::Name)
    }

    /// The name. Copies `s` over the start of the field without clearing it first;
    /// a shorter string leaves the field's trailing bytes as they were.
    pub fn with_name(self, s: &str) -> (r: Self)
        ensures
            r@ == with_field(self@, SpaceClearRecordField::Name, overwrite(self.field(SpaceClearRecordField::Name), s.spec_bytes())),
    {
        self.with_field_str(SpaceClearRecordField::Name, s)
    }

    /// The name. Writes `v` as `0`-filled decimal text; a wider text keeps only its
    /// leading bytes.
    pub fn with_name_int(self, v: i64) -> (r: Self)
        ensures
            r@ == with_field(self@, SpaceClearRecordField::Name, overwrite(self.field(SpaceClearRecordField::Name), padded_text(v as int, width_of(SpaceClearRecordField::Name)))),
    {
        self.with_field_int(SpaceClearRecordField::Name, v)
    }

    /// The name. Writes `v` as `0`-filled decimal text, or reports `FieldOverflow`
    /// when the text is wider than the field.
    pub fn try_with_name_int(self, v: i64) -> (r: Result<Self, Error>)
        ensures
            match r {
                Ok(rec) => padded_text(v as int, width_of(SpaceClearRecordField::Name)).len() <= width_of(SpaceClearRecordField::Name) && rec@ == with_field(
                    self@,
                    SpaceClearRecordField::Name,
                    overwrite(self.field(SpaceClearRecordField::Name), padded_text(v as int, width_of(SpaceClearRecordField::Name))),
                ),
                Err(e) => padded_text(v as int, width_of(SpaceClearRecordField::Name)).len() > width_of(SpaceClearRecordField::Name) && e == Error::FieldOverflow {
                    field: SpaceClearRecordField::Name.spec_name(),
                    size: width_of(SpaceClearRecordField::Name) as usize,
                    actual: padded_text(v as int, width_of(SpaceClearRecordField::Name)).len() as usize,
                },
            },
    {
        self.try_with_field_int(SpaceClearRecordField::Name, v)
    }

    /// The name. Writes `v` as `0`-filled decimal text, keeping only the leading
    /// bytes of a wider text.
    pub fn with_name_int_truncated(self, v: i64) -> (r: Self)
        ensures
            r@ == with_field(self@, SpaceClearRecordField::Name, overwrite(self.field(SpaceClearRecordField::Name), padded_text(v as int, width_of(SpaceClearRecordField::Name)))),
    {
        self.with_field_int_truncated(SpaceClearRecordField::Name, v)
    }

    /// The name. Writes a `+` or `-` sign and `|v|` `0`-filled; a wider text keeps
    /// only its leading bytes.
    pub fn with_name_int_signed(self, v: i64) -> (r: Self)
        ensures
            r@ == with_field(self@, SpaceClearRecordField::Name, overwrite(self.field(SpaceClearRecordField::Name), signed_padded_text(v as int, width_of(SpaceClearRecordField::Name)))),
    {
        self.with_field_int_signed(SpaceClearRecordField::Name, v)
    }

    /// The name. Writes a `+` or `-` sign and `|v|` `0`-filled, or reports
    /// `FieldOverflow` when the text is wider than the field.
    pub fn try_with_name_int_signed(self, v: i64) -> (r: Result<Self, Error>)
        ensures
            match r {
                Ok(rec) => signed_padded_text(v as int, width_of(SpaceClearRecordField::Name)).len() <= width_of(SpaceClearRecordField::Name) && rec@ == with_field(
                    self@,
                    SpaceClearRecordField::Name,
                    overwrite(self.field(SpaceClearRecordField::Name), signed_padded_text(v as int, width_of(SpaceClearRecordField::Name))),
                ),
                Err(e) => signed_padded_text(v as int, width_of(SpaceClearRecordField::Name)).len() > width_of(SpaceClearRecordField::Name) && e == Error::FieldOverflow {
                    field: SpaceClearRecordField::Name.spec_name(),
                    size: width_of(SpaceClearRecordField::Name) as usize,
                    actual: signed_padded_text(v as int, width_of(SpaceClearRecordField::Name)).len() as usize,
                },
            },
    {
        self.try_with_field_int_signed(SpaceClearRecordField::Name, v)
    }

    /// The name. Writes a `+` or `-` sign and `|v|` `0`-filled, keeping only the
    /// leading bytes of a wider text.
    pub fn with_name_int_signed_truncated(self, v: i64) -> (r: Self)
        ensures
            r@ == with_field(self@, SpaceClearRecordField::Name, overwrite(self.field(SpaceClearRecordField::Name), signed_padded_text(v as int, width_of(SpaceClearRecordField::Name)))),
    {
        self.with_field_int_signed_truncated(SpaceClearRecordField::Name, v)
    }
}

/// The fields of `ZeroClearRecord`, in declaration order.
#[derive(Clone, Copy, Debug, PartialEq, Eq, Hash)]
pub enum ZeroClearRecordField {
    /// The name.
    Name,
}

impl RecordLayout for ZeroClearRecordField {
    open spec fn spec_widths() -> Seq<usize> {
        seq![6usize]
    }

    open spec fn spec_index(self) -> int {
        match self {
            ZeroClearRecordField::Name => 0,
        }
    }

    open spec fn spec_name(self) -> &'static str {
        match self {
            ZeroClearRecordField::Name => "name",
        }
    }

    open spec fn spec_clear_byte() -> u8 {
        0
    }

    open spec fn spec_fields() -> Seq<Self> {
        seq![ZeroClearRecordField::Name]
    }

    open spec fn spec_record_name() -> &'static str {
        "ZeroClearRecord"
    }

    proof fn lemma_layout() {
        reveal_with_fuel(offset_of, 2);
        assert(total_of(Self::spec_widths()) == 6);
    }

    fn widths() -> (w: Vec<usize>) {
        let mut w = Vec::new();
        w.push(6);
        assert(w@ =~= Self::spec_widths());
        w
    }

    fn index(self) -> (i: usize) {
        match self {
            ZeroClearRecordField::Name => 0,
        }
    }

    fn all_fields() -> (v: Vec<Self>) {
        let mut v = Vec::new();
        v.push(ZeroClearRecordField::Name);
        assert(v@ =~= Self::spec_fields());
        v
    }

    fn name(self) -> (s: &'static str) {
        match self {
            ZeroClearRecordField::Name => "name",
        }
    }

    fn clear_byte() -> (b: u8) {
        0
    }

    fn record_name() -> &'static str {
        "ZeroClearRecord"
    }
}

impl ZeroClearRecordField {
    /// The declared name of this field.
    pub fn as_str(&self) -> (s: &'static str)
        ensures
            s == self.spec_name(),
    {
        self.name()
    }

    /// The declared width of this field.
    pub fn size(&self) -> (n: usize)
        ensures
            n == Self::spec_widths()[self.spec_index()],
    {
        match self {
            ZeroClearRecordField::Name => 6,
        }
    }
}

/// A one-field record cleared with `0x00`, named as `ZERO`.
pub type ZeroClearRecord = Record<ZeroClearRecordField>;

/// A list of `ZeroClearRecord` records.
pub type ZeroClearRecordList = RecordList<ZeroClearRecordField>;

impl Record<ZeroClearRecordField> {
    /// Total byte length of the record.
    pub const TOTAL_LEN: usize = 6;

    /// The byte `set_field_*` clears a field with.
    pub const CLEAR_BYTE: u8 = 0;

    /// Width of the `name` field.
    pub const FIELD_SIZE_NAME: usize = 6;

    /// The name. The bytes of the field.
    pub fn name(&self) -> (r: &[u8])
        ensures
            r@ == self.field(ZeroClearRecordField::Name),
    {
        self.get_field_bytes(ZeroClearRecordField::Name)
    }

    /// The name. The field as a string, when it is valid UTF-8.
    pub fn name_str(&self) -> (r: Result<&str, Error>)
        ensures
            r is Ok <==> valid_utf8(self.field(ZeroClearRecordField::Name)),
            r matches Ok(s) ==> s.spec_bytes() == self.field(ZeroClearRecordField::Name),
            r matches Err(e) ==> e == Error::Utf8Error,
    {
        self.get_field_str(ZeroClearRecordField::Name)
    }

    /// The name. Copies `s` over the start of the field without clearing it first;
    /// a shorter string leaves the field's trailing bytes as they were.
    pub fn with_name(self, s: &str) -> (r: Self)
        ensures
            r@ == with_field(self@, ZeroClearRecordField::Name, overwrite(self.field(ZeroClearRecordField::Name), s.spec_bytes())),
    {
        self.with_field_str(ZeroClearRecordField::Name, s)
    }

    /// The name. Writes `v` as `0`-filled decimal text; a wider text keeps only its
    /// leading bytes.
    pub fn with_name_int(self, v: i64) -> (r: Self)
        ensures
            r@ == with_field(self@, ZeroClearRecordField::Name, overwrite(self.field(ZeroClearRecordField::Name), padded_text(v as int, width_of(ZeroClearRecordField::Name)))),
    {
        self.with_field_int(ZeroClearRecordField::Name, v)
    }

    /// The name. Writes `v` as `0`-filled decimal text, or reports `FieldOverflow`
    /// when the text is wider than the field.
    pub fn try_with_name_int(self, v: i64) -> (r: Result<Self, Error>)
        ensures
            match r {
                Ok(rec) => padded_text(v as int, width_of(ZeroClearRecordField::Name)).len() <= width_of(ZeroClearRecordField::Name) && rec@ == with_field(
                    self@,
                    ZeroClearRecordField::Name,
                    overwrite(self.field(ZeroClearRecordField::Name), padded_text(v as int, width_of(ZeroClearRecordField::Name))),
                ),
                Err(e) => padded_text(v as int, width_of(ZeroClearRecordField::Name)).len() > width_of(ZeroClearRecordField::Name) && e == Error::FieldOverflow {
                    field: ZeroClearRecordField::Name.spec_name(),
                    size: width_of(ZeroClearRecordField::Name) as usize,
                    actual: padded_text(v as int, width_of(ZeroClearRecordField::Name)).len() as usize,
                },
            },
    {
        self.try_with_field_int(ZeroClearRecordField::Name, v)
    }

    /// The name. Writes `v` as `0`-filled decimal text, keeping only the leading
    /// bytes of a wider text.
    pub fn with_name_int_truncated(self, v: i64) -> (r: Self)
        ensures
            r@ == with_field(self@, ZeroClearRecordField::Name, overwrite(self.field(ZeroClearRecordField::Name), padded_text(v as int, width_of(ZeroClearRecordField::Name)))),
    {
        self.with_field_int_truncated(ZeroClearRecordField::Name, v)
    }

    /// The name. Writes a `+` or `-` sign and `|v|` `0`-filled; a wider text keeps
    /// only its leading bytes.
    pub fn with_name_int_signed(self, v: i64) -> (r: Self)
        ensures
            r@ == with_field(self@, ZeroClearRecordField::Name, overwrite(self.field(ZeroClearRecordField::Name), signed_padded_text(v as int, width_of(ZeroClearRecordField::Name)))),
    {
        self.with_field_int_signed(ZeroClearRecordField::Name, v)
    }

    /// The name. Writes a `+` or `-` sign and `|v|` `0`-filled, or reports
    /// `FieldOverflow` when the text is wider than the field.
    pub fn try_with_name_int_signed(self, v: i64) -> (r: Result<Self, Error>)
        ensures
            match r {
                Ok(rec) => signed_padded_text(v as int, width_of(ZeroClearRecordField::Name)).len() <= width_of(ZeroClearRecordField::Name) && rec@ == with_field(
                    self@,
                    ZeroClearRecordField::Name,
                    overwrite(self.field(ZeroClearRecordField::Name), signed_padded_text(v as int, width_of(ZeroClearRecordField::Name))),
                ),
                Err(e) => signed_padded_text(v as int, width_of(ZeroClearRecordField::Name)).len() > width_of(ZeroClearRecordField::Name) && e == Error::FieldOverflow {
                    field: ZeroClearRecordField::Name.spec_name(),
                    size: width_of(ZeroClearRecordField::Name) as usize,
                    actual: signed_padded_text(v as int, width_of(ZeroClearRecordField::Name)).len() as usize,
                },
            },
    {
        self.try_with_field_int_signed(ZeroClearRecordField::Name, v)
    }

    /// The name. Writes a `+` or `-` sign and `|v|` `0`-filled, keeping only the
    /// leading bytes of a wider text.
    pub fn with_name_int_signed_truncated(self, v: i64) -> (r: Self)
        ensures
            r@ == with_field(self@, ZeroClearRecordField::Name, overwrite(self.field(ZeroClearRecordField::Name), signed_padded_text(v as int, width_of(ZeroClearRecordField::Name)))),
    {
        self.with_field_int_signed_truncated(ZeroClearRecordField::Name, v)
    }
}

/// The fields of `NumericZeroClearRecord`, in declaration order.
#[derive(Clone, Copy, Debug, PartialEq, Eq, Hash)]
pub enum NumericZeroClearRecordField {
    /// The name.
    Name,
}

impl RecordLayout for NumericZeroClearRecordField {
    open spec fn spec_widths() -> Seq<usize> {
        seq![6usize]
    }

    open spec fn spec_index(self) -> int {
        match self {
            NumericZeroClearRecordField::Name => 0,
        }
    }

    open spec fn spec_name(self) -> &'static str {
        match self {
            NumericZeroClearRecordField::Name => "name",
        }
    }

    open spec fn spec_clear_byte() -> u8 {
        0
    }

    open spec fn spec_fields() -> Seq<Self> {
        seq![NumericZeroClearRecordField::Name]
    }

    open spec fn spec_record_name() -> &'static str {
        "NumericZeroClearRecord"
    }

    proof fn lemma_layout() {
        reveal_with_fuel(offset_of, 2);
        assert(total_of(Self::spec_widths()) == 6);
    }

    fn widths() -> (w: Vec<usize>) {
        let mut w = Vec::new();
        w.push(6);
        assert(w@ =~= Self::spec_widths());
        w
    }

    fn index(self) -> (i: usize) {
        match self {
            NumericZeroClearRecordField::Name => 0,
        }
    }

    fn all_fields() -> (v: Vec<Self>) {
        let mut v = Vec::new();
        v.push(NumericZeroClearRecordField::Name);
        assert(v@ =~= Self::spec_fields());
        v
    }

    fn name(self) -> (s: &'static str) {
        match self {
            NumericZeroClearRecordField::Name => "name",
        }
    }

    fn clear_byte() -> (b: u8) {
        0
    }

    fn record_name() -> &'static str {
        "NumericZeroClearRecord"
    }
}

impl NumericZeroClearRecordField {
    /// The declared name of this field.
    pub fn as_str(&self) -> (s: &'static str)
        ensures
            s == self.spec_name(),
    {
        self.name()
    }

    /// The declared width of this field.
    pub fn size(&self) -> (n: usize)
        ensures
            n == Self::spec_widths()[self.spec_index()],
    {
        match self {
            NumericZeroClearRecordField::Name => 6,
        }
    }
}

/// A one-field record cleared with `0x00`, given as the number 0.
pub type NumericZeroClearRecord = Record<NumericZeroClearRecordField>;

/// A list of `NumericZeroClearRecord` records.
pub type NumericZeroClearRecordList = RecordList<NumericZeroClearRecordField>;

impl Record<NumericZeroClearRecordField> {
    /// Total byte length of the record.
    pub const TOTAL_LEN: usize = 6;

    /// The byte `set_field_*` clears a field with.
    pub const CLEAR_BYTE: u8 = 0;

    /// Width of the `name` field.
    pub const FIELD_SIZE_NAME: usize = 6;

    /// The name. The bytes of the field.
    pub fn name(&self) -> (r: &[u8])
        ensures
            r@ == self.field(NumericZeroClearRecordField::Name),
    {
        self.get_field_bytes(NumericZeroClearRecordField::Name)
    }

    /// The name. The field as a string, when it is valid UTF-8.
    pub fn name_str(&self) -> (r: Result<&str, Error>)
        ensures
            r is Ok <==> valid_utf8(self.field(NumericZeroClearRecordField::Name)),
            r matches Ok(s) ==> s.spec_bytes() == self.field(NumericZeroClearRecordField::Name),
            r matches Err(e) ==> e == Error::Utf8Error,
    {
        self.get_field_str(NumericZeroClearRecordField::Name)
    }

    /// The name. Copies `s` over the start of the field without clearing it first;
    /// a shorter string leaves the field's trailing bytes as they were.
    pub fn with_name(self, s: &str) -> (r: Self)
        ensures
            r@ == with_field(self@, NumericZeroClearRecordField::Name, overwrite(self.field(NumericZeroClearRecordField::Name), s.spec_bytes())),
    {
        self.with_field_str(NumericZeroClearRecordField::Name, s)
    }

    /// The name. Writes `v` as `0`-filled decimal text; a wider text keeps only its
    /// leading bytes.
    pub fn with_name_int(self, v: i64) -> (r: Self)
        ensures
            r@ == with_field(self@, NumericZeroClearRecordField::Name, overwrite(self.field(NumericZeroClearRecordField::Name), padded_text(v as int, width_of(NumericZeroClearRecordField::Name)))),
    {
        self.with_field_int(NumericZeroClearRecordField::Name, v)
    }

    /// The name. Writes `v` as `0`-filled decimal text, or reports `FieldOverflow`
    /// when the text is wider than the field.
    pub fn try_with_name_int(self, v: i64) -> (r: Result<Self, Error>)
        ensures
            match r {
                Ok(rec) => padded_text(v as int, width_of(NumericZeroClearRecordField::Name)).len() <= width_of(NumericZeroClearRecordField::Name) && rec@ == with_field(
                    self@,
                    NumericZeroClearRecordField::Name,
                    overwrite(self.field(NumericZeroClearRecordField::Name), padded_text(v as int, width_of(NumericZeroClearRecordField::Name))),
                ),
                Err(e) => padded_text(v as int, width_of(NumericZeroClearRecordField::Name)).len() > width_of(NumericZeroClearRecordField::Name) && e == Error::FieldOverflow {
                    field: NumericZeroClearRecordField::Name.spec_name(),
                    size: width_of(NumericZeroClearRecordField::Name) as usize,
                    actual: padded_text(v as int, width_of(NumericZeroClearRecordField::Name)).len() as usize,
                },
            },
    {
        self.try_with_field_int(NumericZeroClearRecordField::Name, v)
    }

    /// The name. Writes `v` as `0`-filled decimal text, keeping only the leading
    /// bytes of a wider text.
    pub fn with_name_int_truncated(self, v: i64) -> (r: Self)
        ensures
            r@ == with_field(self@, NumericZeroClearRecordField::Name, overwrite(self.field(NumericZeroClearRecordField::Name), padded_text(v as int, width_of(NumericZeroClearRecordField::Name)))),
    {
        self.with_field_int_truncated(NumericZeroClearRecordField::Name, v)
    }

    /// The name. Writes a `+` or `-` sign and `|v|` `0`-filled; a wider text keeps
    /// only its leading bytes.
    pub fn with_name_int_signed(self, v: i64) -> (r: Self)
        ensures
            r@ == with_field(self@, NumericZeroClearRecordField::Name, overwrite(self.field(NumericZeroClearRecordField::Name), signed_padded_text(v as int, width_of(NumericZeroClearRecordField::Name)))),
    {
        self.with_field_int_signed(NumericZeroClearRecordField::Name, v)
    }

    /// The name. Writes a `+` or `-` sign and `|v|` `0`-filled, or reports
    /// `FieldOverflow` when the text is wider than the field.
    pub fn try_with_name_int_signed(self, v: i64) -> (r: Result<Self, Error>)
        ensures
            match r {
                Ok(rec) => signed_padded_text(v as int, width_of(NumericZeroClearRecordField::Name)).len() <= width_of(NumericZeroClearRecordField::Name) && rec@ == with_field(
                    self@,
                    NumericZeroClearRecordField::Name,
                    overwrite(self.field(NumericZeroClearRecordField::Name), signed_padded_text(v as int, width_of(NumericZeroClearRecordField::Name))),
                ),
                Err(e) => signed_padded_text(v as int, width_of(NumericZeroClearRecordField::Name)).len() > width_of(NumericZeroClearRecordField::Name) && e == Error::FieldOverflow {
                    field: NumericZeroClearRecordField::Name.spec_name(),
                    size: width_of(NumericZeroClearRecordField::Name) as usize,
                    actual: signed_padded_text(v as int, width_of(NumericZeroClearRecordField::Name)).len() as usize,
                },
            },
    {
        self.try_with_field_int_signed(NumericZeroClearRecordField::Name, v)
    }

    /// The name. Writes a `+` or `-` sign and `|v|` `0`-filled, keeping only the
    /// leading bytes of a wider text.
    pub fn with_name_int_signed_truncated(self, v: i64) -> (r: Self)
        ensures
            r@ == with_field(self@, NumericZeroClearRecordField::Name, overwrite(self.field(NumericZeroClearRecordField::Name), signed_padded_text(v as int, width_of(NumericZeroClearRecordField::Name)))),
    {
        self.with_field_int_signed_truncated(NumericZeroClearRecordField::Name, v)
    }
}

/// The fields of `User`, in declaration order.
#[derive(Clone, Copy, Debug, PartialEq, Eq, Hash)]
pub enum UserField {
    /// The user's id (8 digits).
    Id,
    /// The user's name.
    Name,
    /// The user's age.
    Age,
}

impl RecordLayout for UserField {
    open spec fn spec_widths() -> Seq<usize> {
        seq![8usize, 16usize, 3usize]
    }

    open spec fn spec_index(self) -> int {
        match self {
            UserField::Id => 0,
            UserField::Name => 1,
            UserField::Age => 2,
        }
    }

    open spec fn spec_name(self) -> &'static str {
        match self {
            UserField::Id => "id",
            UserField::Name => "name",
            UserField::Age => "age",
        }
    }

    open spec fn spec_clear_byte() -> u8 {
        0
    }

    open spec fn spec_fields() -> Seq<Self> {
        seq![UserField::Id, UserField::Name, UserField::Age]
    }

    open spec fn spec_record_name() -> &'static str {
        "User"
    }

    proof fn lemma_layout() {
        reveal_with_fuel(offset_of, 4);
        assert(total_of(Self::spec_widths()) == 27);
    }

    fn widths() -> (w: Vec<usize>) {
        let mut w = Vec::new();
        w.push(8);
        w.push(16);
        w.push(3);
        assert(w@ =~= Self::spec_widths());
        w
    }

    fn index(self) -> (i: usize) {
        match self {
            UserField::Id => 0,
            UserField::Name => 1,
            UserField::Age => 2,
        }
    }

    fn all_fields() -> (v: Vec<Self>) {
        let mut v = Vec::new();
        v.push(UserField::Id);
        v.push(UserField::Name);
        v.push(UserField::Age);
        assert(v@ =~= Self::spec_fields());
        v
    }

    fn name(self) -> (s: &'static str) {
        match self {
            UserField::Id => "id",
            UserField::Name => "name",
            UserField::Age => "age",
        }
    }

    fn clear_byte() -> (b: u8) {
        0
    }

    fn record_name() -> &'static str {
        "User"
    }
}

impl UserField {
    /// The declared name of this field.
    pub fn as_str(&self) -> (s: &'static str)
        ensures
            s == self.spec_name(),
    {
        self.name()
    }

    /// The declared width of this field.
    pub fn size(&self) -> (n: usize)
        ensures
            n == Self::spec_widths()[self.spec_index()],
    {
        match self {
            UserField::Id => 8,
            UserField::Name => 16,
            UserField::Age => 3,
        }
    }
}

/// A user: an 8-byte id, a 16-byte name and a 3-byte age; fields are cleared with `0x00`.
pub type User = Record<UserField>;

/// A list of `User` records.
pub type UserList = RecordList<UserField>;

impl Record<UserField> {
    /// Total byte length of the record.
    pub const TOTAL_LEN: usize = 27;

    /// The byte `set_field_*` clears a field with.
    pub const CLEAR_BYTE: u8 = 0;

    /// Width of the `id` field.
    pub const FIELD_SIZE_ID: usize = 8;

    /// Width of the `name` field.
    pub const FIELD_SIZE_NAME: usize = 16;

    /// Width of the `age` field.
    pub const FIELD_SIZE_AGE: usize = 3;

    /// The user's id (8 digits). The bytes of the field.
    pub fn id(&self) -> (r: &[u8])
        ensures
            r@ == self.field(UserField::Id),
    {
        self.get_field_bytes(UserField::Id)
    }

    /// The user's id (8 digits). The field as a string, when it is valid UTF-8.
    pub fn id_str(&self) -> (r: Result<&str, Error>)
        ensures
            r is Ok <==> valid_utf8(self.field(UserField::Id)),
            r matches Ok(s) ==> s.spec_bytes() == self.field(UserField::Id),
            r matches Err(e) ==> e == Error::Utf8Error,
    {
        self.get_field_str(UserField::Id)
    }

    /// The user's id (8 digits). Copies `s` over the start of the field without clearing it first;
    /// a shorter string leaves the field's trailing bytes as they were.
    pub fn with_id(self, s: &str) -> (r: Self)
        ensures
            r@ == with_field(self@, UserField::Id, overwrite(self.field(UserField::Id), s.spec_bytes())),
    {
        self.with_field_str(UserField::Id, s)
    }

    /// The user's id (8 digits). Writes `v` as `0`-filled decimal text; a wider text keeps only its
    /// leading bytes.
    pub fn with_id_int(self, v: i64) -> (r: Self)
        ensures
            r@ == with_field(self@, UserField::Id, overwrite(self.field(UserField::Id), padded_text(v as int, width_of(UserField::Id)))),
    {
        self.with_field_int(UserField::Id, v)
    }

    /// The user's id (8 digits). Writes `v` as `0`-filled decimal text, or reports `FieldOverflow`
    /// when the text is wider than the field.
    pub fn try_with_id_int(self, v: i64) -> (r: Result<Self, Error>)
        ensures
            match r {
                Ok(rec) => padded_text(v as int, width_of(UserField::Id)).len() <= width_of(UserField::Id) && rec@ == with_field(
                    self@,
                    UserField::Id,
                    overwrite(self.field(UserField::Id), padded_text(v as int, width_of(UserField::Id))),
                ),
                Err(e) => padded_text(v as int, width_of(UserField::Id)).len() > width_of(UserField::Id) && e == Error::FieldOverflow {
                    field: UserField::Id.spec_name(),
                    size: width_of(UserField::Id) as usize,
                    actual: padded_text(v as int, width_of(UserField::Id)).len() as usize,
                },
            },
    {
        self.try_with_field_int(UserField::Id, v)
    }

    /// The user's id (8 digits). Writes `v` as `0`-filled decimal text, keeping only the leading
    /// bytes of a wider text.
    pub fn with_id_int_truncated(self, v: i64) -> (r: Self)
        ensures
            r@ == with_field(self@, UserField::Id, overwrite(self.field(UserField::Id), padded_text(v as int, width_of(UserField::Id)))),
    {
        self.with_field_int_truncated(UserField::Id, v)
    }

    /// The user's id (8 digits). Writes a `+` or `-` sign and `|v|` `0`-filled; a wider text keeps
    /// only its leading bytes.
    pub fn with_id_int_signed(self, v: i64) -> (r: Self)
        ensures
            r@ == with_field(self@, UserField::Id, overwrite(self.field(UserField::Id), signed_padded_text(v as int, width_of(UserField::Id)))),
    {
        self.with_field_int_signed(UserField::Id, v)
    }

    /// The user's id (8 digits). Writes a `+` or `-` sign and `|v|` `0`-filled, or reports
    /// `FieldOverflow` when the text is wider than the field.
    pub fn try_with_id_int_signed(self, v: i64) -> (r: Result<Self, Error>)
        ensures
            match r {
                Ok(rec) => signed_padded_text(v as int, width_of(UserField::Id)).len() <= width_of(UserField::Id) && rec@ == with_field(
                    self@,
                    UserField::Id,
                    overwrite(self.field(UserField::Id), signed_padded_text(v as int, width_of(UserField::Id))),
                ),
                Err(e) => signed_padded_text(v as int, width_of(UserField::Id)).len() > width_of(UserField::Id) && e == Error::FieldOverflow {
                    field: UserField::Id.spec_name(),
                    size: width_of(UserField::Id) as usize,
                    actual: signed_padded_text(v as int, width_of(UserField::Id)).len() as usize,
                },
            },
    {
        self.try_with_field_int_signed(UserField::Id, v)
    }

    /// The user's id (8 digits). Writes a `+` or `-` sign and `|v|` `0`-filled, keeping only the
    /// leading bytes of a wider text.
    pub fn with_id_int_signed_truncated(self, v: i64) -> (r: Self)
        ensures
            r@ == with_field(self@, UserField::Id, overwrite(self.field(UserField::Id), signed_padded_text(v as int, width_of(UserField::Id)))),
    {
        self.with_field_int_signed_truncated(UserField::Id, v)
    }

    /// The user's name. The bytes of the field.
    pub fn name(&self) -> (r: &[u8])
        ensures
            r@ == self.field(UserField::Name),
    {
        self.get_field_bytes(UserField::Name)
    }

    /// The user's name. The field as a string, when it is valid UTF-8.
    pub fn name_str(&self) -> (r: Result<&str, Error>)
        ensures
            r is Ok <==> valid_utf8(self.field(UserField::Name)),
            r matches Ok(s) ==> s.spec_bytes() == self.field(UserField::Name),
            r matches Err(e) ==> e == Error::Utf8Error,
    {
        self.get_field_str(UserField::Name)
    }

    /// The user's name. Copies `s` over the start of the field without clearing it first;
    /// a shorter string leaves the field's trailing bytes as they were.
    pub fn with_name(self, s: &str) -> (r: Self)
        ensures
            r@ == with_field(self@, UserField::Name, overwrite(self.field(UserField::Name), s.spec_bytes())),
    {
        self.with_field_str(UserField::Name, s)
    }

    /// The user's name. Writes `v` as `0`-filled decimal text; a wider text keeps only its
    /// leading bytes.
    pub fn with_name_int(self, v: i64) -> (r: Self)
        ensures
            r@ == with_field(self@, UserField::Name, overwrite(self.field(UserField::Name), padded_text(v as int, width_of(UserField::Name)))),
    {
        self.with_field_int(UserField::Name, v)
    }

    /// The user's name. Writes `v` as `0`-filled decimal text, or reports `FieldOverflow`
    /// when the text is wider than the field.
    pub fn try_with_name_int(self, v: i64) -> (r: Result<Self, Error>)
        ensures
            match r {
                Ok(rec) => padded_text(v as int, width_of(UserField::Name)).len() <= width_of(UserField::Name) && rec@ == with_field(
                    self@,
                    UserField::Name,
                    overwrite(self.field(UserField::Name), padded_text(v as int, width_of(UserField::Name))),
                ),
                Err(e) => padded_text(v as int, width_of(UserField::Name)).len() > width_of(UserField::Name) && e == Error::FieldOverflow {
                    field: UserField::Name.spec_name(),
                    size: width_of(UserField::Name) as usize,
                    actual: padded_text(v as int, width_of(UserField::Name)).len() as usize,
                },
            },
    {
        self.try_with_field_int(UserField::Name, v)
    }

    /// The user's name. Writes `v` as `0`-filled decimal text, keeping only the leading
    /// bytes of a wider text.
    pub fn with_name_int_truncated(self, v: i64) -> (r: Self)
        ensures
            r@ == with_field(self@, UserField::Name, overwrite(self.field(UserField::Name), padded_text(v as int, width_of(UserField::Name)))),
    {
        self.with_field_int_truncated(UserField::Name, v)
    }

    /// The user's name. Writes a `+` or `-` sign and `|v|` `0`-filled; a wider text keeps
    /// only its leading bytes.
    pub fn with_name_int_signed(self, v: i64) -> (r: Self)
        ensures
            r@ == with_field(self@, UserField::Name, overwrite(self.field(UserField::Name), signed_padded_text(v as int, width_of(UserField::Name)))),
    {
        self.with_field_int_signed(UserField::Name, v)
    }

    /// The user's name. Writes a `+` or `-` sign and `|v|` `0`-filled, or reports
    /// `FieldOverflow` when the text is wider than the field.
    pub fn try_with_name_int_signed(self, v: i64) -> (r: Result<Self, Error>)
        ensures
            match r {
                Ok(rec) => signed_padded_text(v as int, width_of(UserField::Name)).len() <= width_of(UserField::Name) && rec@ == with_field(
                    self@,
                    UserField::Name,
                    overwrite(self.field(UserField::Name), signed_padded_text(v as int, width_of(UserField::Name))),
                ),
                Err(e) => signed_padded_text(v as int, width_of(UserField::Name)).len() > width_of(UserField::Name) && e == Error::FieldOverflow {
                    field: UserField::Name.spec_name(),
                    size: width_of(UserField::Name) as usize,
                    actual: signed_padded_text(v as int, width_of(UserField::Name)).len() as usize,
                },
            },
    {
        self.try_with_field_int_signed(UserField::Name, v)
    }

    /// The user's name. Writes a `+` or `-` sign and `|v|` `0`-filled, keeping only the
    /// leading bytes of a wider text.
    pub fn with_name_int_signed_truncated(self, v: i64) -> (r: Self)
        ensures
            r@ == with_field(self@, UserField::Name, overwrite(self.field(UserField::Name), signed_padded_text(v as int, width_of(UserField::Name)))),
    {
        self.with_field_int_signed_truncated(UserField::Name, v)
    }

    /// The user's age. The bytes of the field.
    pub fn age(&self) -> (r: &[u8])
        ensures
            r@ == self.field(UserField::Age),
    {
        self.get_field_bytes(UserField::Age)
    }

    /// The user's age. The field as a string, when it is valid UTF-8.
    pub fn age_str(&self) -> (r: Result<&str, Error>)
        ensures
            r is Ok <==> valid_utf8(self.field(UserField::Age)),
            r matches Ok(s) ==> s.spec_bytes() == self.field(UserField::Age),
            r matches Err(e) ==> e == Error::Utf8Error,
    {
        self.get_field_str(UserField::Age)
    }

    /// The user's age. Copies `s` over the start of the field without clearing it first;
    /// a shorter string leaves the field's trailing bytes as they were.
    pub fn with_age(self, s: &str) -> (r: Self)
        ensures
            r@ == with_field(self@, UserField::Age, overwrite(self.field(UserField::Age), s.spec_bytes())),
    {
        self.with_field_str(UserField::Age, s)
    }

    /// The user's age. Writes `v` as `0`-filled decimal text; a wider text keeps only its
    /// leading bytes.
    pub fn with_age_int(self, v: i64) -> (r: Self)
        ensures
            r@ == with_field(self@, UserField::Age, overwrite(self.field(UserField::Age), padded_text(v as int, width_of(UserField::Age)))),
    {
        self.with_field_int(UserField::Age, v)
    }

    /// The user's age. Writes `v` as `0`-filled decimal text, or reports `FieldOverflow`
    /// when the text is wider than the field.
    pub fn try_with_age_int(self, v: i64) -> (r: Result<Self, Error>)
        ensures
            match r {
                Ok(rec) => padded_text(v as int, width_of(UserField::Age)).len() <= width_of(UserField::Age) && rec@ == with_field(
                    self@,
                    UserField::Age,
                    overwrite(self.field(UserField::Age), padded_text(v as int, width_of(UserField::Age))),
                ),
                Err(e) => padded_text(v as int, width_of(UserField::Age)).len() > width_of(UserField::Age) && e == Error::FieldOverflow {
                    field: UserField::Age.spec_name(),
                    size: width_of(UserField::Age) as usize,
                    actual: padded_text(v as int, width_of(UserField::Age)).len() as usize,
                },
            },
    {
        self.try_with_field_int(UserField::Age, v)
    }

    /// The user's age. Writes `v` as `0`-filled decimal text, keeping only the leading
    /// bytes of a wider text.
    pub fn with_age_int_truncated(self, v: i64) -> (r: Self)
        ensures
            r@ == with_field(self@, UserField::Age, overwrite(self.field(UserField::Age), padded_text(v as int, width_of(UserField::Age)))),
    {
        self.with_field_int_truncated(UserField::Age, v)
    }

    /// The user's age. Writes a `+` or `-` sign and `|v|` `0`-filled; a wider text keeps
    /// only its leading bytes.
    pub fn with_age_int_signed(self, v: i64) -> (r: Self)
        ensures
            r@ == with_field(self@, UserField::Age, overwrite(self.field(UserField::Age), signed_padded_text(v as int, width_of(UserField::Age)))),
    {
        self.with_field_int_signed(UserField::Age, v)
    }

    /// The user's age. Writes a `+` or `-` sign and `|v|` `0`-filled, or reports
    /// `FieldOverflow` when the text is wider than the field.
    pub fn try_with_age_int_signed(self, v: i64) -> (r: Result<Self, Error>)
        ensures
            match r {
                Ok(rec) => signed_padded_text(v as int, width_of(UserField::Age)).len() <= width_of(UserField::Age) && rec@ == with_field(
                    self@,
                    UserField::Age,
                    overwrite(self.field(UserField::Age), signed_padded_text(v as int, width_of(UserField::Age))),
                ),
                Err(e) => signed_padded_text(v as int, width_of(UserField::Age)).len() > width_of(UserField::Age) && e == Error::FieldOverflow {
                    field: UserField::Age.spec_name(),
                    size: width_of(UserField::Age) as usize,
                    actual: signed_padded_text(v as int, width_of(UserField::Age)).len() as usize,
                },
            },
    {
        self.try_with_field_int_signed(UserField::Age, v)
    }

    /// The user's age. Writes a `+` or `-` sign and `|v|` `0`-filled, keeping only the
    /// leading bytes of a wider text.
    pub fn with_age_int_signed_truncated(self, v: i64) -> (r: Self)
        ensures
            r@ == with_field(self@, UserField::Age, overwrite(self.field(UserField::Age), signed_padded_text(v as int, width_of(UserField::Age)))),
    {
        self.with_field_int_signed_truncated(UserField::Age, v)
    }
}

/// The fields of `QuadRecord`, in declaration order.
#[derive(Clone, Copy, Debug, PartialEq, Eq, Hash)]
pub enum QuadRecordField {
    /// The record's bytes.
    Bytes,
}

impl RecordLayout for QuadRecordField {
    open spec fn spec_widths() -> Seq<usize> {
        seq![4usize]
    }

    open spec fn spec_index(self) -> int {
        match self {
            QuadRecordField::Bytes => 0,
        }
    }

    open spec fn spec_name(self) -> &'static str {
        match self {
            QuadRecordField::Bytes => "bytes",
        }
    }

    open spec fn spec_clear_byte() -> u8 {
        32
    }

    open spec fn spec_fields() -> Seq<Self> {
        seq![QuadRecordField::Bytes]
    }

    open spec fn spec_record_name() -> &'static str {
        "QuadRecord"
    }

    proof fn lemma_layout() {
        reveal_with_fuel(offset_of, 2);
        assert(total_of(Self::spec_widths()) == 4);
    }

    fn widths() -> (w: Vec<usize>) {
        let mut w = Vec::new();
        w.push(4);
        assert(w@ =~= Self::spec_widths());
        w
    }

    fn index(self) -> (i: usize) {
        match self {
            QuadRecordField::Bytes => 0,
        }
    }

    fn all_fields() -> (v: Vec<Self>) {
        let mut v = Vec::new();
        v.push(QuadRecordField::Bytes);
        assert(v@ =~= Self::spec_fields());
        v
    }

    fn name(self) -> (s: &'static str) {
        match self {
            QuadRecordField::Bytes => "bytes",
        }
    }

    fn clear_byte() -> (b: u8) {
        32
    }

    fn record_name() -> &'static str {
        "QuadRecord"
    }
}

impl QuadRecordField {
    /// The declared name of this field.
    pub fn as_str(&self) -> (s: &'static str)
        ensures
            s == self.spec_name(),
    {
        self.name()
    }

    /// The declared width of this field.
    pub fn size(&self) -> (n: usize)
        ensures
            n == Self::spec_widths()[self.spec_index()],
    {
        match self {
            QuadRecordField::Bytes => 4,
        }
    }
}

/// A record of one 4-byte field.
pub type QuadRecord = Record<QuadRecordField>;

/// A list of `QuadRecord` records.
pub type QuadRecordList = RecordList<QuadRecordField>;

impl Record<QuadRecordField> {
    /// Total byte length of the record.
    pub const TOTAL_LEN: usize = 4;

    /// The byte `set_field_*` clears a field with.
    pub const CLEAR_BYTE: u8 = 32;

    /// Width of the `bytes` field.
    pub const FIELD_SIZE_BYTES: usize = 4;

    /// The record's bytes. The bytes of the field.
    pub fn bytes(&self) -> (r: &[u8])
        ensures
            r@ == self.field(QuadRecordField::Bytes),
    {
        self.get_field_bytes(QuadRecordField::Bytes)
    }

    /// The record's bytes. The field as a string, when it is valid UTF-8.
    pub fn bytes_str(&self) -> (r: Result<&str, Error>)
        ensures
            r is Ok <==> valid_utf8(self.field(QuadRecordField::Bytes)),
            r matches Ok(s) ==> s.spec_bytes() == self.field(QuadRecordField::Bytes),
            r matches Err(e) ==> e == Error::Utf8Error,
    {
        self.get_field_str(QuadRecordField::Bytes)
    }

    /// The record's bytes. Copies `s` over the start of the field without clearing it first;
    /// a shorter string leaves the field's trailing bytes as they were.
    pub fn with_bytes(self, s: &str) -> (r: Self)
        ensures
            r@ == with_field(self@, QuadRecordField::Bytes, overwrite(self.field(QuadRecordField::Bytes), s.spec_bytes())),
    {
        self.with_field_str(QuadRecordField::Bytes, s)
    }

    /// The record's bytes. Writes `v` as `0`-filled decimal text; a wider text keeps only its
    /// leading bytes.
    pub fn with_bytes_int(self, v: i64) -> (r: Self)
        ensures
            r@ == with_field(self@, QuadRecordField::Bytes, overwrite(self.field(QuadRecordField::Bytes), padded_text(v as int, width_of(QuadRecordField::Bytes)))),
    {
        self.with_field_int(QuadRecordField::Bytes, v)
    }

    /// The record's bytes. Writes `v` as `0`-filled decimal text, or reports `FieldOverflow`
    /// when the text is wider than the field.
    pub fn try_with_bytes_int(self, v: i64) -> (r: Result<Self, Error>)
        ensures
            match r {
                Ok(rec) => padded_text(v as int, width_of(QuadRecordField::Bytes)).len() <= width_of(QuadRecordField::Bytes) && rec@ == with_field(
                    self@,
                    QuadRecordField::Bytes,
                    overwrite(self.field(QuadRecordField::Bytes), padded_text(v as int, width_of(QuadRecordField::Bytes))),
                ),
                Err(e) => padded_text(v as int, width_of(QuadRecordField::Bytes)).len() > width_of(QuadRecordField::Bytes) && e == Error::FieldOverflow {
                    field: QuadRecordField::Bytes.spec_name(),
                    size: width_of(QuadRecordField::Bytes) as usize,
                    actual: padded_text(v as int, width_of(QuadRecordField::Bytes)).len() as usize,
                },
            },
    {
        self.try_with_field_int(QuadRecordField::Bytes, v)
    }

    /// The record's bytes. Writes `v` as `0`-filled decimal text, keeping only the leading
    /// bytes of a wider text.
    pub fn with_bytes_int_truncated(self, v: i64) -> (r: Self)
        ensures
            r@ == with_field(self@, QuadRecordField::Bytes, overwrite(self.field(QuadRecordField::Bytes), padded_text(v as int, width_of(QuadRecordField::Bytes)))),
    {
        self.with_field_int_truncated(QuadRecordField::Bytes, v)
    }

    /// The record's bytes. Writes a `+` or `-` sign and `|v|` `0`-filled; a wider text keeps
    /// only its leading bytes.
    pub fn with_bytes_int_signed(self, v: i64) -> (r: Self)
        ensures
            r@ == with_field(self@, QuadRecordField::Bytes, overwrite(self.field(QuadRecordField::Bytes), signed_padded_text(v as int, width_of(QuadRecordField::Bytes)))),
    {
        self.with_field_int_signed(QuadRecordField::Bytes, v)
    }

    /// The record's bytes. Writes a `+` or `-` sign and `|v|` `0`-filled, or reports
    /// `FieldOverflow` when the text is wider than the field.
    pub fn try_with_bytes_int_signed(self, v: i64) -> (r: Result<Self, Error>)
        ensures
            match r {
                Ok(rec) => signed_padded_text(v as int, width_of(QuadRecordField::Bytes)).len() <= width_of(QuadRecordField::Bytes) && rec@ == with_field(
                    self@,
                    QuadRecordField::Bytes,
                    overwrite(self.field(QuadRecordField::Bytes), signed_padded_text(v as int, width_of(QuadRecordField::Bytes))),
                ),
                Err(e) => signed_padded_text(v as int, width_of(QuadRecordField::Bytes)).len() > width_of(QuadRecordField::Bytes) && e == Error::FieldOverflow {
                    field: QuadRecordField::Bytes.spec_name(),
                    size: width_of(QuadRecordField::Bytes) as usize,
                    actual: signed_padded_text(v as int, width_of(QuadRecordField::Bytes)).len() as usize,
                },
            },
    {
        self.try_with_field_int_signed(QuadRecordField::Bytes, v)
    }

    /// The record's bytes. Writes a `+` or `-` sign and `|v|` `0`-filled, keeping only the
    /// leading bytes of a wider text.
    pub fn with_bytes_int_signed_truncated(self, v: i64) -> (r: Self)
        ensures
            r@ == with_field(self@, QuadRecordField::Bytes, overwrite(self.field(QuadRecordField::Bytes), signed_padded_text(v as int, width_of(QuadRecordField::Bytes)))),
    {
        self.with_field_int_signed_truncated(QuadRecordField::Bytes, v)
    }
}

/// The fields of `Customer`, in declaration order.
#[derive(Clone, Copy, Debug, PartialEq, Eq, Hash)]
pub enum CustomerField {
    /// The customer's id.
    Id,
    /// The customer's name.
    Name,
}

impl RecordLayout for CustomerField {
    open spec fn spec_widths() -> Seq<usize> {
        seq![6usize, 12usize]
    }

    open spec fn spec_index(self) -> int {
        match self {
            CustomerField::Id => 0,
            CustomerField::Name => 1,
        }
    }

    open spec fn spec_name(self) -> &'static str {
        match self {
            CustomerField::Id => "id",
            CustomerField::Name => "name",
        }
    }

    open spec fn spec_clear_byte() -> u8 {
        0
    }

    open spec fn spec_fields() -> Seq<Self> {
        seq![CustomerField::Id, CustomerField::Name]
    }

    open spec fn spec_record_name() -> &'static str {
        "Customer"
    }

    proof fn lemma_layout() {
        reveal_with_fuel(offset_of, 3);
        assert(total_of(Self::spec_widths()) == 18);
    }

    fn widths() -> (w: Vec<usize>) {
        let mut w = Vec::new();
        w.push(6);
        w.push(12);
        assert(w@ =~= Self::spec_widths());
        w
    }

    fn index(self) -> (i: usize) {
        match self {
            CustomerField::Id => 0,
            CustomerField::Name => 1,
        }
    }

    fn all_fields() -> (v: Vec<Self>) {
        let mut v = Vec::new();
        v.push(CustomerField::Id);
        v.push(CustomerField::Name);
        assert(v@ =~= Self::spec_fields());
        v
    }

    fn name(self) -> (s: &'static str) {
        match self {
            CustomerField::Id => "id",
            CustomerField::Name => "name",
        }
    }

    fn clear_byte() -> (b: u8) {
        0
    }

    fn record_name() -> &'static str {
        "Customer"
    }
}

impl CustomerField {
    /// The declared name of this field.
    pub fn as_str(&self) -> (s: &'static str)
        ensures
            s == self.spec_name(),
    {
        self.name()
    }

    /// The declared width of this field.
    pub fn size(&self) -> (n: usize)
        ensures
            n == Self::spec_widths()[self.spec_index()],
    {
        match self {
            CustomerField::Id => 6,
            CustomerField::Name => 12,
        }
    }
}

/// A customer: a 6-byte id and a 12-byte name; fields are cleared with `0x00`.
pub type Customer = Record<CustomerField>;

/// A list of `Customer` records.
pub type CustomerList = RecordList<CustomerField>;

impl Record<CustomerField> {
    /// Total byte length of the record.
    pub const TOTAL_LEN: usize = 18;

    /// The byte `set_field_*` clears a field with.
    pub const CLEAR_BYTE: u8 = 0;

    /// Width of the `id` field.
    pub const FIELD_SIZE_ID: usize = 6;

    /// Width of the `name` field.
    pub const FIELD_SIZE_NAME: usize = 12;

    /// The customer's id. The bytes of the field.
    pub fn id(&self) -> (r: &[u8])
        ensures
            r@ == self.field(CustomerField::Id),
    {
        self.get_field_bytes(CustomerField::Id)
    }

    /// The customer's id. The field as a string, when it is valid UTF-8.
    pub fn id_str(&self) -> (r: Result<&str, Error>)
        ensures
            r is Ok <==> valid_utf8(self.field(CustomerField::Id)),
            r matches Ok(s) ==> s.spec_bytes() == self.field(CustomerField::Id),
            r matches Err(e) ==> e == Error::Utf8Error,
    {
        self.get_field_str(CustomerField::Id)
    }

    /// The customer's id. Copies `s` over the start of the field without clearing it first;
    /// a shorter string leaves the field's trailing bytes as they were.
    pub fn with_id(self, s: &str) -> (r: Self)
        ensures
            r@ == with_field(self@, CustomerField::Id, overwrite(self.field(CustomerField::Id), s.spec_bytes())),
    {
        self.with_field_str(CustomerField::Id, s)
    }

    /// The customer's id. Writes `v` as `0`-filled decimal text; a wider text keeps only its
    /// leading bytes.
    pub fn with_id_int(self, v: i64) -> (r: Self)
        ensures
            r@ == with_field(self@, CustomerField::Id, overwrite(self.field(CustomerField::Id), padded_text(v as int, width_of(CustomerField::Id)))),
    {
        self.with_field_int(CustomerField::Id, v)
    }

    /// The customer's id. Writes `v` as `0`-filled decimal text, or reports `FieldOverflow`
    /// when the text is wider than the field.
    pub fn try_with_id_int(self, v: i64) -> (r: Result<Self, Error>)
        ensures
            match r {
                Ok(rec) => padded_text(v as int, width_of(CustomerField::Id)).len() <= width_of(CustomerField::Id) && rec@ == with_field(
                    self@,
                    CustomerField::Id,
                    overwrite(self.field(CustomerField::Id), padded_text(v as int, width_of(CustomerField::Id))),
                ),
                Err(e) => padded_text(v as int, width_of(CustomerField::Id)).len() > width_of(CustomerField::Id) && e == Error::FieldOverflow {
                    field: CustomerField::Id.spec_name(),
                    size: width_of(CustomerField::Id) as usize,
                    actual: padded_text(v as int, width_of(CustomerField::Id)).len() as usize,
                },
            },
    {
        self.try_with_field_int(CustomerField::Id, v)
    }

    /// The customer's id. Writes `v` as `0`-filled decimal text, keeping only the leading
    /// bytes of a wider text.
    pub fn with_id_int_truncated(self, v: i64) -> (r: Self)
        ensures
            r@ == with_field(self@, CustomerField::Id, overwrite(self.field(CustomerField::Id), padded_text(v as int, width_of(CustomerField::Id)))),
    {
        self.with_field_int_truncated(CustomerField::Id, v)
    }

    /// The customer's id. Writes a `+` or `-` sign and `|v|` `0`-filled; a wider text keeps
    /// only its leading bytes.
    pub fn with_id_int_signed(self, v: i64) -> (r: Self)
        ensures
            r@ == with_field(self@, CustomerField::Id, overwrite(self.field(CustomerField::Id), signed_padded_text(v as int, width_of(CustomerField::Id)))),
    {
        self.with_field_int_signed(CustomerField::Id, v)
    }

    /// The customer's id. Writes a `+` or `-` sign and `|v|` `0`-filled, or reports
    /// `FieldOverflow` when the text is wider than the field.
    pub fn try_with_id_int_signed(self, v: i64) -> (r: Result<Self, Error>)
        ensures
            match r {
                Ok(rec) => signed_padded_text(v as int, width_of(CustomerField::Id)).len() <= width_of(CustomerField::Id) && rec@ == with_field(
                    self@,
                    CustomerField::Id,
                    overwrite(self.field(CustomerField::Id), signed_padded_text(v as int, width_of(CustomerField::Id))),
                ),
                Err(e) => signed_padded_text(v as int, width_of(CustomerField::Id)).len() > width_of(CustomerField::Id) && e == Error::FieldOverflow {
                    field: CustomerField::Id.spec_name(),
                    size: width_of(CustomerField::Id) as usize,
                    actual: signed_padded_text(v as int, width_of(CustomerField::Id)).len() as usize,
                },
            },
    {
        self.try_with_field_int_signed(CustomerField::Id, v)
    }

    /// The customer's id. Writes a `+` or `-` sign and `|v|` `0`-filled, keeping only the
    /// leading bytes of a wider text.
    pub fn with_id_int_signed_truncated(self, v: i64) -> (r: Self)
        ensures
            r@ == with_field(self@, CustomerField::Id, overwrite(self.field(CustomerField::Id), signed_padded_text(v as int, width_of(CustomerField::Id)))),
    {
        self.with_field_int_signed_truncated(CustomerField::Id, v)
    }

    /// The customer's name. The bytes of the field.
    pub fn name(&self) -> (r: &[u8])
        ensures
            r@ == self.field(CustomerField::Name),
    {
        self.get_field_bytes(CustomerField::Name)
    }

    /// The customer's name. The field as a string, when it is valid UTF-8.
    pub fn name_str(&self) -> (r: Result<&str, Error>)
        ensures
            r is Ok <==> valid_utf8(self.field(CustomerField::Name)),
            r matches Ok(s) ==> s.spec_bytes() == self.field(CustomerField::Name),
            r matches Err(e) ==> e == Error::Utf8Error,
    {
        self.get_field_str(CustomerField::Name)
    }

    /// The customer's name. Copies `s` over the start of the field without clearing it first;
    /// a shorter string leaves the field's trailing bytes as they were.
    pub fn with_name(self, s: &str) -> (r: Self)
        ensures
            r@ == with_field(self@, CustomerField::Name, overwrite(self.field(CustomerField::Name), s.spec_bytes())),
    {
        self.with_field_str(CustomerField::Name, s)
    }

    /// The customer's name. Writes `v` as `0`-filled decimal text; a wider text keeps only its
    /// leading bytes.
    pub fn with_name_int(self, v: i64) -> (r: Self)
        ensures
            r@ == with_field(self@, CustomerField::Name, overwrite(self.field(CustomerField::Name), padded_text(v as int, width_of(CustomerField::Name)))),
    {
        self.with_field_int(CustomerField::Name, v)
    }

    /// The customer's name. Writes `v` as `0`-filled decimal text, or reports `FieldOverflow`
    /// when the text is wider than the field.
    pub fn try_with_name_int(self, v: i64) -> (r: Result<Self, Error>)
        ensures
            match r {
                Ok(rec) => padded_text(v as int, width_of(CustomerField::Name)).len() <= width_of(CustomerField::Name) && rec@ == with_field(
                    self@,
                    CustomerField::Name,
                    overwrite(self.field(CustomerField::Name), padded_text(v as int, width_of(CustomerField::Name))),
                ),
                Err(e) => padded_text(v as int, width_of(CustomerField::Name)).len() > width_of(CustomerField::Name) && e == Error::FieldOverflow {
                    field: CustomerField::Name.spec_name(),
                    size: width_of(CustomerField::Name) as usize,
                    actual: padded_text(v as int, width_of(CustomerField::Name)).len() as usize,
                },
            },
    {
        self.try_with_field_int(CustomerField::Name, v)
    }

    /// The customer's name. Writes `v` as `0`-filled decimal text, keeping only the leading
    /// bytes of a wider text.
    pub fn with_name_int_truncated(self, v: i64) -> (r: Self)
        ensures
            r@ == with_field(self@, CustomerField::Name, overwrite(self.field(CustomerField::Name), padded_text(v as int, width_of(CustomerField::Name)))),
    {
        self.with_field_int_truncated(CustomerField::Name, v)
    }

    /// The customer's name. Writes a `+` or `-` sign and `|v|` `0`-filled; a wider text keeps
    /// only its leading bytes.
    pub fn with_name_int_signed(self, v: i64) -> (r: Self)
        ensures
            r@ == with_field(self@, CustomerField::Name, overwrite(self.field(CustomerField::Name), signed_padded_text(v as int, width_of(CustomerField::Name)))),
    {
        self.with_field_int_signed(CustomerField::Name, v)
    }

    /// The customer's name. Writes a `+` or `-` sign and `|v|` `0`-filled, or reports
    /// `FieldOverflow` when the text is wider than the field.
    pub fn try_with_name_int_signed(self, v: i64) -> (r: Result<Self, Error>)
        ensures
            match r {
                Ok(rec) => signed_padded_text(v as int, width_of(CustomerField::Name)).len() <= width_of(CustomerField::Name) && rec@ == with_field(
                    self@,
                    CustomerField::Name,
                    overwrite(self.field(CustomerField::Name), signed_padded_text(v as int, width_of(CustomerField::Name))),
                ),
                Err(e) => signed_padded_text(v as int, width_of(CustomerField::Name)).len() > width_of(CustomerField::Name) && e == Error::FieldOverflow {
                    field: CustomerField::Name.spec_name(),
                    size: width_of(CustomerField::Name) as usize,
                    actual: signed_padded_text(v as int, width_of(CustomerField::Name)).len() as usize,
                },
            },
    {
        self.try_with_field_int_signed(CustomerField::Name, v)
    }

    /// The customer's name. Writes a `+` or `-` sign and `|v|` `0`-filled, keeping only the
    /// leading bytes of a wider text.
    pub fn with_name_int_signed_truncated(self, v: i64) -> (r: Self)
        ensures
            r@ == with_field(self@, CustomerField::Name, overwrite(self.field(CustomerField::Name), signed_padded_text(v as int, width_of(CustomerField::Name)))),
    {
        self.with_field_int_signed_truncated(CustomerField::Name, v)
    }
}

/// The bytes of any fixed record, reached through the `FixedRecord` trait
/// alone.
pub fn bytes_from_generated_trait<T: FixedRecord>(record: &T) -> (r: Vec<u8>)
    ensures
        r@ == record.spec_bytes(),
{
    record.to_bytes()
}

} // verus!
