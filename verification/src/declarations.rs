use vstd::prelude::*;

use crate::layout::{offset_of, RecordLayout};
use crate::record::{record_len, start_of, width_of, Record};
use crate::records::{
    TestRecordField, NulClearTestRecordField, SplitUtf8RecordField, SpaceClearRecordField, ZeroClearRecordField, NumericZeroClearRecordField, UserField, QuadRecordField, CustomerField,
};

verus! {

/// The end of the first `i` declared fields: where field `i` starts.
pub open spec fn declared_offset(decl: Seq<(Seq<char>, nat)>, i: int) -> int
    decreases i,
{
    if i <= 0 {
        0
    } else {
        declared_offset(decl, i - 1) + decl[i - 1].1
    }
}

/// The layout of `F` is the one its declaration gives: the declared fields,
/// each a name and the `N` of its `Fixed<N>`, in declaration order, and the
/// byte fields are cleared with. Field `i` of the field enum is declared
/// field `i`: it has that name and width, and starts where the fields
/// declared before it end; the record is as long as all of them together.
pub open spec fn follows_declaration<F: RecordLayout>(decl: Seq<(Seq<char>, nat)>, clear: u8) -> bool {
    &&& F::spec_fields().len() == decl.len()
    &&& forall|i: int|
        0 <= i < decl.len() ==> {
            &&& (#[trigger] F::spec_fields()[i]).spec_name()@ == decl[i].0
            &&& width_of(F::spec_fields()[i]) == decl[i].1
            &&& start_of(F::spec_fields()[i]) == declared_offset(decl, i)
            &&& F::spec_fields()[i].spec_index() == i
        }
    &&& forall|f: F| #[trigger] f.spec_index() < decl.len() && F::spec_fields()[f.spec_index()] == f
    &&& record_len::<F>() == declared_offset(decl, decl.len() as int)
    &&& F::spec_clear_byte() == clear
}

/// `TestRecord` is laid out as its declaration says:
/// `#[fixed_record] struct TestRecord { name: Fixed<10>, code: Fixed<5>, amount: Fixed<8> }`, cleared with `32`;
/// its constants agree with that layout, and it carries the declared name.
pub proof fn law_test_record_follows_declaration()
    ensures
        follows_declaration::<TestRecordField>(seq![("name"@, 10nat), ("code"@, 5nat), ("amount"@, 8nat)], 32u8),
        TestRecordField::spec_record_name()@ == "TestRecord"@,
        Record::<TestRecordField>::TOTAL_LEN == record_len::<TestRecordField>(),
        Record::<TestRecordField>::CLEAR_BYTE == TestRecordField::spec_clear_byte(),
        Record::<TestRecordField>::FIELD_SIZE_NAME == width_of(TestRecordField::Name),
        start_of(TestRecordField::Name) == 0,
        Record::<TestRecordField>::FIELD_SIZE_CODE == width_of(TestRecordField::Code),
        start_of(TestRecordField::Code) == 10,
        Record::<TestRecordField>::FIELD_SIZE_AMOUNT == width_of(TestRecordField::Amount),
        start_of(TestRecordField::Amount) == 15,
{
    TestRecordField::lemma_layout();
    reveal_with_fuel(offset_of, 4);
    reveal_with_fuel(declared_offset, 4);
    let decl = seq![("name"@, 10nat), ("code"@, 5nat), ("amount"@, 8nat)];
    assert forall|f: TestRecordField| #[trigger] f.spec_index() < decl.len() && TestRecordField::spec_fields()[f.spec_index()] == f by {
        match f {
            TestRecordField::Name => {},
            TestRecordField::Code => {},
            TestRecordField::Amount => {},
        }
    }
}

/// `NulClearTestRecord` is laid out as its declaration says:
/// `#[fixed_record_main] struct TestRecord { name: Fixed<10>, code: Fixed<5>, amount: Fixed<8> }`, cleared with `0`;
/// its constants agree with that layout, and it carries the declared name.
pub proof fn law_nul_clear_test_record_follows_declaration()
    ensures
        follows_declaration::<NulClearTestRecordField>(seq![("name"@, 10nat), ("code"@, 5nat), ("amount"@, 8nat)], 0u8),
        NulClearTestRecordField::spec_record_name()@ == "TestRecord"@,
        Record::<NulClearTestRecordField>::TOTAL_LEN == record_len::<NulClearTestRecordField>(),
        Record::<NulClearTestRecordField>::CLEAR_BYTE == NulClearTestRecordField::spec_clear_byte(),
        Record::<NulClearTestRecordField>::FIELD_SIZE_NAME == width_of(NulClearTestRecordField::Name),
        start_of(NulClearTestRecordField::Name) == 0,
        Record::<NulClearTestRecordField>::FIELD_SIZE_CODE == width_of(NulClearTestRecordField::Code),
        start_of(NulClearTestRecordField::Code) == 10,
        Record::<NulClearTestRecordField>::FIELD_SIZE_AMOUNT == width_of(NulClearTestRecordField::Amount),
        start_of(NulClearTestRecordField::Amount) == 15,
{
    NulClearTestRecordField::lemma_layout();
    reveal_with_fuel(offset_of, 4);
    reveal_with_fuel(declared_offset, 4);
    let decl = seq![("name"@, 10nat), ("code"@, 5nat), ("amount"@, 8nat)];
    assert forall|f: NulClearTestRecordField| #[trigger] f.spec_index() < decl.len() && NulClearTestRecordField::spec_fields()[f.spec_index()] == f by {
        match f {
            NulClearTestRecordField::Name => {},
            NulClearTestRecordField::Code => {},
            NulClearTestRecordField::Amount => {},
        }
    }
}

/// `SplitUtf8Record` is laid out as its declaration says:
/// `#[fixed_record] struct SplitUtf8Record { name: Fixed<8>, rest: Fixed<2> }`, cleared with `32`;
/// its constants agree with that layout, and it carries the declared name.
pub proof fn law_split_utf8_record_follows_declaration()
    ensures
        follows_declaration::<SplitUtf8RecordField>(seq![("name"@, 8nat), ("rest"@, 2nat)], 32u8),
        SplitUtf8RecordField::spec_record_name()@ == "SplitUtf8Record"@,
        Record::<SplitUtf8RecordField>::TOTAL_LEN == record_len::<SplitUtf8RecordField>(),
        Record::<SplitUtf8RecordField>::CLEAR_BYTE == SplitUtf8RecordField::spec_clear_byte(),
        Record::<SplitUtf8RecordField>::FIELD_SIZE_NAME == width_of(SplitUtf8RecordField::Name),
        start_of(SplitUtf8RecordField::Name) == 0,
        Record::<SplitUtf8RecordField>::FIELD_SIZE_REST == width_of(SplitUtf8RecordField::Rest),
        start_of(SplitUtf8RecordField::Rest) == 8,
{
    SplitUtf8RecordField::lemma_layout();
    reveal_with_fuel(offset_of, 3);
    reveal_with_fuel(declared_offset, 3);
    let decl = seq![("name"@, 8nat), ("rest"@, 2nat)];
    assert forall|f: SplitUtf8RecordField| #[trigger] f.spec_index() < decl.len() && SplitUtf8RecordField::spec_fields()[f.spec_index()] == f by {
        match f {
            SplitUtf8RecordField::Name => {},
            SplitUtf8RecordField::Rest => {},
        }
    }
}

/// `SpaceClearRecord` is laid out as its declaration says:
/// `#[fixed_record(clear_byte = SPACE)] struct SpaceClearRecord { name: Fixed<6> }`, cleared with `32`;
/// its constants agree with that layout, and it carries the declared name.
pub proof fn law_space_clear_record_follows_declaration()
    ensures
        follows_declaration::<SpaceClearRecordField>(seq![("name"@, 6nat)], 32u8),
        SpaceClearRecordField::spec_record_name()@ == "SpaceClearRecord"@,
        Record::<SpaceClearRecordField>::TOTAL_LEN == record_len::<SpaceClearRecordField>(),
        Record::<SpaceClearRecordField>::CLEAR_BYTE == SpaceClearRecordField::spec_clear_byte(),
        Record::<SpaceClearRecordField>::FIELD_SIZE_NAME == width_of(SpaceClearRecordField::Name),
        start_of(SpaceClearRecordField::Name) == 0,
{
    SpaceClearRecordField::lemma_layout();
    reveal_with_fuel(offset_of, 2);
    reveal_with_fuel(declared_offset, 2);
    let decl = seq![("name"@, 6nat)];
    assert forall|f: SpaceClearRecordField| #[trigger] f.spec_index() < decl.len() && SpaceClearRecordField::spec_fields()[f.spec_index()] == f by {
        match f {
            SpaceClearRecordField::Name => {},
        }
    }
}

/// `ZeroClearRecord` is laid out as its declaration says:
/// `#[fixed_record(clear_byte = ZERO)] struct ZeroClearRecord { name: Fixed<6> }`, cleared with `0`;
/// its constants agree with that layout, and it carries the declared name.
pub proof fn law_zero_clear_record_follows_declaration()
    ensures
        follows_declaration::<ZeroClearRecordField>(seq![("name"@, 6nat)], 0u8),
        ZeroClearRecordField::spec_record_name()@ == "ZeroClearRecord"@,
        Record::<ZeroClearRecordField>::TOTAL_LEN == record_len::<ZeroClearRecordField>(),
        Record::<ZeroClearRecordField>::CLEAR_BYTE == ZeroClearRecordField::spec_clear_byte(),
        Record::<ZeroClearRecordField>::FIELD_SIZE_NAME == width_of(ZeroClearRecordField::Name),
        start_of(ZeroClearRecordField::Name) == 0,
{
    ZeroClearRecordField::lemma_layout();
    reveal_with_fuel(offset_of, 2);
    reveal_with_fuel(declared_offset, 2);
    let decl = seq![("name"@, 6nat)];
    assert forall|f: ZeroClearRecordField| #[trigger] f.spec_index() < decl.len() && ZeroClearRecordField::spec_fields()[f.spec_index()] == f by {
        match f {
            ZeroClearRecordField::Name => {},
        }
    }
}

/// `NumericZeroClearRecord` is laid out as its declaration says:
/// `#[fixed_record(clear_byte = 0)] struct NumericZeroClearRecord { name: Fixed<6> }`, cleared with `0`;
/// its constants agree with that layout, and it carries the declared name.
pub proof fn law_numeric_zero_clear_record_follows_declaration()
    ensures
        follows_declaration::<NumericZeroClearRecordField>(seq![("name"@, 6nat)], 0u8),
        NumericZeroClearRecordField::spec_record_name()@ == "NumericZeroClearRecord"@,
        Record::<NumericZeroClearRecordField>::TOTAL_LEN == record_len::<NumericZeroClearRecordField>(),
        Record::<NumericZeroClearRecordField>::CLEAR_BYTE == NumericZeroClearRecordField::spec_clear_byte(),
        Record::<NumericZeroClearRecordField>::FIELD_SIZE_NAME == width_of(NumericZeroClearRecordField::Name),
        start_of(NumericZeroClearRecordField::Name) == 0,
{
    NumericZeroClearRecordField::lemma_layout();
    reveal_with_fuel(offset_of, 2);
    reveal_with_fuel(declared_offset, 2);
    let decl = seq![("name"@, 6nat)];
    assert forall|f: NumericZeroClearRecordField| #[trigger] f.spec_index() < decl.len() && NumericZeroClearRecordField::spec_fields()[f.spec_index()] == f by {
        match f {
            NumericZeroClearRecordField::Name => {},
        }
    }
}

/// `User` is laid out as its declaration says:
/// `#[fixed_record_main] struct User { id: Fixed<8>, name: Fixed<16>, age: Fixed<3> }`, cleared with `0`;
/// its constants agree with that layout, and it carries the declared name.
pub proof fn law_user_follows_declaration()
    ensures
        follows_declaration::<UserField>(seq![("id"@, 8nat), ("name"@, 16nat), ("age"@, 3nat)], 0u8),
        UserField::spec_record_name()@ == "User"@,
        Record::<UserField>::TOTAL_LEN == record_len::<UserField>(),
        Record::<UserField>::CLEAR_BYTE == UserField::spec_clear_byte(),
        Record::<UserField>::FIELD_SIZE_ID == width_of(UserField::Id),
        start_of(UserField::Id) == 0,
        Record::<UserField>::FIELD_SIZE_NAME == width_of(UserField::Name),
        start_of(UserField::Name) == 8,
        Record::<UserField>::FIELD_SIZE_AGE == width_of(UserField::Age),
        start_of(UserField::Age) == 24,
{
    UserField::lemma_layout();
    reveal_with_fuel(offset_of, 4);
    reveal_with_fuel(declared_offset, 4);
    let decl = seq![("id"@, 8nat), ("name"@, 16nat), ("age"@, 3nat)];
    assert forall|f: UserField| #[trigger] f.spec_index() < decl.len() && UserField::spec_fields()[f.spec_index()] == f by {
        match f {
            UserField::Id => {},
            UserField::Name => {},
            UserField::Age => {},
        }
    }
}

/// `QuadRecord` is laid out as its declaration says:
/// one field `bytes: Fixed<4>` (the record the reader is tested with), cleared with `32`;
/// its constants agree with that layout, and it carries the declared name.
pub proof fn law_quad_record_follows_declaration()
    ensures
        follows_declaration::<QuadRecordField>(seq![("bytes"@, 4nat)], 32u8),
        QuadRecordField::spec_record_name()@ == "QuadRecord"@,
        Record::<QuadRecordField>::TOTAL_LEN == record_len::<QuadRecordField>(),
        Record::<QuadRecordField>::CLEAR_BYTE == QuadRecordField::spec_clear_byte(),
        Record::<QuadRecordField>::FIELD_SIZE_BYTES == width_of(QuadRecordField::Bytes),
        start_of(QuadRecordField::Bytes) == 0,
{
    QuadRecordField::lemma_layout();
    reveal_with_fuel(offset_of, 2);
    reveal_with_fuel(declared_offset, 2);
    let decl = seq![("bytes"@, 4nat)];
    assert forall|f: QuadRecordField| #[trigger] f.spec_index() < decl.len() && QuadRecordField::spec_fields()[f.spec_index()] == f by {
        match f {
            QuadRecordField::Bytes => {},
        }
    }
}

/// `Customer` is laid out as its declaration says:
/// `#[fixed_record_main] struct Customer { id: Fixed<6>, name: Fixed<12> }`, cleared with `0`;
/// its constants agree with that layout, and it carries the declared name.
pub proof fn law_customer_follows_declaration()
    ensures
        follows_declaration::<CustomerField>(seq![("id"@, 6nat), ("name"@, 12nat)], 0u8),
        CustomerField::spec_record_name()@ == "Customer"@,
        Record::<CustomerField>::TOTAL_LEN == record_len::<CustomerField>(),
        Record::<CustomerField>::CLEAR_BYTE == CustomerField::spec_clear_byte(),
        Record::<CustomerField>::FIELD_SIZE_ID == width_of(CustomerField::Id),
        start_of(CustomerField::Id) == 0,
        Record::<CustomerField>::FIELD_SIZE_NAME == width_of(CustomerField::Name),
        start_of(CustomerField::Name) == 6,
{
    CustomerField::lemma_layout();
    reveal_with_fuel(offset_of, 3);
    reveal_with_fuel(declared_offset, 3);
    let decl = seq![("id"@, 6nat), ("name"@, 12nat)];
    assert forall|f: CustomerField| #[trigger] f.spec_index() < decl.len() && CustomerField::spec_fields()[f.spec_index()] == f by {
        match f {
            CustomerField::Id => {},
            CustomerField::Name => {},
        }
    }
}

} // verus!
