use cthulhu::data::DataType;

#[test]
fn data_type_variants_compare_by_variant() {
    assert_eq!(DataType::String, DataType::String);
    assert_ne!(DataType::F32, DataType::F64);
    assert_ne!(DataType::UInt, DataType::IInt);
    let copy = DataType::Null;
    assert_eq!(copy, DataType::Null);
}
