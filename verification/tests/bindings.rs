use msiviewer::bindings::{ColInfo, DBError, DbFlags, Property, PropertyType, ResultError};

#[test]
fn codes_have_native_values() {
    assert_eq!(ResultError::success(), ResultError(0));
    assert_eq!(ResultError::continue_(), ResultError(11));
    assert_eq!(ResultError::invalid_datatype(), ResultError(18));
    assert_eq!(PropertyType::int_(), PropertyType(1));
    assert_eq!(PropertyType::filetime(), PropertyType(3));
    assert_eq!(ColInfo::names(), ColInfo(0));
    assert_eq!(ColInfo::types(), ColInfo(1));
    assert_eq!(DBError::badlocalizeattrib(), DBError(32));
    assert_eq!(Property::security(), Property(19));
    assert_eq!(DbFlags::readonly(), DbFlags(1));
    assert_eq!(DbFlags::create(), DbFlags(2));
    assert_eq!(DbFlags::transact(), DbFlags(4));
    assert_eq!(DbFlags::patch(), DbFlags(8));
}

#[test]
fn flags_combine_and_mask() {
    let both = DbFlags::readonly() | DbFlags::patch();
    assert_eq!(both, DbFlags(9));
    assert_eq!(both & DbFlags::patch(), DbFlags::patch());
    assert_eq!(both & DbFlags::create(), DbFlags(0));
    assert_eq!(DbFlags::create() | DbFlags::readonly(), DbFlags::readonly() | DbFlags::create());
    assert_eq!(DbFlags::create() | DbFlags::create(), DbFlags::create());
}

#[test]
fn flags_assign_forms_agree_with_operators() {
    let mut f = DbFlags::readonly();
    f |= DbFlags::transact();
    assert_eq!(f, DbFlags(5));
    f &= DbFlags::transact();
    assert_eq!(f, DbFlags::transact());
}
