use samase_plugin::{ComplexLineParamType, DebugUiColor, FfiStr, FuncId, VarId, VERSION};

#[test]
fn ffi_str_from_bytes_copies() {
    let s = FfiStr::from_bytes(&[1, 2, 3]);
    assert_eq!(s.len, 3);
    assert_eq!(s.to_bytes(), &vec![1u8, 2, 3]);
}

#[test]
fn ffi_str_from_str_uses_utf8_bytes() {
    let s = FfiStr::from_str("abc");
    assert_eq!(s.len, 3);
    assert_eq!(s.to_bytes().as_slice(), b"abc");
    let empty = FfiStr::from_str("");
    assert_eq!(empty.len, 0);
}

#[test]
fn debug_ui_color_encodings() {
    assert_eq!(DebugUiColor::none().0, 0);
    assert_eq!(DebugUiColor::rgb(0x123456).0, 0x0112_3456);
    assert_eq!(DebugUiColor::player(3).0, 0x0200_0003);
}

#[test]
fn plugin_api_inventory() {
    assert_eq!(VERSION, 43);
    assert!(FuncId::UnitCanRally != FuncId::_Last);
    assert!(VarId::Game != VarId::RngSeed);
    assert!(ComplexLineParamType::Unit != ComplexLineParamType::PlayerId);
}
