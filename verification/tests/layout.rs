use native::il2cpp_class::{Il2CppType, Il2CppTypeEnum};
use native::il2cpp_object::Il2CppObject;

#[test]
fn il2cpp_class_assert_sizes() {
    assert_eq!(std::mem::size_of::<Il2CppType>(), 0x10);
}

#[test]
fn il2cpp_object_assert_sizes() {
    assert_eq!(16, std::mem::size_of::<Il2CppObject>());
}

#[test]
fn type_bitfield_getters() {
    let t = Il2CppType { data: 0, bitfield: 0xC523_4567 };
    assert_eq!(t.get_attrs(), 0x4567);
    assert_eq!(t.get_type(), 0x23);
    assert_eq!(t.get_num_mods(), 0x05);
    assert!(t.get_byref());
    assert!(t.get_pinned());
    let u = Il2CppType { data: 0, bitfield: 0x0012_0001 };
    assert_eq!(u.get_attrs(), 0x0001);
    assert_eq!(u.get_type(), 0x12);
    assert_eq!(u.get_num_mods(), 0);
    assert!(!u.get_byref());
    assert!(!u.get_pinned());
}

#[test]
fn type_enum_codes() {
    assert_eq!(Il2CppTypeEnum::END.code(), 0x00);
    assert_eq!(Il2CppTypeEnum::TYPEDBYREF.code(), 0x16);
    assert_eq!(Il2CppTypeEnum::I.code(), 0x18);
    assert_eq!(Il2CppTypeEnum::SZARRAY.code(), 0x1d);
    assert_eq!(Il2CppTypeEnum::MODIFIER.code(), 0x40);
    assert_eq!(Il2CppTypeEnum::PINNED.code(), 0x45);
    assert_eq!(Il2CppTypeEnum::ENUM.code(), 0x55);
}

#[test]
fn object_default_has_no_class() {
    let o = Il2CppObject::default();
    assert_eq!(std::mem::size_of_val(&o), 16);
}
