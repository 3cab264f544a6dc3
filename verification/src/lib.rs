pub mod fx_map;
pub mod il2cpp_class;
pub mod il2cpp_object;
pub mod recompiler;
pub mod vm;
