use vstd::prelude::*;

use object::write::{Object, Symbol, SymbolSection};
use object::{
    Architecture, BinaryFormat, Endianness, SectionKind, SymbolFlags, SymbolKind, SymbolScope,
};

verus! {

#[verifier::external_type_specification]
pub struct ExArchitecture(Architecture);

#[verifier::external_type_specification]
pub struct ExBinaryFormat(BinaryFormat);

#[verifier::external_type_specification]
pub struct ExEndianness(Endianness);

#[verifier::external_type_specification]
pub struct ExSectionKind(SectionKind);

#[verifier::external_type_specification]
pub struct ExSymbolKind(SymbolKind);

#[verifier::external_type_specification]
pub struct ExSymbolScope(SymbolScope);

#[verifier::external_type_specification]
#[verifier::external_body]
pub struct ExWriteError(object::write::Error);

/// The bytes of an ELF64 little-endian AArch64 relocatable object whose one
/// section, named `section` and aligned to `align`, holds `text`, and whose one
/// symbol `symbol` has value `value` and size `size` in that section.
pub uninterp spec fn elf_image(
    text: Seq<u8>,
    section: Seq<u8>,
    align: u64,
    symbol: Seq<u8>,
    value: u64,
    size: u64,
) -> Seq<u8>;

/// Why an object file could not be produced.
#[derive(Debug, Clone, Copy, PartialEq, Eq, Structural)]
pub enum ObjectError {
    /// The object writer refused the contents.
    WriteFailed,
}

/// Relies on `object::write::Object`: `new`, `add_section`,
/// `append_section_data`, `add_symbol` and `write` build and serialise an
/// object of one section and one symbol bound to it. The output depends on the
/// arguments alone. `write` fails only on COMDATs, relocations, an unknown
/// symbol kind or an unsupported architecture, none of which occurs here, and
/// its string table panics on a name that holds a 0 byte, which `requires`
/// rules out.
#[verifier::external_body]
fn write_object(
    format: BinaryFormat,
    arch: Architecture,
    endian: Endianness,
    section: &[u8],
    kind: SectionKind,
    text: &[u8],
    align: u64,
    symbol: &[u8],
    value: u64,
    size: u64,
    sym_kind: SymbolKind,
    scope: SymbolScope,
    weak: bool,
) -> (r: Result<Vec<u8>, object::write::Error>)
    requires
        format == BinaryFormat::Elf,
        arch == Architecture::Aarch64,
        endian == Endianness::Little,
        kind == SectionKind::Text,
        align == 4,
        sym_kind == SymbolKind::Text,
        scope == SymbolScope::Linkage,
        !weak,
        !section@.contains(0u8),
        !symbol@.contains(0u8),
    ensures
        r is Ok,
        r->Ok_0@ == elf_image(text@, section@, align, symbol@, value, size),
{
    let mut obj = Object::new(format, arch, endian);
    let id = obj.add_section(Vec::new(), section.to_vec(), kind);
    obj.append_section_data(id, text, align);
    let section = SymbolSection::Section(id);
    let flags = SymbolFlags::None;
    obj.add_symbol(Symbol { name: symbol.to_vec(), value, size, kind: sym_kind, scope, weak, section, flags });
    obj.write()
}

/// The name of the code section, `.text`.
pub open spec fn text_name() -> Seq<u8> {
    seq![0x2Eu8, 0x74u8, 0x65u8, 0x78u8, 0x74u8]
}

/// The name of the entry symbol, `_start`.
pub open spec fn start_name() -> Seq<u8> {
    seq![0x5Fu8, 0x73u8, 0x74u8, 0x61u8, 0x72u8, 0x74u8]
}

/// Builds the relocatable object file: ELF64, little-endian, AArch64, with a
/// `.text` section (kind text, alignment 4) holding `code` and the global,
/// non-weak text symbol `_start` of value 0 and size 0 bound to it.
pub fn object_file(code: &Vec<u8>) -> (r: Result<Vec<u8>, ObjectError>)
    ensures
        r is Ok,
        r->Ok_0@ == elf_image(code@, text_name(), 4, start_name(), 0, 0),
{
    let section: Vec<u8> = vec![0x2Eu8, 0x74u8, 0x65u8, 0x78u8, 0x74u8];
    let symbol: Vec<u8> = vec![0x5Fu8, 0x73u8, 0x74u8, 0x61u8, 0x72u8, 0x74u8];
    assert(!section@.contains(0u8)) by {
        assert(forall|i: int| 0 <= i < section@.len() ==> section@[i] != 0u8);
    }
    assert(!symbol@.contains(0u8)) by {
        assert(forall|i: int| 0 <= i < symbol@.len() ==> symbol@[i] != 0u8);
    }
    match write_object(
        BinaryFormat::Elf,
        Architecture::Aarch64,
        Endianness::Little,
        section.as_slice(),
        SectionKind::Text,
        code.as_slice(),
        4,
        symbol.as_slice(),
        0,
        0,
        SymbolKind::Text,
        SymbolScope::Linkage,
        false,
    ) {
        Ok(bytes) => Ok(bytes),
        Err(_) => Err(ObjectError::WriteFailed),
    }
}

} // verus!
