//! Type identifiers, proxies and function signatures shared with plugins.
use vstd::prelude::*;

verus! {

/// The primitive item types, and `Opaque` for the types a plugin defines.
#[derive(Clone, Copy, Debug, PartialEq, Eq, Structural)]
pub enum OrcPrimitiveTypeId {
    U8,
    U16,
    U32,
    U64,
    F32,
    F64,
    I8,
    I16,
    I32,
    I64,
    Opaque,
}

/// The ABI code of each primitive type.
pub open spec fn primitive_code(p: OrcPrimitiveTypeId) -> u32 {
    match p {
        OrcPrimitiveTypeId::U8 => 0x01,
        OrcPrimitiveTypeId::U16 => 0x02,
        OrcPrimitiveTypeId::U32 => 0x03,
        OrcPrimitiveTypeId::U64 => 0x04,
        OrcPrimitiveTypeId::F32 => 0x05,
        OrcPrimitiveTypeId::F64 => 0x06,
        OrcPrimitiveTypeId::I8 => 0x11,
        OrcPrimitiveTypeId::I16 => 0x12,
        OrcPrimitiveTypeId::I32 => 0x13,
        OrcPrimitiveTypeId::I64 => 0x14,
        OrcPrimitiveTypeId::Opaque => u32::MAX,
    }
}

impl OrcPrimitiveTypeId {
    /// The ABI code of this type: unsigned integers count up from 0x01,
    /// floats follow, signed integers count up from 0x11, and opaque types
    /// take the largest code.
    pub fn code(&self) -> (r: u32)
        ensures
            r == primitive_code(*self),
    {
        match self {
            OrcPrimitiveTypeId::U8 => 0x01,
            OrcPrimitiveTypeId::U16 => 0x02,
            OrcPrimitiveTypeId::U32 => 0x03,
            OrcPrimitiveTypeId::U64 => 0x04,
            OrcPrimitiveTypeId::F32 => 0x05,
            OrcPrimitiveTypeId::F64 => 0x06,
            OrcPrimitiveTypeId::I8 => 0x11,
            OrcPrimitiveTypeId::I16 => 0x12,
            OrcPrimitiveTypeId::I32 => 0x13,
            OrcPrimitiveTypeId::I64 => 0x14,
            OrcPrimitiveTypeId::Opaque => u32::MAX,
        }
    }
}

/// A type: its primitive kind and, for opaque types, the plugin's own id.
#[derive(Clone, Copy, Debug, PartialEq, Eq, Structural)]
pub struct OrcTypeId {
    pub primitive_id: OrcPrimitiveTypeId,
    pub opaque_id: u32,
}

/// Points at item `item` of deck `tree` among the inputs of a proxy.
#[derive(Clone, Copy, Debug, PartialEq, Eq, Structural)]
pub struct OrcItemProxy {
    pub tree: u64,
    pub item: u64,
}

/// How a proxy deck is built from its inputs: a full copy of one input,
/// the items of one input under the proxy's marks, or items picked from
/// several inputs.
#[derive(Clone, Copy, Debug, PartialEq, Eq, Structural)]
pub enum ProxyType {
    CopyAll,
    CopyItems,
    Shuffle,
}

/// A type known to the host: its id, name and description.
#[derive(Clone, Debug)]
pub struct TypeInfo {
    pub type_id: u64,
    pub name: String,
    pub desc: String,
}

/// Who defines a type: the host itself, or type `1` of plugin `0`.
#[derive(Clone, Debug)]
pub enum TypeOwner {
    BuiltIn(TypeInfo),
    Plugin(usize, usize),
}

/// How a function takes an argument: as a view read at the given depth,
/// or as a whole deck.
#[derive(Clone, Copy, Debug, PartialEq, Eq, Structural)]
pub enum Arity {
    View(u8),
    Deck,
}

/// The arities of a function's inputs and outputs, for functions with
/// `NIN` inputs and `NOUT` outputs.
pub trait TFunc<const NIN: usize, const NOUT: usize> {
    fn input_arities() -> [Arity; NIN];

    fn output_arities() -> [Arity; NOUT];
}

/// Hands out the id in `counter` and advances the counter by one, wrapping
/// to 0 past the largest id.
pub fn next_handle_id(counter: &mut u64) -> (r: u64)
    ensures
        r == *old(counter),
        *final(counter) == if *old(counter) == u64::MAX {
            0
        } else {
            (*old(counter) + 1) as u64
        },
{
    let id = *counter;
    *counter = if id == u64::MAX {
        0
    } else {
        id + 1
    };
    id
}

} // verus!
