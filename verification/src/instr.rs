//! The WebAssembly instructions and types that this library reads, as plain
//! values.  An embedder converts its encoder or parser instructions into
//! [`Instr`] and back; instructions that no transformation here inspects
//! travel as [`Instr::Other`], under a code the embedder chooses.

use vstd::prelude::*;

verus! {

/// `wasm_encoder::RefType`, declared so that value types can carry it; the
/// library never looks inside one.
#[verifier::external_type_specification]
#[verifier::external_body]
pub struct ExRefType(wasm_encoder::RefType);

/// A value type.  Reference types are carried as the encoder's own
/// [`wasm_encoder::RefType`], which nothing here inspects.
#[derive(Clone, Copy, Debug, PartialEq, Eq)]
pub enum ValType {
    I32,
    I64,
    F32,
    F64,
    V128,
    Ref(wasm_encoder::RefType),
}

/// The type of a structured block.
#[derive(Clone, Copy, Debug, PartialEq, Eq)]
pub enum BlockType {
    /// `[] -> []`
    Empty,
    /// `[] -> [t]`
    Result(ValType),
    /// The `n`th function type.
    FunctionType(u32),
}

/// A clause of a `try_table`.
#[derive(Clone, Copy, Debug, PartialEq, Eq)]
pub enum Catch {
    One { tag: u32, label: u32 },
    OneRef { tag: u32, label: u32 },
    All { label: u32 },
    AllRef { label: u32 },
}

/// A function signature.
#[derive(Clone, Debug, PartialEq, Eq)]
pub struct FuncType {
    pub params: Vec<ValType>,
    pub results: Vec<ValType>,
}

/// The type of a global.
#[derive(Clone, Copy, Debug, PartialEq, Eq)]
pub struct GlobalType {
    pub val_type: ValType,
    pub mutable: bool,
    pub shared: bool,
}

/// An instruction.
#[derive(Clone, Debug, PartialEq, Eq)]
pub enum Instr {
    Unreachable,
    Nop,
    Block(BlockType),
    Loop(BlockType),
    If(BlockType),
    Else,
    TryTable(BlockType, Vec<Catch>),
    Throw(u32),
    ThrowRef,
    End,
    Br(u32),
    BrIf(u32),
    BrTable(Vec<u32>, u32),
    Return,
    Call(u32),
    CallIndirect { type_index: u32, table_index: u32 },
    ReturnCall(u32),
    ReturnCallIndirect { type_index: u32, table_index: u32 },
    CallRef(u32),
    ReturnCallRef(u32),
    RefFunc(u32),
    Drop,
    LocalGet(u32),
    LocalSet(u32),
    LocalTee(u32),
    GlobalGet(u32),
    GlobalSet(u32),
    I32Const(i32),
    I32Ne,
    /// Any other instruction, under a code of the embedder's choosing.
    Other(u32),
}

} // verus!
