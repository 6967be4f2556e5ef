//! Index rewriting for WASM modules.
//!
//! Rewriting shifts function and type indices when a module gains imports or
//! is merged into another.  Two strategies exist:
//! - **Plain**: indices are offset by the number of imports;
//! - **Sidecar**: each index `a` becomes `imports + (2a | orig)`, so that the
//!   original and the modified version of every item keep an index each.

use vstd::prelude::*;
use crate::instr::{BlockType, FuncType, Instr};
use crate::sink::InstructionSink;

verus! {

/// The number of imported items in a WASM module.
#[derive(Clone, Copy, PartialEq, Eq, PartialOrd, Ord, Hash, Debug)]
pub struct NumImports {
    /// The count of imports
    pub imports: u32,
}

impl Default for NumImports {
    fn default() -> (res: Self)
        ensures
            res.imports == 0,
    {
        NumImports { imports: 0 }
    }
}

/// The strategy for rewriting indices.
#[derive(Clone, Copy, PartialEq, Eq, PartialOrd, Ord, Hash, Debug)]
pub enum RewriteKind {
    /// Indices are shifted by the number of imports.
    Plain { imports: NumImports },
    /// Indices are encoded as `imports + (index << 1) | original_bit`.
    Sidecar { imports: NumImports },
}

impl Default for RewriteKind {
    fn default() -> (res: Self)
        ensures
            res == (RewriteKind::Plain { imports: NumImports { imports: 0 } }),
    {
        RewriteKind::Plain { imports: NumImports { imports: 0 } }
    }
}

/// Configuration for rewriting WASM function and type indices.
#[derive(Clone, Copy, PartialEq, Eq, PartialOrd, Ord, Hash, Debug)]
pub struct Rewrite {
    /// The rewriting strategy for function type indices
    pub function_types: RewriteKind,
    /// The rewriting strategy for function indices
    pub functions: RewriteKind,
}

impl Default for Rewrite {
    fn default() -> (res: Self)
        ensures
            res.function_types == (RewriteKind::Plain { imports: NumImports { imports: 0 } }),
            res.functions == (RewriteKind::Plain { imports: NumImports { imports: 0 } }),
    {
        Rewrite { function_types: RewriteKind::default(), functions: RewriteKind::default() }
    }
}

/// A tracker for indices handed out while items are added to a module.
#[derive(Clone, PartialEq, Eq, PartialOrd, Ord, Hash, Debug)]
pub struct Tracker<T> {
    /// The next available index
    pub idx: u32,
    /// All tracked items in order
    pub all: Vec<T>,
}

impl<T> Default for Tracker<T> {
    fn default() -> (res: Self)
        ensures
            res.idx == 0,
            res.all@ == Seq::<T>::empty(),
    {
        Tracker { idx: 0, all: Vec::new() }
    }
}

impl<T> Tracker<T> {
    /// Adds a new item and returns its assigned index.
    pub fn push(&mut self, a: T) -> (res: u32)
        requires
            old(self).idx < u32::MAX,
        ensures
            res == old(self).idx,
            final(self).idx == old(self).idx + 1,
            final(self).all@ == old(self).all@.push(a),
    {
        let i = self.idx;
        self.idx += 1;
        self.all.push(a);
        return i;
    }
}

impl NumImports {
    /// Reserves the imported indices in `tracker`.
    pub fn apply<T>(&self, tracker: &mut Tracker<T>)
        requires
            old(tracker).idx + self.imports <= u32::MAX,
        ensures
            final(tracker).idx == old(tracker).idx + self.imports,
            final(tracker).all@ == old(tracker).all@,
    {
        tracker.idx += self.imports;
    }
}

impl RewriteKind {
    /// The index that `a` becomes; `orig` picks the original (`true`) or
    /// the modified (`false`) item under the sidecar strategy.
    pub open spec fn spec_rewrite(self, a: u32, orig: bool) -> int {
        match self {
            RewriteKind::Plain { imports } => a + imports.imports,
            RewriteKind::Sidecar { imports } => imports.imports + (2 * a) % 0x1_0000_0000 + if orig { 1int } else { 0int },
        }
    }

    /// Rewrites an index according to this strategy.
    pub fn rewrite(&self, a: u32, orig: bool) -> (res: u32)
        requires
            self.spec_rewrite(a, orig) <= u32::MAX,
        ensures
            res == self.spec_rewrite(a, orig),
    {
        match self {
            RewriteKind::Plain { imports } => a + imports.imports,
            RewriteKind::Sidecar { imports } => {
                let bit: u32 = if orig { 1 } else { 0 };
                let coded = (a << 1) | bit;
                assert(coded == (a % 0x8000_0000) * 2 + bit) by (bit_vector)
                    requires coded == (a << 1) | bit, bit <= 1;
                assert((2 * a) % 0x1_0000_0000 == (a % 0x8000_0000) * 2);
                imports.imports + coded
            },
        }
    }
}

impl Rewrite {
    /// The block type that `a` becomes: function types are rewritten as
    /// original items.
    pub open spec fn spec_block_ty(self, a: BlockType) -> BlockType {
        match a {
            BlockType::FunctionType(f) => BlockType::FunctionType(self.function_types.spec_rewrite(f, true) as u32),
            _ => a,
        }
    }

    /// Whether rewriting `i` stays within the index space.
    pub open spec fn fits(self, i: Instr) -> bool {
        match i {
            Instr::ReturnCallIndirect { type_index, .. } => self.function_types.spec_rewrite(type_index, false) <= u32::MAX,
            Instr::ReturnCallRef(t) => self.function_types.spec_rewrite(t, false) <= u32::MAX,
            Instr::CallIndirect { type_index, .. } => self.function_types.spec_rewrite(type_index, false) <= u32::MAX,
            Instr::CallRef(t) => self.function_types.spec_rewrite(t, false) <= u32::MAX,
            Instr::RefFunc(f) => self.functions.spec_rewrite(f, false) <= u32::MAX,
            Instr::Call(f) => self.functions.spec_rewrite(f, false) <= u32::MAX,
            Instr::ReturnCall(f) => self.functions.spec_rewrite(f, false) <= u32::MAX,
            Instr::If(BlockType::FunctionType(f)) => self.function_types.spec_rewrite(f, true) <= u32::MAX,
            Instr::Block(BlockType::FunctionType(f)) => self.function_types.spec_rewrite(f, true) <= u32::MAX,
            Instr::Loop(BlockType::FunctionType(f)) => self.function_types.spec_rewrite(f, true) <= u32::MAX,
            Instr::TryTable(BlockType::FunctionType(f), _) => self.function_types.spec_rewrite(f, true) <= u32::MAX,
            _ => true,
        }
    }

    /// The instruction that `i` becomes: called and referenced types are
    /// rewritten as modified items, block types as original items, called
    /// and referenced functions as modified items; everything else is kept.
    pub open spec fn spec_rewrite(self, i: Instr) -> Instr {
        match i {
            Instr::ReturnCallIndirect { type_index, table_index } => Instr::ReturnCallIndirect {
                type_index: self.function_types.spec_rewrite(type_index, false) as u32,
                table_index,
            },
            Instr::ReturnCallRef(t) => Instr::ReturnCallRef(self.function_types.spec_rewrite(t, false) as u32),
            Instr::CallIndirect { type_index, table_index } => Instr::CallIndirect {
                type_index: self.function_types.spec_rewrite(type_index, false) as u32,
                table_index,
            },
            Instr::CallRef(t) => Instr::CallRef(self.function_types.spec_rewrite(t, false) as u32),
            Instr::RefFunc(f) => Instr::RefFunc(self.functions.spec_rewrite(f, false) as u32),
            Instr::Call(f) => Instr::Call(self.functions.spec_rewrite(f, false) as u32),
            Instr::ReturnCall(f) => Instr::ReturnCall(self.functions.spec_rewrite(f, false) as u32),
            Instr::If(a) => Instr::If(self.spec_block_ty(a)),
            Instr::Block(a) => Instr::Block(self.spec_block_ty(a)),
            Instr::Loop(a) => Instr::Loop(self.spec_block_ty(a)),
            Instr::TryTable(a, c) => Instr::TryTable(self.spec_block_ty(a), c),
            _ => i,
        }
    }

    fn ty(&self, a: u32) -> (res: u32)
        requires
            self.function_types.spec_rewrite(a, false) <= u32::MAX,
        ensures
            res == self.function_types.spec_rewrite(a, false),
    {
        self.function_types.rewrite(a, false)
    }

    fn block_ty(&self, a: BlockType) -> (res: BlockType)
        requires
            a matches BlockType::FunctionType(f) ==> self.function_types.spec_rewrite(f, true) <= u32::MAX,
        ensures
            res == self.spec_block_ty(a),
    {
        match a {
            BlockType::FunctionType(f) => BlockType::FunctionType(self.function_types.rewrite(f, true)),
            a => a,
        }
    }

    /// Rewrites the indices in `i`.
    pub fn rewrite(&self, i: Instr) -> (res: Instr)
        requires
            self.fits(i),
        ensures
            res == self.spec_rewrite(i),
    {
        match i {
            Instr::ReturnCallIndirect { type_index, table_index } => Instr::ReturnCallIndirect {
                type_index: self.ty(type_index),
                table_index,
            },
            Instr::ReturnCallRef(ty) => Instr::ReturnCallRef(self.ty(ty)),
            Instr::CallIndirect { type_index, table_index } => Instr::CallIndirect {
                type_index: self.ty(type_index),
                table_index,
            },
            Instr::CallRef(ty) => Instr::CallRef(self.ty(ty)),
            Instr::RefFunc(a) => Instr::RefFunc(self.functions.rewrite(a, false)),
            Instr::Call(a) => Instr::Call(self.functions.rewrite(a, false)),
            Instr::ReturnCall(a) => Instr::ReturnCall(self.functions.rewrite(a, false)),
            Instr::If(a) => Instr::If(self.block_ty(a)),
            Instr::Block(a) => Instr::Block(self.block_ty(a)),
            Instr::Loop(a) => Instr::Loop(self.block_ty(a)),
            Instr::TryTable(a, b) => Instr::TryTable(self.block_ty(a), b),
            i => i,
        }
    }
}

/// The sidecar encoding can be undone: from a rewritten index one reads back
/// the index and whether it named the original item.
pub proof fn lemma_sidecar_decodes(imports: NumImports, a: u32, orig: bool)
    requires
        a < 0x8000_0000,
    ensures
        ({
            let r = (RewriteKind::Sidecar { imports }).spec_rewrite(a, orig);
            &&& (r - imports.imports) / 2 == a
            &&& ((r - imports.imports) % 2 == 1) == orig
        }),
{
}

/// Distinct (index, original) pairs get distinct sidecar indices.
pub proof fn lemma_sidecar_injective(imports: NumImports, a: u32, o: bool, b: u32, p: bool)
    requires
        a < 0x8000_0000,
        b < 0x8000_0000,
        (RewriteKind::Sidecar { imports }).spec_rewrite(a, o) == (RewriteKind::Sidecar { imports }).spec_rewrite(b, p),
    ensures
        a == b,
        o == p,
{
    lemma_sidecar_decodes(imports, a, o);
    lemma_sidecar_decodes(imports, b, p);
}

/// Offsetting is injective: distinct indices stay distinct.
pub proof fn lemma_offset_injective(imports: NumImports, a: u32, b: u32, o: bool)
    requires
        (RewriteKind::Plain { imports }).spec_rewrite(a, o) == (RewriteKind::Plain { imports }).spec_rewrite(b, o),
    ensures
        a == b,
{
}

/// Block types are rewritten alike wherever they stand: `block`, `loop`,
/// `if` and `try_table` with the block type of function type `f` get the
/// block type of the original item `f` becomes under the function-type
/// strategy, and keep any other block type; a `try_table` keeps its
/// clauses.
pub proof fn lemma_block_types_rewritten(r: Rewrite, bt: BlockType, catches: Vec<crate::instr::Catch>)
    ensures
        ({
            let nb = match bt {
                BlockType::FunctionType(f) => BlockType::FunctionType(r.function_types.spec_rewrite(f, true) as u32),
                _ => bt,
            };
            &&& r.spec_rewrite(Instr::Block(bt)) == Instr::Block(nb)
            &&& r.spec_rewrite(Instr::Loop(bt)) == Instr::Loop(nb)
            &&& r.spec_rewrite(Instr::If(bt)) == Instr::If(nb)
            &&& r.spec_rewrite(Instr::TryTable(bt, catches)) == Instr::TryTable(nb, catches)
        }),
{
}

/// Calls and references are rewritten as modified items: a call, a return
/// call and a function reference name the modified function under the
/// function strategy; an indirect call or a call through a reference names
/// the modified type under the function-type strategy, keeping the table.
pub proof fn lemma_calls_rewritten(r: Rewrite, f: u32, t: u32, table: u32)
    ensures
        r.spec_rewrite(Instr::Call(f)) == Instr::Call(r.functions.spec_rewrite(f, false) as u32),
        r.spec_rewrite(Instr::ReturnCall(f)) == Instr::ReturnCall(r.functions.spec_rewrite(f, false) as u32),
        r.spec_rewrite(Instr::RefFunc(f)) == Instr::RefFunc(r.functions.spec_rewrite(f, false) as u32),
        r.spec_rewrite(Instr::CallRef(t)) == Instr::CallRef(r.function_types.spec_rewrite(t, false) as u32),
        r.spec_rewrite(Instr::ReturnCallRef(t)) == Instr::ReturnCallRef(r.function_types.spec_rewrite(t, false) as u32),
        r.spec_rewrite(Instr::CallIndirect { type_index: t, table_index: table }) == (Instr::CallIndirect {
            type_index: r.function_types.spec_rewrite(t, false) as u32,
            table_index: table,
        }),
        r.spec_rewrite(Instr::ReturnCallIndirect { type_index: t, table_index: table }) == (Instr::ReturnCallIndirect {
            type_index: r.function_types.spec_rewrite(t, false) as u32,
            table_index: table,
        }),
{
}

/// With no imports and the plain strategy, rewriting leaves every
/// instruction as it is.
pub proof fn lemma_plain_without_imports(i: Instr)
    ensures
        ({
            let r = Rewrite {
                function_types: RewriteKind::Plain { imports: NumImports { imports: 0 } },
                functions: RewriteKind::Plain { imports: NumImports { imports: 0 } },
            };
            r.fits(i) && r.spec_rewrite(i) == i
        }),
{
}

/// The type of shim function to generate.
#[derive(Clone, Copy, PartialEq, Eq, PartialOrd, Ord, Hash, Debug)]
pub enum ShimKind {
    /// A shim wrapping an imported function
    Import,
    /// A shim wrapping an exported function
    Export,
}

/// A generator of shim functions: small wrappers that adapt between the
/// calling convention of a transformed module and that of its imports and
/// exports.
pub trait Shimmer<E> {
    /// Whether a shim for function `shimmed` can be generated from these tables.
    spec fn can_shim(&self, shimmed: u32, func_types: Seq<u32>, types: Seq<FuncType>) -> bool;

    /// Emits the body of the shim for function `shimmed` to `sink`.
    fn shim<S: InstructionSink<E>>(
        &self,
        shimmed: u32,
        func_types: &[u32],
        types: &[FuncType],
        kind: ShimKind,
        sink: &mut S,
    ) -> Result<(), E>
        requires
            self.can_shim(shimmed, func_types@, types@),
    ;
}

} // verus!
