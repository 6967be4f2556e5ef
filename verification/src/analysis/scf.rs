//! Structured control flow analysis.
//!
//! Tracks, for every block open at a point of a function body, the types of
//! the values that a branch to it carries.

use vstd::prelude::*;
use crate::instr::{BlockType, FuncType, Instr, ValType};

verus! {

/// The enclosing blocks of the current instruction, outermost first.
///
/// A block or loop records the types that a branch to it carries; an `if`
/// records nothing, and branch depths skip it.
pub struct SCF {
    blocks: Vec<Option<Vec<ValType>>>,
}

pub open spec fn block_view(b: Option<Vec<ValType>>) -> Option<Seq<ValType>> {
    match b {
        Some(v) => Some(v@),
        None => None,
    }
}

impl View for SCF {
    type V = Seq<Option<Seq<ValType>>>;

    closed spec fn view(&self) -> Seq<Option<Seq<ValType>>> {
        self.blocks@.map_values(|b: Option<Vec<ValType>>| block_view(b))
    }
}

/// The types carried by a branch out of `depth` recorded blocks of
/// `blocks`, innermost first, passing over the blocks that record nothing.
pub open spec fn branch_types(blocks: Seq<Option<Seq<ValType>>>, depth: int) -> Option<Seq<ValType>>
    decreases blocks.len(),
{
    if blocks.len() == 0 {
        None
    } else {
        match blocks.last() {
            None => branch_types(blocks.drop_last(), depth),
            Some(a) => if depth == 0 {
                Some(a)
            } else {
                branch_types(blocks.drop_last(), depth - 1)
            },
        }
    }
}

/// The types that a branch to a block of type `bt` carries, where a loop
/// is entered again by its branches and a block is left by them.
pub open spec fn label_types(bt: BlockType, funcs: Seq<FuncType>, is_loop: bool) -> Seq<ValType> {
    match bt {
        BlockType::Empty => Seq::empty(),
        BlockType::Result(t) => if is_loop { Seq::empty() } else { seq![t] },
        BlockType::FunctionType(f) => if is_loop { funcs[f as int].params@ } else { funcs[f as int].results@ },
    }
}

/// Whether every function type that `op` names is one of `funcs`.
pub open spec fn names_known_type(op: Instr, funcs: Seq<FuncType>) -> bool {
    match op {
        Instr::Block(BlockType::FunctionType(f)) | Instr::Loop(BlockType::FunctionType(f)) => f < funcs.len(),
        _ => true,
    }
}

/// The enclosing blocks after instruction `op`.
pub open spec fn scf_step(blocks: Seq<Option<Seq<ValType>>>, op: Instr, funcs: Seq<FuncType>) -> Seq<Option<Seq<ValType>>> {
    match op {
        Instr::End => if blocks.len() == 0 { blocks } else { blocks.drop_last() },
        Instr::If(_) => blocks.push(None),
        Instr::Block(bt) => blocks.push(Some(label_types(bt, funcs, false))),
        Instr::Loop(bt) => blocks.push(Some(label_types(bt, funcs, true))),
        _ => blocks,
    }
}

/// A copy of `a`.
fn copy_vals(a: &Vec<ValType>) -> (res: Vec<ValType>)
    ensures
        res@ == a@,
{
    let mut res: Vec<ValType> = Vec::new();
    let mut i: usize = 0;
    while i < a.len()
        invariant
            i <= a@.len(),
            res@ == a@.take(i as int),
        decreases a@.len() - i,
    {
        res.push(a[i]);
        assert(res@ =~= a@.take(i + 1));
        i += 1;
    }
    assert(a@.take(a@.len() as int) =~= a@);
    res
}

impl Default for SCF {
    fn default() -> (res: Self)
        ensures
            res@ == Seq::<Option<Seq<ValType>>>::empty(),
    {
        let res = SCF { blocks: Vec::new() };
        assert(res@ =~= Seq::<Option<Seq<ValType>>>::empty());
        res
    }
}

impl SCF {
    /// The types that a branch `br_target` blocks out carries, or `None`
    /// where fewer blocks than that enclose the current instruction.
    pub fn val_types(&self, br_target: u32) -> (res: Option<&[ValType]>)
        ensures
            match branch_types(self@, br_target as int) {
                Some(a) => res matches Some(s) && s@ == a,
                None => res is None,
            },
    {
        let mut depth = br_target;
        let mut i = self.blocks.len();
        proof {
            assert(self@.take(i as int) =~= self@);
        }
        while i > 0
            invariant
                i <= self.blocks@.len(),
                branch_types(self@, br_target as int) == branch_types(self@.take(i as int), depth as int),
            decreases i,
        {
            proof {
                assert(self@.take(i as int).drop_last() =~= self@.take(i - 1));
            }
            i = i - 1;
            match &self.blocks[i] {
                None => {},
                Some(a) => {
                    if depth == 0 {
                        return Some(a.as_slice());
                    }
                    depth -= 1;
                },
            }
        }
        None
    }

    /// Updates the enclosing blocks past instruction `op`: a block, loop or
    /// `if` opens one, an `end` closes the innermost.
    pub fn on_inst(&mut self, op: &Instr, funcs: &[FuncType])
        requires
            names_known_type(*op, funcs@),
        ensures
            final(self)@ == scf_step(old(self)@, *op, funcs@),
    {
        let ghost b0 = self@;
        match op {
            Instr::End => {
                self.blocks.pop();
                assert(b0.len() > 0 ==> self@ =~= b0.drop_last());
                assert(b0.len() == 0 ==> self@ =~= b0);
            },
            Instr::If(_) => {
                self.blocks.push(None);
                assert(self@ =~= b0.push(None));
            },
            Instr::Block(bt) => {
                let v: Vec<ValType> = match bt {
                    BlockType::Empty => Vec::new(),
                    BlockType::Result(t) => vec![*t],
                    BlockType::FunctionType(f) => copy_vals(&funcs[*f as usize].results),
                };
                assert(v@ =~= label_types(*bt, funcs@, false));
                self.blocks.push(Some(v));
                assert(self@ =~= b0.push(Some(label_types(*bt, funcs@, false))));
            },
            Instr::Loop(bt) => {
                let v: Vec<ValType> = match bt {
                    BlockType::Empty => Vec::new(),
                    BlockType::Result(_) => Vec::new(),
                    BlockType::FunctionType(f) => copy_vals(&funcs[*f as usize].params),
                };
                assert(v@ =~= label_types(*bt, funcs@, true));
                self.blocks.push(Some(v));
                assert(self@ =~= b0.push(Some(label_types(*bt, funcs@, true))));
            },
            _ => {},
        }
    }
}

/// Blocks nest: the `end` of a block, loop or `if` restores the enclosing
/// blocks as they were before it opened.
pub proof fn lemma_end_closes(blocks: Seq<Option<Seq<ValType>>>, op: Instr, funcs: Seq<FuncType>)
    requires
        op is Block || op is Loop || op is If,
    ensures
        scf_step(scf_step(blocks, op, funcs), Instr::End, funcs) == blocks,
{
    assert(scf_step(blocks, op, funcs).drop_last() =~= blocks);
}

/// Right inside a block or loop, a branch out of it carries what the
/// construct's branches carry: a block its results (none, the one result
/// type, or the results of its function type), a loop its parameters (none,
/// or the parameters of its function type).
pub proof fn lemma_innermost_label(blocks: Seq<Option<Seq<ValType>>>, op: Instr, funcs: Seq<FuncType>)
    requires
        op is Block || op is Loop,
    ensures
        branch_types(scf_step(blocks, op, funcs), 0) == Some(match op {
            Instr::Block(BlockType::Result(t)) => seq![t],
            Instr::Block(BlockType::FunctionType(f)) => funcs[f as int].results@,
            Instr::Loop(BlockType::FunctionType(f)) => funcs[f as int].params@,
            _ => Seq::<ValType>::empty(),
        }),
{
}

/// An `if` adds no label that branch depths count: right inside it, a
/// branch at any depth carries what it carried outside.
pub proof fn lemma_if_transparent(blocks: Seq<Option<Seq<ValType>>>, bt: BlockType, funcs: Seq<FuncType>, depth: int)
    ensures
        branch_types(scf_step(blocks, Instr::If(bt), funcs), depth) == branch_types(blocks, depth),
{
    assert(scf_step(blocks, Instr::If(bt), funcs).drop_last() =~= blocks);
}

} // verus!
