//! Dead code elimination analysis.
//!
//! This module identifies unreachable code in WASM functions.  It tracks
//! control flow through branches, returns, and other control flow
//! instructions to determine which instructions can never be executed.

use vstd::prelude::*;
use crate::instr::Instr;

verus! {

/// Stack-based tracker for dead code elimination analysis.
///
/// One flag per enclosing block: whether a terminating instruction (like
/// `return`, `br`, or `unreachable`) has been seen in it, so that the rest
/// of the block is dead until it ends or an `else` starts.
pub struct DceStack(Vec<bool>);

impl View for DceStack {
    type V = Seq<bool>;

    closed spec fn view(&self) -> Seq<bool> {
        self.0@
    }
}

/// The instructions that open a block.
pub open spec fn opens_block(o: Instr) -> bool {
    o is If || o is Block || o is Loop || o is TryTable
}

/// The instructions after which the rest of the block cannot run.
pub open spec fn terminates(o: Instr) -> bool {
    ||| o is Br
    ||| o is BrTable
    ||| o is Return
    ||| o is ReturnCall
    ||| o is ReturnCallIndirect
    ||| o is ReturnCallRef
    ||| o is Unreachable
    ||| o is Throw
    ||| o is ThrowRef
}

/// `s` with its last flag set to `b`, when there is one.
pub open spec fn set_last(s: Seq<bool>, b: bool) -> Seq<bool> {
    if s.len() == 0 {
        s
    } else {
        s.update(s.len() - 1, b)
    }
}

/// One step of the analysis: whether `o` is dead, and the new stack.
pub open spec fn dce_step(s: Seq<bool>, o: Instr) -> (bool, Seq<bool>) {
    if o is Else {
        (false, set_last(s, false))
    } else if opens_block(o) {
        (false, s.push(false))
    } else if o is End {
        (false, if s.len() == 0 { s } else { s.drop_last() })
    } else if terminates(o) {
        (false, set_last(s, true))
    } else {
        (exists|i: int| 0 <= i < s.len() && s[i], s)
    }
}

impl Default for DceStack {
    fn default() -> (res: Self)
        ensures
            res@ == Seq::<bool>::empty(),
    {
        DceStack(Vec::new())
    }
}

impl DceStack {
    /// Creates a new empty DCE stack.
    pub fn new() -> (res: Self)
        ensures
            res@ == Seq::<bool>::empty(),
    {
        DceStack(Vec::new())
    }
}

/// Analyzes an instruction for dead code elimination: `true` when it is
/// dead and can be eliminated.  Control-flow instructions are never dead;
/// they update the stack instead.
#[verifier::loop_isolation(false)]
pub fn dce(stack: &mut DceStack, o: &Instr) -> (res: bool)
    ensures
        (res, final(stack)@) == dce_step(old(stack)@, *o),
{
    let n = stack.0.len();
    match o {
        Instr::Else => {
            if n > 0 {
                stack.0.set(n - 1, false);
            }
            false
        },
        Instr::If(_) | Instr::Block(_) | Instr::Loop(_) | Instr::TryTable(..) => {
            stack.0.push(false);
            false
        },
        Instr::End => {
            stack.0.pop();
            false
        },
        Instr::Br(_) | Instr::BrTable(..) | Instr::Return | Instr::ReturnCall(_)
        | Instr::ReturnCallIndirect { .. } | Instr::ReturnCallRef(_) | Instr::Unreachable
        | Instr::Throw(_) | Instr::ThrowRef => {
            if n > 0 {
                stack.0.set(n - 1, true);
            }
            false
        },
        _ => {
            let mut i: usize = 0;
            while i < n
                invariant
                    n == stack.0@.len(),
                    i <= n,
                    forall|j: int| 0 <= j < i ==> !stack.0@[j],
                decreases n - i,
            {
                if stack.0[i] {
                    assert(stack.0@[i as int]);
                    return true;
                }
                i += 1;
            }
            false
        },
    }
}

/// The same analysis, for instructions on their way to an encoder.
pub fn dce_instr(stack: &mut DceStack, o: &Instr) -> (res: bool)
    ensures
        (res, final(stack)@) == dce_step(old(stack)@, *o),
{
    dce(stack, o)
}

/// Blocks nest: the `end` of a block gives back the stack as it was before
/// the block opened, however the block ended.
pub proof fn lemma_end_restores(s: Seq<bool>, open: Instr, body: bool)
    requires
        opens_block(open),
    ensures
        dce_step(set_last(dce_step(s, open).1, body), Instr::End).1 == s,
{
    assert(set_last(s.push(false), body).drop_last() =~= s);
}

/// An instruction that opens or closes a block, or ends or switches its
/// path, is never dead.
pub proof fn lemma_control_live(s: Seq<bool>, o: Instr)
    requires
        opens_block(o) || o is End || o is Else || terminates(o),
    ensures
        !dce_step(s, o).0,
{
}

/// After an unconditional transfer of control (`br`, `br_table`, `return`,
/// a return call, `unreachable`, `throw`, `throw_ref`) inside a block, every
/// instruction that neither opens, switches nor closes a block nor transfers
/// control is dead, and leaves the analysis as it found it, so the code
/// stays dead up to the block's `else` or `end`.
pub proof fn lemma_dead_after_transfer(s: Seq<bool>, t: Instr, o: Instr)
    requires
        s.len() > 0,
        t is Br || t is BrTable || t is Return || t is ReturnCall || t is ReturnCallIndirect || t is ReturnCallRef
            || t is Unreachable || t is Throw || t is ThrowRef,
        !(o is Else || o is If || o is Block || o is Loop || o is TryTable || o is End || o is Br || o is BrTable
            || o is Return || o is ReturnCall || o is ReturnCallIndirect || o is ReturnCallRef || o is Unreachable
            || o is Throw || o is ThrowRef),
    ensures
        dce_step(dce_step(s, t).1, o).0,
        dce_step(dce_step(s, t).1, o).1 == dce_step(s, t).1,
{
    let s1 = dce_step(s, t).1;
    assert(s1[s1.len() - 1]);
}

} // verus!
