//! Return values travel through globals and a status code.
//!
//! Every function type comes to return a single `i32` status; the real
//! results are stored in globals, one per result of each original function
//! type.  A `return` stores the results and returns `-1`; a call checks the
//! status, runs the trap code when it is not `-1`, and otherwise loads the
//! results from the globals.

use vstd::prelude::*;
use crate::instr::{BlockType, FuncType, GlobalType, Instr, ValType};
use crate::rewrite::{ShimKind, Shimmer, Tracker};
use crate::sink::{
    lemma_stopped_at, lemma_stopped_concat, lemma_stopped_within, lemma_within_concat, lemma_within_start, stopped_in,
    stopped_within, InstructionSink,
};
use super::globalize::{concat_vals, gets_up};

verus! {

/// The transformation, with the globals and block types it allocated.
pub struct RetCleaner {
    types: Vec<Vec<ValType>>,
    block_types: Vec<u32>,
    globals: Vec<Vec<u32>>,
    func_types: Vec<u32>,
}

/// The number of results of the first `i` function types.
pub open spec fn results_before(f: Seq<FuncType>, i: int) -> int
    decreases i,
{
    if i <= 0 {
        0
    } else {
        results_before(f, i - 1) + f[i - 1].results@.len()
    }
}

/// The globals allocated for the results of the first `i` function types:
/// one mutable, unshared global per result, in order.
pub open spec fn result_globals(f: Seq<FuncType>, i: int) -> Seq<GlobalType>
    decreases i,
{
    if i <= 0 {
        Seq::empty()
    } else {
        result_globals(f, i - 1) + f[i - 1].results@.map_values(
            |t: ValType| GlobalType { val_type: t, mutable: true, shared: false },
        )
    }
}

/// `global.get g` for each `g` of `g`, in order.
pub open spec fn global_gets(g: Seq<u32>) -> Seq<Instr> {
    Seq::new(g.len(), |k: int| Instr::GlobalGet(g[k]))
}

/// `global.set g` for each `g` of `g`, in order.
pub open spec fn global_sets(g: Seq<u32>) -> Seq<Instr> {
    Seq::new(g.len(), |k: int| Instr::GlobalSet(g[k]))
}

/// `global.set g` for each `g` of `g`, last first.
pub open spec fn global_sets_rev(g: Seq<u32>) -> Seq<Instr> {
    Seq::new(g.len(), |k: int| Instr::GlobalSet(g[g.len() - 1 - k]))
}

/// What follows a call: check the status, trap unless it is `-1`, else load
/// the results of function type `ft` from their globals.
pub open spec fn after_call(stash: u32, block_type: u32, trap: Seq<Instr>, g: Seq<u32>) -> Seq<Instr> {
    seq![
        Instr::LocalTee(stash),
        Instr::I32Const(-1i32),
        Instr::I32Ne,
        Instr::If(BlockType::FunctionType(block_type)),
    ] + trap + seq![Instr::Else] + global_gets(g) + seq![Instr::End]
}

impl RetCleaner {
    /// The original results of each function type.
    pub closed spec fn spec_types(&self) -> Seq<Seq<ValType>> {
        self.types@.map_values(|v: Vec<ValType>| v@)
    }

    /// The globals that hold the results of each function type.
    pub closed spec fn spec_globals(&self) -> Seq<Seq<u32>> {
        self.globals@.map_values(|v: Vec<u32>| v@)
    }

    /// The block type that yields the results of each function type.
    pub closed spec fn spec_block_types(&self) -> Seq<u32> {
        self.block_types@
    }

    /// The type of each function.
    pub closed spec fn spec_func_types(&self) -> Seq<u32> {
        self.func_types@
    }

    /// Whether `i` can be transformed in function `cur_func`: the tables
    /// hold every index that the transformation looks up.
    pub open spec fn can_inst(&self, cur_func: u32, i: Instr) -> bool {
        &&& i is Return ==> {
            &&& cur_func < self.spec_func_types().len()
            &&& self.spec_func_types()[cur_func as int] < self.spec_globals().len()
        }
        &&& i matches Instr::Call(a) ==> {
            &&& a < self.spec_func_types().len()
            &&& self.spec_func_types()[a as int] < self.spec_globals().len()
            &&& self.spec_func_types()[a as int] < self.spec_block_types().len()
        }
        &&& i matches Instr::CallRef(t) ==> t < self.spec_globals().len() && t < self.spec_block_types().len()
        &&& i matches Instr::CallIndirect { type_index, .. } ==> type_index < self.spec_globals().len()
            && type_index < self.spec_block_types().len()
    }

    /// What `i` becomes in function `cur_func`, with `stash` a local for the
    /// status and `trap` the code run when a callee did not return normally.
    pub open spec fn spec_inst(&self, cur_func: u32, stash: u32, i: Instr, trap: Seq<Instr>) -> Seq<Instr> {
        match i {
            Instr::Return => global_sets_rev(self.spec_globals()[self.spec_func_types()[cur_func as int] as int])
                + seq![Instr::I32Const(-1i32), Instr::Return],
            Instr::Call(a) => {
                let ft = self.spec_func_types()[a as int];
                seq![i] + after_call(stash, self.spec_block_types()[ft as int], trap, self.spec_globals()[ft as int])
            },
            Instr::CallRef(t) => seq![i] + after_call(stash, self.spec_block_types()[t as int], trap, self.spec_globals()[t as int]),
            Instr::CallIndirect { type_index, .. } => seq![i] + after_call(
                stash,
                self.spec_block_types()[type_index as int],
                trap,
                self.spec_globals()[type_index as int],
            ),
            _ => seq![i],
        }
    }
}

/// The code run where a callee did not return normally, given the local
/// `stash` that holds the status the callee returned.
///
/// `trap_code` is what the trap emits for a stash; an implementation
/// promises that a trap that succeeds hands exactly these instructions to
/// the sink, and that a failed one leaves a prefix of them.  `traps_ok`
/// holds of a trap that does not fail of itself: given a sink that accepts
/// every instruction it succeeds, and any failure is the sink's refusal.
/// Left undefined, the code is empty and no success is promised.
pub trait Trap<E> {
    open spec fn trap_code(&self, stash: u32) -> Seq<Instr> {
        Seq::empty()
    }

    open spec fn traps_ok(&self) -> bool {
        false
    }

    /// Emits the trap code for `stash` to `sink`.
    fn trap<S: InstructionSink<E>>(&mut self, sink: &mut S, stash: u32) -> (res: Result<(), E>)
        ensures
            res matches Ok(_) ==> final(sink).emitted() == old(sink).emitted() + old(self).trap_code(stash)
                && final(sink).handed() == old(sink).handed() + old(self).trap_code(stash),
            res matches Err(e) ==> stopped_within(
                old(sink).emitted(),
                final(sink).emitted(),
                old(sink).handed(),
                final(sink).handed(),
                old(self).trap_code(stash),
            ) && (old(self).traps_ok() ==> stopped_in(
                old(sink).emitted(),
                final(sink).emitted(),
                old(sink).handed(),
                final(sink).handed(),
                old(self).trap_code(stash),
            ) && final(sink).refused() == Some(e)),
            old(self).traps_ok() && old(sink).accepts_all() ==> (res matches Ok(_)) && final(sink).accepts_all(),
    ;
}

/// Emits `global.get` (`get`) or `global.set` of each of `g`, in order.
fn emit_global_ops<E, S: InstructionSink<E>>(get: bool, g: &Vec<u32>, sink: &mut S) -> (res: Result<(), E>)
    ensures
        res matches Ok(_) ==> final(sink).emitted() == old(sink).emitted() + (if get {
            global_gets(g@)
        } else {
            global_sets(g@)
        }) && final(sink).handed() == old(sink).handed() + (if get {
            global_gets(g@)
        } else {
            global_sets(g@)
        }),
        res matches Err(e) ==> stopped_in(old(sink).emitted(), final(sink).emitted(), old(sink).handed(), final(sink).handed(), if get {
            global_gets(g@)
        } else {
            global_sets(g@)
        }) && final(sink).refused() == Some(e),
        old(sink).accepts_all() ==> res is Ok && final(sink).accepts_all(),
{
    let ghost target = if get { global_gets(g@) } else { global_sets(g@) };
    let mut k: usize = 0;
    while k < g.len()
        invariant
            k <= g@.len(),
            target == if get { global_gets(g@) } else { global_sets(g@) },
            sink.emitted() == old(sink).emitted() + target.take(k as int),
            sink.handed() == old(sink).handed() + target.take(k as int),
            old(sink).accepts_all() ==> sink.accepts_all(),
        decreases g@.len() - k,
    {
        match sink.instruction(if get { Instr::GlobalGet(g[k]) } else { Instr::GlobalSet(g[k]) }) {
            Ok(()) => {},
            Err(e) => {
                proof {
                    assert(sink.emitted() =~= old(sink).emitted() + (target).take(k as int));
                    assert(sink.handed() =~= old(sink).handed() + (target).take((k as int) + 1));
                    lemma_stopped_at(old(sink).emitted(), old(sink).handed(), target, k as int);
                }
                return Err(e);
            },
        }
        assert(sink.emitted() =~= old(sink).emitted() + target.take(k + 1));
        assert(sink.handed() =~= old(sink).handed() + target.take(k + 1));
        k += 1;
    }
    assert(target.take(g@.len() as int) =~= target);
    Ok(())
}

/// Emits what follows a call.
fn emit_after_call<E, S: InstructionSink<E>, T: Trap<E>>(
    stash: u32,
    block_type: u32,
    trap: &mut T,
    g: &Vec<u32>,
    f: &mut S,
) -> (res: Result<(), E>)
    ensures
        res matches Ok(_) ==> final(f).emitted() == old(f).emitted() + after_call(
            stash,
            block_type,
            old(trap).trap_code(stash),
            g@,
        ) && final(f).handed() == old(f).handed() + after_call(stash, block_type, old(trap).trap_code(stash), g@),
        res matches Err(e) ==> stopped_within(
            old(f).emitted(),
            final(f).emitted(),
            old(f).handed(),
            final(f).handed(),
            after_call(stash, block_type, old(trap).trap_code(stash), g@),
        ) && (old(trap).traps_ok() ==> stopped_in(
            old(f).emitted(),
            final(f).emitted(),
            old(f).handed(),
            final(f).handed(),
            after_call(stash, block_type, old(trap).trap_code(stash), g@),
        ) && final(f).refused() == Some(e)),
        old(f).accepts_all() && old(trap).traps_ok() ==> res is Ok && final(f).accepts_all(),
{
    let ghost e0 = f.emitted();
    let ghost h0 = f.handed();
    let ghost t = trap.trap_code(stash);
    let ghost h = seq![
        Instr::LocalTee(stash),
        Instr::I32Const(-1i32),
        Instr::I32Ne,
        Instr::If(BlockType::FunctionType(block_type)),
    ];
    let ghost gg = global_gets(g@);
    let ghost out = after_call(stash, block_type, t, g@);
    assert(out == h + t + seq![Instr::Else] + gg + seq![Instr::End]);
    proof {
        assert(e0 + out.take(0) =~= e0);
        assert(h0 + out.take(0) =~= h0);
    }
    match f.instruction(Instr::LocalTee(stash)) {
        Ok(()) => {},
        Err(e) => {
            proof { refused_here(e0, h0, out, 0, f.emitted(), f.handed()); }
            return Err(e);
        },
    }
    assert(f.emitted() =~= e0 + out.take(1) && f.handed() =~= h0 + out.take(1));
    match f.instruction(Instr::I32Const(-1)) {
        Ok(()) => {},
        Err(e) => {
            proof { refused_here(e0, h0, out, 1, f.emitted(), f.handed()); }
            return Err(e);
        },
    }
    assert(f.emitted() =~= e0 + out.take(2) && f.handed() =~= h0 + out.take(2));
    match f.instruction(Instr::I32Ne) {
        Ok(()) => {},
        Err(e) => {
            proof { refused_here(e0, h0, out, 2, f.emitted(), f.handed()); }
            return Err(e);
        },
    }
    assert(f.emitted() =~= e0 + out.take(3) && f.handed() =~= h0 + out.take(3));
    match f.instruction(Instr::If(BlockType::FunctionType(block_type))) {
        Ok(()) => {},
        Err(e) => {
            proof { refused_here(e0, h0, out, 3, f.emitted(), f.handed()); }
            return Err(e);
        },
    }
    assert(f.emitted() =~= e0 + h && f.handed() =~= h0 + h);
    match trap.trap(f, stash) {
        Ok(()) => {},
        Err(e) => {
            proof {
                let rest = seq![Instr::Else] + gg + seq![Instr::End];
                assert(h + t + rest =~= out);
                lemma_within_concat(e0, h0, h, t, rest, f.emitted(), f.handed());
                if old(trap).traps_ok() {
                    lemma_stopped_concat(e0, h0, h, t, rest, f.emitted(), f.handed());
                }
            }
            return Err(e);
        },
    }
    assert(f.emitted() =~= e0 + out.take(4 + t.len() as int) && f.handed() =~= h0 + out.take(4 + t.len() as int));
    match f.instruction(Instr::Else) {
        Ok(()) => {},
        Err(e) => {
            proof { refused_here(e0, h0, out, 4 + t.len() as int, f.emitted(), f.handed()); }
            return Err(e);
        },
    }
    assert(f.emitted() =~= e0 + (h + t + seq![Instr::Else]) && f.handed() =~= h0 + (h + t + seq![Instr::Else]));
    match emit_global_ops(true, g, f) {
        Ok(()) => {},
        Err(e) => {
            proof {
                lemma_stopped_concat(e0, h0, h + t + seq![Instr::Else], gg, seq![Instr::End], f.emitted(), f.handed());
                assert(h + t + seq![Instr::Else] + gg + seq![Instr::End] =~= out);
                lemma_stopped_within(e0, f.emitted(), h0, f.handed(), out);
            }
            return Err(e);
        },
    }
    assert(f.emitted() =~= e0 + out.take((5 + t.len() + gg.len()) as int));
    assert(f.handed() =~= h0 + out.take((5 + t.len() + gg.len()) as int));
    match f.instruction(Instr::End) {
        Ok(()) => {},
        Err(e) => {
            proof { refused_here(e0, h0, out, (5 + t.len() + gg.len()) as int, f.emitted(), f.handed()); }
            return Err(e);
        },
    }
    assert(f.emitted() =~= old(f).emitted() + out);
    assert(f.handed() =~= old(f).handed() + out);
    Ok(())
}

/// A refusal right after the first `k` instructions of `out` were accepted
/// stops there.
proof fn refused_here(e0: Seq<Instr>, h0: Seq<Instr>, out: Seq<Instr>, k: int, e1: Seq<Instr>, h1: Seq<Instr>)
    requires
        0 <= k < out.len(),
        e1 == e0 + out.take(k),
        h1 == (h0 + out.take(k)).push(out[k]),
    ensures
        stopped_in(e0, e1, h0, h1, out),
        stopped_within(e0, e1, h0, h1, out),
{
    assert(h1 =~= h0 + out.take(k + 1));
    lemma_stopped_at(e0, h0, out, k);
    lemma_stopped_within(e0, e1, h0, h1, out);
}

/// Emits a call and what follows it.
fn emit_checked_call<E, S: InstructionSink<E>, T: Trap<E>>(
    call: Instr,
    stash: u32,
    block_type: u32,
    trap: &mut T,
    g: &Vec<u32>,
    f: &mut S,
) -> (res: Result<(), E>)
    ensures
        res matches Ok(_) ==> final(f).emitted() == old(f).emitted() + (seq![call] + after_call(
            stash,
            block_type,
            old(trap).trap_code(stash),
            g@,
        )) && final(f).handed() == old(f).handed() + (seq![call] + after_call(
            stash,
            block_type,
            old(trap).trap_code(stash),
            g@,
        )),
        res matches Err(e) ==> stopped_within(
            old(f).emitted(),
            final(f).emitted(),
            old(f).handed(),
            final(f).handed(),
            seq![call] + after_call(stash, block_type, old(trap).trap_code(stash), g@),
        ) && (old(trap).traps_ok() ==> stopped_in(
            old(f).emitted(),
            final(f).emitted(),
            old(f).handed(),
            final(f).handed(),
            seq![call] + after_call(stash, block_type, old(trap).trap_code(stash), g@),
        ) && final(f).refused() == Some(e)),
        old(f).accepts_all() && old(trap).traps_ok() ==> res is Ok && final(f).accepts_all(),
{
    let ghost e0 = f.emitted();
    let ghost h0 = f.handed();
    let ghost c = seq![call];
    let ghost ac = after_call(stash, block_type, trap.trap_code(stash), g@);
    let ghost z = Seq::<Instr>::empty();
    proof {
        assert(e0 + (c + ac).take(0) =~= e0);
        assert(h0 + (c + ac).take(0) =~= h0);
        assert(c + ac + z =~= c + ac);
    }
    match f.instruction(call) {
        Ok(()) => {},
        Err(e) => {
            proof { refused_here(e0, h0, c + ac, 0, f.emitted(), f.handed()); }
            return Err(e);
        },
    }
    assert(f.emitted() =~= e0 + c && f.handed() =~= h0 + c);
    let r = emit_after_call(stash, block_type, trap, g, f);
    proof {
        if r is Err {
            lemma_within_concat(e0, h0, c, ac, z, f.emitted(), f.handed());
            if old(trap).traps_ok() {
                lemma_stopped_concat(e0, h0, c, ac, z, f.emitted(), f.handed());
            }
        } else {
            assert(f.emitted() =~= e0 + (c + ac));
            assert(f.handed() =~= h0 + (c + ac));
        }
    }
    r
}

impl RetCleaner {
    /// Transforms an instruction of function `cur_func`; `stash` is a local
    /// for the status of calls, and `trap` emits the code to run when a
    /// callee did not return normally.  An error of the sink or the trap
    /// ends the transformation: it is returned as it came, and nothing more
    /// is handed to the sink.
    pub fn inst<E, S: InstructionSink<E>, T: Trap<E>>(
        &self,
        cur_func: u32,
        stash: u32,
        i: Instr,
        f: &mut S,
        trap: &mut T,
    ) -> (res: Result<(), E>)
        requires
            self.can_inst(cur_func, i),
        ensures
            res matches Ok(_) ==> final(f).emitted() == old(f).emitted() + self.spec_inst(
                cur_func,
                stash,
                i,
                old(trap).trap_code(stash),
            ) && final(f).handed() == old(f).handed() + self.spec_inst(cur_func, stash, i, old(trap).trap_code(stash)),
            res matches Err(e) ==> stopped_within(
                old(f).emitted(),
                final(f).emitted(),
                old(f).handed(),
                final(f).handed(),
                self.spec_inst(cur_func, stash, i, old(trap).trap_code(stash)),
            ) && (old(trap).traps_ok() ==> stopped_in(
                old(f).emitted(),
                final(f).emitted(),
                old(f).handed(),
                final(f).handed(),
                self.spec_inst(cur_func, stash, i, old(trap).trap_code(stash)),
            ) && final(f).refused() == Some(e)),
            (res is Err && !(i is Call || i is CallRef || i is CallIndirect)) ==> stopped_in(
                old(f).emitted(),
                final(f).emitted(),
                old(f).handed(),
                final(f).handed(),
                self.spec_inst(cur_func, stash, i, old(trap).trap_code(stash)),
            ) && final(f).refused() == Some(res->Err_0),
            old(f).accepts_all() && old(trap).traps_ok() ==> res is Ok && final(f).accepts_all(),
            !(i is Call || i is CallRef || i is CallIndirect) ==> *final(trap) == *old(trap),
    {
        proof {
            assert(self.globals@.len() == self.spec_globals().len());
        }
        let ghost tc = trap.trap_code(stash);
        let ghost out = self.spec_inst(cur_func, stash, i, tc);
        match i {
            Instr::Return => {
                let g = &self.globals[self.func_types[cur_func as usize] as usize];
                assert(g@ == self.spec_globals()[self.spec_func_types()[cur_func as int] as int]);
                let ghost sr = global_sets_rev(g@);
                assert(out == sr + seq![Instr::I32Const(-1i32), Instr::Return]);
                let mut k: usize = g.len();
                while k > 0
                    invariant
                        k <= g@.len(),
                        sr == global_sets_rev(g@),
                        out == sr + seq![Instr::I32Const(-1i32), Instr::Return],
                        out == self.spec_inst(cur_func, stash, i, old(trap).trap_code(stash)),
                        f.emitted() == old(f).emitted() + sr.take(g@.len() - k),
                        f.handed() == old(f).handed() + sr.take(g@.len() - k),
                        old(f).accepts_all() ==> f.accepts_all(),
                    decreases k,
                {
                    k -= 1;
                    match f.instruction(Instr::GlobalSet(g[k])) {
                        Ok(()) => {},
                        Err(e) => {
                            proof {
                                assert(out.take(g@.len() - k - 1) =~= sr.take(g@.len() - k - 1));
                                assert(f.emitted() =~= old(f).emitted() + (out).take(g@.len() - k - 1));
                                assert(f.handed() =~= old(f).handed() + (out).take((g@.len() - k - 1) + 1));
                                lemma_stopped_at(old(f).emitted(), old(f).handed(), out, g@.len() - k - 1);
                            }
                            return Err(e);
                        },
                    }
                    assert(f.emitted() =~= old(f).emitted() + sr.take(g@.len() - k));
                    assert(f.handed() =~= old(f).handed() + sr.take(g@.len() - k));
                }
                assert(sr.take(g@.len() as int) =~= sr);
                assert(out.take(sr.len() as int) =~= sr);
                match f.instruction(Instr::I32Const(-1)) {
                    Ok(()) => {},
                    Err(e) => {
                        proof {
                            assert(f.emitted() =~= old(f).emitted() + (out).take(sr.len() as int));
                            assert(f.handed() =~= old(f).handed() + (out).take((sr.len() as int) + 1));
                            lemma_stopped_at(old(f).emitted(), old(f).handed(), out, sr.len() as int);
                        }
                        return Err(e);
                    },
                }
                assert(f.emitted() =~= old(f).emitted() + out.take(sr.len() + 1 as int));
                assert(f.handed() =~= old(f).handed() + out.take(sr.len() + 1 as int));
                match f.instruction(Instr::Return) {
                    Ok(()) => {},
                    Err(e) => {
                        proof {
                            assert(f.emitted() =~= old(f).emitted() + (out).take(sr.len() + 1 as int));
                            assert(f.handed() =~= old(f).handed() + (out).take((sr.len() + 1 as int) + 1));
                            lemma_stopped_at(old(f).emitted(), old(f).handed(), out, sr.len() + 1 as int);
                        }
                        return Err(e);
                    },
                }
                assert(f.emitted() =~= old(f).emitted() + out);
                assert(f.handed() =~= old(f).handed() + out);
                Ok(())
            },
            Instr::Call(a) => {
                let ft = self.func_types[a as usize] as usize;
                let g = &self.globals[ft];
                assert(g@ == self.spec_globals()[ft as int]);
                emit_checked_call(Instr::Call(a), stash, self.block_types[ft], trap, g, f)
            },
            Instr::CallRef(a) => {
                let g = &self.globals[a as usize];
                assert(g@ == self.spec_globals()[a as int]);
                emit_checked_call(Instr::CallRef(a), stash, self.block_types[a as usize], trap, g, f)
            },
            Instr::CallIndirect { type_index, table_index } => {
                let g = &self.globals[type_index as usize];
                assert(g@ == self.spec_globals()[type_index as int]);
                emit_checked_call(
                    Instr::CallIndirect { type_index, table_index },
                    stash,
                    self.block_types[type_index as usize],
                    trap,
                    g,
                    f,
                )
            },
            i => {
                let ghost j = i;
                let r = f.instruction(i);
                proof {
                    if r is Ok {
                        assert(f.emitted() =~= old(f).emitted() + out);
                        assert(f.handed() =~= old(f).handed() + out);
                    } else {
                        assert(f.emitted() =~= old(f).emitted() + (out).take(0));
                        assert(f.handed() =~= old(f).handed() + (out).take(1));
                        lemma_stopped_at(old(f).emitted(), old(f).handed(), out, 0);
                        assert(old(f).emitted() + out.take(0) =~= old(f).emitted());
                    }
                }
                r
            },
        }
    }
}

proof fn lemma_results_before_mono(f: Seq<FuncType>, i: int, j: int)
    requires
        0 <= i <= j,
    ensures
        results_before(f, i) <= results_before(f, j),
    decreases j,
{
    if i < j {
        lemma_results_before_mono(f, i, j - 1);
    }
}

/// A copy of `a`.
fn copy_vals(a: &Vec<ValType>) -> (res: Vec<ValType>)
    ensures
        res@ == a@,
{
    let empty: Vec<ValType> = Vec::new();
    let res = concat_vals(a, &empty);
    assert(res@ =~= a@);
    res
}

impl RetCleaner {
    /// Prepares the transformation: every function type in `f` comes to
    /// return a single `i32`; one global is allocated in `globals` per result
    /// of each original type, type by type, and one block type per original
    /// type in `new_types`, yielding its results.
    pub fn new(
        f: &mut Vec<FuncType>,
        func_types: &[u32],
        globals: &mut Tracker<GlobalType>,
        new_types: &mut Tracker<FuncType>,
    ) -> (res: Self)
        requires
            old(globals).idx + results_before(old(f)@, old(f)@.len() as int) <= u32::MAX,
            old(new_types).idx + old(f)@.len() <= u32::MAX,
        ensures
            final(f)@.len() == old(f)@.len(),
            forall|i: int| 0 <= i < old(f)@.len() ==> {
                &&& (#[trigger] final(f)@[i]).params@ == old(f)@[i].params@
                &&& final(f)@[i].results@ == seq![ValType::I32]
            },
            res.spec_types().len() == old(f)@.len(),
            forall|i: int| 0 <= i < old(f)@.len() ==> #[trigger] res.spec_types()[i] == old(f)@[i].results@,
            final(globals).idx == old(globals).idx + results_before(old(f)@, old(f)@.len() as int),
            final(globals).all@ == old(globals).all@ + result_globals(old(f)@, old(f)@.len() as int),
            res.spec_globals().len() == old(f)@.len(),
            forall|i: int| 0 <= i < old(f)@.len() ==> #[trigger] res.spec_globals()[i] == Seq::new(
                old(f)@[i].results@.len(),
                |j: int| (old(globals).idx + results_before(old(f)@, i) + j) as u32,
            ),
            final(new_types).idx == old(new_types).idx + old(f)@.len(),
            final(new_types).all@.len() == old(new_types).all@.len() + old(f)@.len(),
            forall|i: int| 0 <= i < old(new_types).all@.len() ==> #[trigger] final(new_types).all@[i] == old(new_types).all@[i],
            forall|i: int| 0 <= i < old(f)@.len() ==> {
                &&& (#[trigger] final(new_types).all@[old(new_types).all@.len() + i]).params@ == Seq::<ValType>::empty()
                &&& final(new_types).all@[old(new_types).all@.len() + i].results@ == old(f)@[i].results@
            },
            res.spec_block_types() == Seq::new(old(f)@.len(), |i: int| (old(new_types).idx + i) as u32),
            res.spec_func_types() == func_types@,
    {
        let n = f.len();
        let ghost f0 = f@;
        let mut types: Vec<Vec<ValType>> = Vec::new();
        let mut i: usize = 0;
        while i < n
            invariant
                n == f@.len(),
                f0.len() == n,
                i <= n,
                types@.len() == i,
                forall|j: int| 0 <= j < i ==> (#[trigger] types@[j])@ == f0[j].results@,
                forall|j: int| i <= j < n ==> #[trigger] f@[j] == f0[j],
                forall|j: int| 0 <= j < i ==> {
                    &&& (#[trigger] f@[j]).params@ == f0[j].params@
                    &&& f@[j].results@ == seq![ValType::I32]
                },
            decreases n - i,
        {
            let results = copy_vals(&f[i].results);
            let params = copy_vals(&f[i].params);
            types.push(results);
            let r = vec![ValType::I32];
            assert(r@ =~= seq![ValType::I32]);
            f.set(i, FuncType { params, results: r });
            i += 1;
        }
        let ghost g0 = globals.all@;
        let mut ids: Vec<Vec<u32>> = Vec::new();
        let mut i: usize = 0;
        while i < n
            invariant
                n == f0.len(),
                i <= n,
                types@.len() == n,
                forall|j: int| 0 <= j < n ==> (#[trigger] types@[j])@ == f0[j].results@,
                globals.idx == old(globals).idx + results_before(f0, i as int),
                globals.all@ == g0 + result_globals(f0, i as int),
                g0 == old(globals).all@,
                old(globals).idx + results_before(f0, n as int) <= u32::MAX,
                ids@.len() == i,
                forall|j: int| 0 <= j < i ==> (#[trigger] ids@[j])@ == Seq::new(
                    f0[j].results@.len(),
                    |k: int| (old(globals).idx + results_before(f0, j) + k) as u32,
                ),
            decreases n - i,
        {
            let rs = &types[i];
            let mut row: Vec<u32> = Vec::new();
            let mut k: usize = 0;
            let ghost base = globals.idx as int;
            let ghost all_before = globals.all@;
            proof {
                lemma_results_before_mono(f0, i + 1, n as int);
            }
            while k < rs.len()
                invariant
                    k <= rs@.len(),
                    rs@ == f0[i as int].results@,
                    base == old(globals).idx + results_before(f0, i as int),
                    base + rs@.len() <= u32::MAX,
                    globals.idx == base + k,
                    globals.all@ == all_before + rs@.take(k as int).map_values(
                        |t: ValType| GlobalType { val_type: t, mutable: true, shared: false },
                    ),
                    row@ == Seq::new(k as nat, |m: int| (base + m) as u32),
                decreases rs@.len() - k,
            {
                let id = globals.push(GlobalType { val_type: rs[k], mutable: true, shared: false });
                row.push(id);
                assert(rs@.take(k + 1) =~= rs@.take(k as int).push(rs@[k as int]));
                assert(globals.all@ =~= all_before + rs@.take(k + 1).map_values(
                    |t: ValType| GlobalType { val_type: t, mutable: true, shared: false },
                ));
                assert(row@ =~= Seq::new((k + 1) as nat, |m: int| (base + m) as u32));
                k += 1;
            }
            assert(rs@.take(rs@.len() as int) =~= rs@);
            ids.push(row);
            assert(globals.all@ =~= g0 + result_globals(f0, i + 1));
            i += 1;
        }
        let ghost t0 = new_types.all@;
        let mut block_types: Vec<u32> = Vec::new();
        let mut i: usize = 0;
        while i < n
            invariant
                n == f0.len(),
                i <= n,
                types@.len() == n,
                forall|j: int| 0 <= j < n ==> (#[trigger] types@[j])@ == f0[j].results@,
                new_types.idx == old(new_types).idx + i,
                old(new_types).idx + n <= u32::MAX,
                t0 == old(new_types).all@,
                new_types.all@.len() == t0.len() + i,
                forall|j: int| 0 <= j < t0.len() ==> #[trigger] new_types.all@[j] == t0[j],
                forall|j: int| 0 <= j < i ==> {
                    &&& (#[trigger] new_types.all@[t0.len() + j]).params@ == Seq::<ValType>::empty()
                    &&& new_types.all@[t0.len() + j].results@ == f0[j].results@
                },
                block_types@ == Seq::new(i as nat, |j: int| (old(new_types).idx + j) as u32),
            decreases n - i,
        {
            let results = copy_vals(&types[i]);
            let bt = new_types.push(FuncType { params: Vec::new(), results });
            block_types.push(bt);
            assert(block_types@ =~= Seq::new((i + 1) as nat, |j: int| (old(new_types).idx + j) as u32));
            i += 1;
        }
        let res = RetCleaner {
            types,
            block_types,
            globals: ids,
            func_types: vstd::slice::slice_to_vec(func_types),
        };
        assert(res.spec_types() =~= Seq::new(n as nat, |j: int| f0[j].results@));
        res
    }
}

/// Returns and calls agree on where results travel: for a function `f`, a
/// `return` in `f` stores its `n` results into globals, last result first,
/// then returns status `-1`; a call of `f` from any function, once the
/// status is `-1`, loads the same globals in the opposite order, so the
/// results come back in their order, and the trap runs otherwise.
pub proof fn lemma_results_round_trip(rc: RetCleaner, f: u32, caller: u32, stash: u32, trap: Seq<Instr>)
    requires
        rc.can_inst(f, Instr::Return),
        rc.can_inst(caller, Instr::Call(f)),
    ensures
        ({
            let n = rc.spec_globals()[rc.spec_func_types()[f as int] as int].len() as int;
            let ret = rc.spec_inst(f, stash, Instr::Return, trap);
            let call = rc.spec_inst(caller, stash, Instr::Call(f), trap);
            &&& ret.len() == n + 2
            &&& ret[n] == Instr::I32Const(-1i32)
            &&& ret[n + 1] == Instr::Return
            &&& call.len() == n + trap.len() + 7
            &&& call[0] == Instr::Call(f)
            &&& call[1] == Instr::LocalTee(stash)
            &&& call[2] == Instr::I32Const(-1i32)
            &&& call[3] == Instr::I32Ne
            &&& call.subrange(5, 5 + trap.len() as int) == trap
            &&& call[5 + trap.len() as int] == Instr::Else
            &&& call[n + trap.len() as int + 6] == Instr::End
            &&& forall|k: int|
                0 <= k < n ==> (#[trigger] ret[k] is GlobalSet) && call[6 + trap.len() as int + (n - 1 - k)]
                    == Instr::GlobalGet(ret[k]->GlobalSet_0)
        }),
{
    let g = rc.spec_globals()[rc.spec_func_types()[f as int] as int];
    let n = g.len() as int;
    let ret = rc.spec_inst(f, stash, Instr::Return, trap);
    let call = rc.spec_inst(caller, stash, Instr::Call(f), trap);
    let bt = rc.spec_block_types()[rc.spec_func_types()[f as int] as int];
    let head = seq![
        Instr::LocalTee(stash),
        Instr::I32Const(-1i32),
        Instr::I32Ne,
        Instr::If(BlockType::FunctionType(bt)),
    ];
    assert(call == seq![Instr::Call(f)] + head + trap + seq![Instr::Else] + global_gets(g) + seq![Instr::End]);
    assert(ret == global_sets_rev(g) + seq![Instr::I32Const(-1i32), Instr::Return]);
    assert(call.subrange(5, 5 + trap.len() as int) =~= trap);
    assert forall|k: int| 0 <= k < n implies (#[trigger] ret[k] is GlobalSet) && call[6 + trap.len() as int + (n - 1 - k)]
        == Instr::GlobalGet(ret[k]->GlobalSet_0) by {
        assert(ret[k] == global_sets_rev(g)[k]);
        assert(call[6 + trap.len() as int + (n - 1 - k)] == global_gets(g)[n - 1 - k]);
    }
}

/// `local.get k` for `k` from `0` up to `n` (as a 32-bit index).
pub open spec fn arg_gets(n: nat) -> Seq<Instr> {
    Seq::new(n, |k: int| Instr::LocalGet(k as u32))
}

/// The body of the shim for function `shimmed` of type `t`, whose type has
/// `np` parameters and whose results are held by globals `g`.
pub open spec fn ret_shim(np: nat, shimmed: u32, g: Seq<u32>, kind: ShimKind) -> Seq<Instr> {
    let head = arg_gets(np) + seq![Instr::Call(shimmed)];
    match kind {
        ShimKind::Import => head + global_sets(g) + seq![Instr::I32Const(-1i32), Instr::Return],
        ShimKind::Export => head + global_gets(g) + seq![Instr::Return],
    }
}

impl<E> Shimmer<E> for RetCleaner {
    open spec fn can_shim(&self, shimmed: u32, func_types: Seq<u32>, types: Seq<FuncType>) -> bool {
        &&& shimmed < func_types.len()
        &&& func_types[shimmed as int] < types.len()
        &&& func_types[shimmed as int] < self.spec_globals().len()
    }

    /// Loads the parameters and calls `shimmed`; an import shim then stores
    /// the results in their globals and returns `-1`, an export shim loads
    /// them from their globals and returns.
    fn shim<S: InstructionSink<E>>(
        &self,
        shimmed: u32,
        func_types: &[u32],
        types: &[FuncType],
        kind: ShimKind,
        sink: &mut S,
    ) -> (res: Result<(), E>)
        ensures
            res matches Ok(_) ==> final(sink).emitted() == old(sink).emitted() + ret_shim(
                types@[func_types@[shimmed as int] as int].params@.len(),
                shimmed,
                self.spec_globals()[func_types@[shimmed as int] as int],
                kind,
            ) && final(sink).handed() == old(sink).handed() + ret_shim(
                types@[func_types@[shimmed as int] as int].params@.len(),
                shimmed,
                self.spec_globals()[func_types@[shimmed as int] as int],
                kind,
            ),
            res matches Err(e) ==> stopped_in(old(sink).emitted(), final(sink).emitted(), old(sink).handed(), final(sink).handed(), ret_shim(
                types@[func_types@[shimmed as int] as int].params@.len(),
                shimmed,
                self.spec_globals()[func_types@[shimmed as int] as int],
                kind,
            )) && final(sink).refused() == Some(e),
            old(sink).accepts_all() ==> res is Ok && final(sink).accepts_all(),
    {
        let t = func_types[shimmed as usize] as usize;
        let np = types[t].params.len();
        proof {
            assert(self.globals@.len() == self.spec_globals().len());
        }
        let ghost gv = self.spec_globals()[t as int];
        let ghost out = ret_shim(np as nat, shimmed, gv, kind);
        let ghost args = arg_gets(np as nat);
        let ghost tail = match kind {
            ShimKind::Import => global_sets(gv) + seq![Instr::I32Const(-1i32), Instr::Return],
            ShimKind::Export => global_gets(gv) + seq![Instr::Return],
        };
        assert(out =~= args + seq![Instr::Call(shimmed)] + tail);
        let mut p: usize = 0;
        while p < np
            invariant
                p <= np,
                sink.emitted() == old(sink).emitted() + arg_gets(np as nat).take(p as int),
                sink.handed() == old(sink).handed() + arg_gets(np as nat).take(p as int),
                old(sink).accepts_all() ==> sink.accepts_all(),
                args == arg_gets(np as nat),
                out == args + seq![Instr::Call(shimmed)] + tail,
                out == ret_shim(np as nat, shimmed, gv, kind),
                gv == self.spec_globals()[t as int],
                t == func_types@[shimmed as int],
                np == types@[t as int].params@.len(),
            decreases np - p,
        {
            match sink.instruction(Instr::LocalGet(p as u32)) {
                Ok(()) => {},
                Err(e) => {
                    proof {
                        assert(out.take(p as int) =~= args.take(p as int));
                        assert(sink.emitted() =~= old(sink).emitted() + (out).take(p as int));
                        assert(sink.handed() =~= old(sink).handed() + (out).take((p as int) + 1));
                        lemma_stopped_at(old(sink).emitted(), old(sink).handed(), out, p as int);
                    }
                    return Err(e);
                },
            }
            assert(sink.emitted() =~= old(sink).emitted() + arg_gets(np as nat).take(p + 1));
            assert(sink.handed() =~= old(sink).handed() + arg_gets(np as nat).take(p + 1));
            p += 1;
        }
        assert(arg_gets(np as nat).take(np as int) =~= arg_gets(np as nat));
        assert(out.take(np as int) =~= args);
        match sink.instruction(Instr::Call(shimmed)) {
            Ok(()) => {},
            Err(e) => {
                proof {
                    assert(sink.emitted() =~= old(sink).emitted() + (out).take(np as int));
                    assert(sink.handed() =~= old(sink).handed() + (out).take((np as int) + 1));
                    lemma_stopped_at(old(sink).emitted(), old(sink).handed(), out, np as int);
                }
                return Err(e);
            },
        }
        let g = &self.globals[t];
        assert(g@ == self.spec_globals()[t as int]);
        let ghost head = args + seq![Instr::Call(shimmed)];
        assert(sink.emitted() =~= old(sink).emitted() + head);
        assert(sink.handed() =~= old(sink).handed() + head);
        match kind {
            ShimKind::Import => {
                let ghost gs = global_sets(gv);
                let ghost rest = seq![Instr::I32Const(-1i32), Instr::Return];
                assert(out =~= head + gs + rest);
                match emit_global_ops(false, g, sink) {
                    Ok(()) => {},
                    Err(e) => {
                        proof { lemma_stopped_concat(old(sink).emitted(), old(sink).handed(), head, gs, rest, sink.emitted(), sink.handed()); }
                        return Err(e);
                    },
                }
                assert(sink.emitted() =~= old(sink).emitted() + out.take((head + gs).len() as int));
                assert(sink.handed() =~= old(sink).handed() + out.take((head + gs).len() as int));
                match sink.instruction(Instr::I32Const(-1)) {
                    Ok(()) => {},
                    Err(e) => {
                        proof {
                            assert(sink.emitted() =~= old(sink).emitted() + (out).take((head + gs).len() as int));
                            assert(sink.handed() =~= old(sink).handed() + (out).take(((head + gs).len() as int) + 1));
                            lemma_stopped_at(old(sink).emitted(), old(sink).handed(), out, (head + gs).len() as int);
                        }
                        return Err(e);
                    },
                }
                assert(sink.emitted() =~= old(sink).emitted() + out.take((head + gs).len() + 1 as int));
                assert(sink.handed() =~= old(sink).handed() + out.take((head + gs).len() + 1 as int));
                match sink.instruction(Instr::Return) {
                    Ok(()) => {},
                    Err(e) => {
                        proof {
                            assert(sink.emitted() =~= old(sink).emitted() + (out).take((head + gs).len() + 1 as int));
                            assert(sink.handed() =~= old(sink).handed() + (out).take(((head + gs).len() + 1 as int) + 1));
                            lemma_stopped_at(old(sink).emitted(), old(sink).handed(), out, (head + gs).len() + 1 as int);
                        }
                        return Err(e);
                    },
                }
            },
            ShimKind::Export => {
                let ghost gg = global_gets(gv);
                let ghost rest = seq![Instr::Return];
                assert(out =~= head + gg + rest);
                match emit_global_ops(true, g, sink) {
                    Ok(()) => {},
                    Err(e) => {
                        proof { lemma_stopped_concat(old(sink).emitted(), old(sink).handed(), head, gg, rest, sink.emitted(), sink.handed()); }
                        return Err(e);
                    },
                }
                assert(sink.emitted() =~= old(sink).emitted() + out.take((head + gg).len() as int));
                assert(sink.handed() =~= old(sink).handed() + out.take((head + gg).len() as int));
                match sink.instruction(Instr::Return) {
                    Ok(()) => {},
                    Err(e) => {
                        proof {
                            assert(sink.emitted() =~= old(sink).emitted() + (out).take((head + gg).len() as int));
                            assert(sink.handed() =~= old(sink).handed() + (out).take(((head + gg).len() as int) + 1));
                            lemma_stopped_at(old(sink).emitted(), old(sink).handed(), out, (head + gg).len() as int);
                        }
                        return Err(e);
                    },
                }
            },
        }
        assert(sink.emitted() =~= old(sink).emitted() + ret_shim(np as nat, shimmed, g@, kind));
        assert(sink.handed() =~= old(sink).handed() + ret_shim(np as nat, shimmed, g@, kind));
        Ok(())
    }
}

} // verus!
