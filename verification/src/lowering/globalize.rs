//! Globals become parameters, results and locals.
//!
//! Every function type gains one parameter and one result per global; a
//! function keeps the globals in the locals right after its parameters,
//! hands them to every callee and takes them back.

use vstd::prelude::*;
use crate::instr::{FuncType, GlobalType, Instr, ValType};
use crate::rewrite::{ShimKind, Shimmer};
use crate::sink::{lemma_stopped_at, lemma_stopped_concat, stopped_in, InstructionSink};

verus! {

/// The globalizing transformation, for a module with `num_globals` globals.
pub struct Globalize {
    num_globals: u32,
}

/// `a` followed by `b`.
pub fn concat_vals(a: &Vec<ValType>, b: &Vec<ValType>) -> (res: Vec<ValType>)
    ensures
        res@ == a@ + b@,
{
    let mut res: Vec<ValType> = Vec::new();
    let mut i: usize = 0;
    while i < a.len()
        invariant
            i <= a@.len(),
            res@ == a@.take(i as int),
        decreases a@.len() - i,
    {
        res.push(a[i]);
        assert(res@ =~= a@.take(i + 1));
        i += 1;
    }
    let mut j: usize = 0;
    while j < b.len()
        invariant
            j <= b@.len(),
            res@ == a@ + b@.take(j as int),
        decreases b@.len() - j,
    {
        res.push(b[j]);
        assert(res@ =~= a@ + b@.take(j + 1));
        j += 1;
    }
    assert(a@.take(a@.len() as int) =~= a@);
    assert(b@.take(b@.len() as int) =~= b@);
    res
}

/// The value types of globals `g`, in order.
pub open spec fn global_val_types(g: Seq<GlobalType>) -> Seq<ValType> {
    g.map_values(|x: GlobalType| x.val_type)
}

/// Instructions `local.get (base + k)` for `k` from `0` up to `n`.
pub open spec fn gets_up(base: u32, n: u32) -> Seq<Instr> {
    Seq::new(n as nat, |k: int| Instr::LocalGet((base + k) as u32))
}

/// Instructions `local.set (base + k)` for `k` from `n - 1` down to `0`.
pub open spec fn sets_down(base: u32, n: u32) -> Seq<Instr> {
    Seq::new(n as nat, |k: int| Instr::LocalSet((base + n - 1 - k) as u32))
}

/// Instructions `op(k)` for `k` from `0` up to `n`, with `op` one of
/// `global.get` (`get`) and `global.set`.
pub open spec fn globals_up(get: bool, n: u32) -> Seq<Instr> {
    Seq::new(n as nat, |k: int| if get { Instr::GlobalGet(k as u32) } else { Instr::GlobalSet(k as u32) })
}

impl Globalize {
    pub closed spec fn spec_num_globals(&self) -> u32 {
        self.num_globals
    }

    /// The local that local `a` becomes in a function with `num_params`
    /// parameters: locals after the parameters move up past the globals.
    pub open spec fn local(&self, num_params: u32, a: u32) -> u32 {
        if a >= num_params {
            (a + self.spec_num_globals()) as u32
        } else {
            a
        }
    }

    /// Whether transforming `i` stays within the index space.
    pub open spec fn fits(&self, num_params: u32, i: Instr) -> bool {
        match i {
            Instr::LocalGet(a) => a >= num_params ==> a + self.spec_num_globals() <= u32::MAX,
            Instr::LocalSet(a) => a >= num_params ==> a + self.spec_num_globals() <= u32::MAX,
            Instr::LocalTee(a) => a >= num_params ==> a + self.spec_num_globals() <= u32::MAX,
            Instr::GlobalGet(a) => a + num_params <= u32::MAX,
            Instr::GlobalSet(a) => a + num_params <= u32::MAX,
            Instr::Call(_) | Instr::CallIndirect { .. } | Instr::CallRef(_) | Instr::ReturnCall(_)
            | Instr::ReturnCallIndirect { .. } | Instr::ReturnCallRef(_) | Instr::Return =>
                self.spec_num_globals() == 0 || num_params + self.spec_num_globals() - 1 <= u32::MAX,
            _ => true,
        }
    }

    /// What `i` becomes in a function with `num_params` parameters.
    pub open spec fn spec_inst(&self, num_params: u32, i: Instr) -> Seq<Instr> {
        let ng = self.spec_num_globals();
        match i {
            Instr::LocalGet(a) => seq![Instr::LocalGet(self.local(num_params, a))],
            Instr::LocalSet(a) => seq![Instr::LocalSet(self.local(num_params, a))],
            Instr::LocalTee(a) => seq![Instr::LocalTee(self.local(num_params, a))],
            Instr::GlobalGet(a) => seq![Instr::LocalGet((a + num_params) as u32)],
            Instr::GlobalSet(a) => seq![Instr::LocalSet((a + num_params) as u32)],
            Instr::Call(_) | Instr::CallIndirect { .. } | Instr::CallRef(_) =>
                gets_up(num_params, ng) + seq![i] + sets_down(num_params, ng),
            Instr::ReturnCall(_) | Instr::ReturnCallIndirect { .. } | Instr::ReturnCallRef(_) | Instr::Return =>
                gets_up(num_params, ng) + seq![i],
            _ => seq![i],
        }
    }

    /// Prepares the transformation: every function type in `a` gains the
    /// value types of the globals `g` as trailing parameters and results.
    pub fn new(a: &mut Vec<FuncType>, g: &[GlobalType]) -> (res: Self)
        ensures
            res.spec_num_globals() == g@.len() as u32,
            final(a)@.len() == old(a)@.len(),
            forall|i: int| 0 <= i < old(a)@.len() ==> {
                &&& (#[trigger] final(a)@[i]).params@ == old(a)@[i].params@ + global_val_types(g@)
                &&& final(a)@[i].results@ == old(a)@[i].results@ + global_val_types(g@)
            },
    {
        let mut globals: Vec<ValType> = Vec::new();
        let mut k: usize = 0;
        while k < g.len()
            invariant
                k <= g@.len(),
                globals@ == global_val_types(g@.take(k as int)),
            decreases g@.len() - k,
        {
            globals.push(g[k].val_type);
            assert(globals@ =~= global_val_types(g@.take(k + 1)));
            k += 1;
        }
        assert(g@.take(g@.len() as int) =~= g@);
        let mut i: usize = 0;
        while i < a.len()
            invariant
                i <= a@.len(),
                a@.len() == old(a)@.len(),
                globals@ == global_val_types(g@),
                forall|j: int| i <= j < a@.len() ==> #[trigger] a@[j] == old(a)@[j],
                forall|j: int| 0 <= j < i ==> {
                    &&& (#[trigger] a@[j]).params@ == old(a)@[j].params@ + global_val_types(g@)
                    &&& a@[j].results@ == old(a)@[j].results@ + global_val_types(g@)
                },
            decreases a@.len() - i,
        {
            let params = concat_vals(&a[i].params, &globals);
            let results = concat_vals(&a[i].results, &globals);
            a.set(i, FuncType { params, results });
            i += 1;
        }
        Globalize { num_globals: g.len() as u32 }
    }

    /// Transforms one instruction of a function with `num_params` parameters
    /// and emits the result to `wrapped`.
    pub fn inst<E, S: InstructionSink<E>>(&self, num_params: u32, instruction: Instr, wrapped: &mut S) -> (res: Result<(), E>)
        requires
            self.fits(num_params, instruction),
        ensures
            res matches Ok(_) ==> final(wrapped).emitted() == old(wrapped).emitted() + self.spec_inst(num_params, instruction)
                && final(wrapped).handed() == old(wrapped).handed() + self.spec_inst(num_params, instruction),
            res matches Err(e) ==> stopped_in(old(wrapped).emitted(), final(wrapped).emitted(), old(wrapped).handed(), final(wrapped).handed(), self.spec_inst(num_params, instruction))
                && final(wrapped).refused() == Some(e),
            old(wrapped).accepts_all() ==> res is Ok && final(wrapped).accepts_all(),
    {
        let ng = self.num_globals;
        match instruction {
            Instr::LocalGet(a) => {
                let r = wrapped.instruction(Instr::LocalGet(if a >= num_params { a + ng } else { a }));
                proof {
                    if r is Ok {
                        assert(wrapped.emitted() =~= old(wrapped).emitted() + self.spec_inst(num_params, instruction));
                        assert(wrapped.handed() =~= old(wrapped).handed() + self.spec_inst(num_params, instruction));
                    } else {
                        assert(wrapped.emitted() =~= old(wrapped).emitted() + (self.spec_inst(num_params, instruction)).take(0));
                        assert(wrapped.handed() =~= old(wrapped).handed() + (self.spec_inst(num_params, instruction)).take(1));
                        lemma_stopped_at(old(wrapped).emitted(), old(wrapped).handed(), self.spec_inst(num_params, instruction), 0);
                    }
                }
                return r;
            },
            Instr::LocalSet(a) => {
                let r = wrapped.instruction(Instr::LocalSet(if a >= num_params { a + ng } else { a }));
                proof {
                    if r is Ok {
                        assert(wrapped.emitted() =~= old(wrapped).emitted() + self.spec_inst(num_params, instruction));
                        assert(wrapped.handed() =~= old(wrapped).handed() + self.spec_inst(num_params, instruction));
                    } else {
                        assert(wrapped.emitted() =~= old(wrapped).emitted() + (self.spec_inst(num_params, instruction)).take(0));
                        assert(wrapped.handed() =~= old(wrapped).handed() + (self.spec_inst(num_params, instruction)).take(1));
                        lemma_stopped_at(old(wrapped).emitted(), old(wrapped).handed(), self.spec_inst(num_params, instruction), 0);
                    }
                }
                return r;
            },
            Instr::LocalTee(a) => {
                let r = wrapped.instruction(Instr::LocalTee(if a >= num_params { a + ng } else { a }));
                proof {
                    if r is Ok {
                        assert(wrapped.emitted() =~= old(wrapped).emitted() + self.spec_inst(num_params, instruction));
                        assert(wrapped.handed() =~= old(wrapped).handed() + self.spec_inst(num_params, instruction));
                    } else {
                        assert(wrapped.emitted() =~= old(wrapped).emitted() + (self.spec_inst(num_params, instruction)).take(0));
                        assert(wrapped.handed() =~= old(wrapped).handed() + (self.spec_inst(num_params, instruction)).take(1));
                        lemma_stopped_at(old(wrapped).emitted(), old(wrapped).handed(), self.spec_inst(num_params, instruction), 0);
                    }
                }
                return r;
            },
            Instr::GlobalGet(a) => {
                let r = wrapped.instruction(Instr::LocalGet(a + num_params));
                proof {
                    if r is Ok {
                        assert(wrapped.emitted() =~= old(wrapped).emitted() + self.spec_inst(num_params, instruction));
                        assert(wrapped.handed() =~= old(wrapped).handed() + self.spec_inst(num_params, instruction));
                    } else {
                        assert(wrapped.emitted() =~= old(wrapped).emitted() + (self.spec_inst(num_params, instruction)).take(0));
                        assert(wrapped.handed() =~= old(wrapped).handed() + (self.spec_inst(num_params, instruction)).take(1));
                        lemma_stopped_at(old(wrapped).emitted(), old(wrapped).handed(), self.spec_inst(num_params, instruction), 0);
                    }
                }
                return r;
            },
            Instr::GlobalSet(a) => {
                let r = wrapped.instruction(Instr::LocalSet(a + num_params));
                proof {
                    if r is Ok {
                        assert(wrapped.emitted() =~= old(wrapped).emitted() + self.spec_inst(num_params, instruction));
                        assert(wrapped.handed() =~= old(wrapped).handed() + self.spec_inst(num_params, instruction));
                    } else {
                        assert(wrapped.emitted() =~= old(wrapped).emitted() + (self.spec_inst(num_params, instruction)).take(0));
                        assert(wrapped.handed() =~= old(wrapped).handed() + (self.spec_inst(num_params, instruction)).take(1));
                        lemma_stopped_at(old(wrapped).emitted(), old(wrapped).handed(), self.spec_inst(num_params, instruction), 0);
                    }
                }
                return r;
            },
            _ => {},
        }
        let ghost i = instruction;
        let is_call = matches!(instruction, Instr::Call(_) | Instr::CallIndirect { .. } | Instr::CallRef(_));
        let is_ret = matches!(instruction, Instr::ReturnCall(_) | Instr::ReturnCallIndirect { .. } | Instr::ReturnCallRef(_) | Instr::Return);
        if !is_call && !is_ret {
            let r = wrapped.instruction(instruction);
            proof {
                if r is Ok {
                    assert(wrapped.emitted() =~= old(wrapped).emitted() + self.spec_inst(num_params, i));
                    assert(wrapped.handed() =~= old(wrapped).handed() + self.spec_inst(num_params, i));
                } else {
                    assert(wrapped.emitted() =~= old(wrapped).emitted() + (self.spec_inst(num_params, i)).take(0));
                    assert(wrapped.handed() =~= old(wrapped).handed() + (self.spec_inst(num_params, i)).take(1));
                    lemma_stopped_at(old(wrapped).emitted(), old(wrapped).handed(), self.spec_inst(num_params, i), 0);
                }
            }
            return r;
        }
        let mut g: u32 = 0;
        while g < ng
            invariant
                g <= ng,
                ng == self.spec_num_globals(),
                ng == 0 || num_params + ng - 1 <= u32::MAX,
                wrapped.emitted() == old(wrapped).emitted() + gets_up(num_params, ng).take(g as int),
                wrapped.handed() == old(wrapped).handed() + gets_up(num_params, ng).take(g as int),
                old(wrapped).accepts_all() ==> wrapped.accepts_all(),
                is_call || is_ret,
                i == instruction,
                self.spec_inst(num_params, i) == gets_up(num_params, ng) + seq![i] + if is_call {
                    sets_down(num_params, ng)
                } else {
                    Seq::<Instr>::empty()
                },
            decreases ng - g,
        {
            match wrapped.instruction(Instr::LocalGet(g + num_params)) {
                Ok(()) => {},
                Err(e) => {
                    proof {
                        let out = self.spec_inst(num_params, i);
                        assert(out.take(g as int) =~= gets_up(num_params, ng).take(g as int));
                        assert(wrapped.emitted() =~= old(wrapped).emitted() + (out).take(g as int));
                        assert(wrapped.handed() =~= old(wrapped).handed() + (out).take((g as int) + 1));
                        lemma_stopped_at(old(wrapped).emitted(), old(wrapped).handed(), out, g as int);
                    }
                    return Err(e);
                },
            }
            assert(wrapped.emitted() =~= old(wrapped).emitted() + gets_up(num_params, ng).take(g + 1));
            assert(wrapped.handed() =~= old(wrapped).handed() + gets_up(num_params, ng).take(g + 1));
            g += 1;
        }
        assert(gets_up(num_params, ng).take(ng as int) =~= gets_up(num_params, ng));
        match wrapped.instruction(instruction) {
            Ok(()) => {},
            Err(e) => {
                proof {
                    let out = self.spec_inst(num_params, i);
                    assert(out.take(ng as int) =~= gets_up(num_params, ng));
                    assert(wrapped.emitted() =~= old(wrapped).emitted() + (out).take(ng as int));
                    assert(wrapped.handed() =~= old(wrapped).handed() + (out).take((ng as int) + 1));
                    lemma_stopped_at(old(wrapped).emitted(), old(wrapped).handed(), out, ng as int);
                }
                return Err(e);
            },
        }
        let ghost mid = wrapped.emitted();
        let ghost midh = wrapped.handed();
        if is_ret {
            assert(wrapped.emitted() =~= old(wrapped).emitted() + self.spec_inst(num_params, i));
            assert(wrapped.handed() =~= old(wrapped).handed() + self.spec_inst(num_params, i));
            return Ok(());
        }
        let mut k: u32 = 0;
        while k < ng
            invariant
                k <= ng,
                ng == self.spec_num_globals(),
                ng == 0 || num_params + ng - 1 <= u32::MAX,
                wrapped.emitted() == mid + sets_down(num_params, ng).take(k as int),
                wrapped.handed() == midh + sets_down(num_params, ng).take(k as int),
                old(wrapped).accepts_all() ==> wrapped.accepts_all(),
                is_call,
                i == instruction,
                mid == old(wrapped).emitted() + gets_up(num_params, ng) + seq![i],
                midh == old(wrapped).handed() + gets_up(num_params, ng) + seq![i],
                self.spec_inst(num_params, i) == gets_up(num_params, ng) + seq![i] + sets_down(num_params, ng),
            decreases ng - k,
        {
            match wrapped.instruction(Instr::LocalSet(ng - 1 - k + num_params)) {
                Ok(()) => {},
                Err(e) => {
                    proof {
                        let out = self.spec_inst(num_params, i);
                        assert(out.take(ng + 1 + k) =~= gets_up(num_params, ng) + seq![i] + sets_down(num_params, ng).take(k as int));
                        assert(wrapped.emitted() =~= old(wrapped).emitted() + out.take(ng + 1 + k));
                        assert(out.take(ng + 2 + k) =~= gets_up(num_params, ng) + seq![i] + sets_down(num_params, ng).take(k + 1));
                        assert(wrapped.handed() =~= old(wrapped).handed() + (out).take((ng + 1 + k) + 1));
                        lemma_stopped_at(old(wrapped).emitted(), old(wrapped).handed(), out, ng + 1 + k);
                    }
                    return Err(e);
                },
            }
            assert(wrapped.emitted() =~= mid + sets_down(num_params, ng).take(k + 1));
            assert(wrapped.handed() =~= midh + sets_down(num_params, ng).take(k + 1));
            k += 1;
        }
        assert(sets_down(num_params, ng).take(ng as int) =~= sets_down(num_params, ng));
        assert(wrapped.emitted() =~= old(wrapped).emitted() + self.spec_inst(num_params, i));
        assert(wrapped.handed() =~= old(wrapped).handed() + self.spec_inst(num_params, i));
        Ok(())
    }
}

/// Locals keep their meaning: in a function with `num_params` parameters,
/// `local.get`, `local.set` and `local.tee` of a local `a` all name the same
/// new local, the parameter itself or, past the parameters, the local
/// `num_globals` further up; `global.get` and `global.set` of global `a`
/// become `local.get` and `local.set` of the local right after the
/// parameters that holds it.
pub proof fn lemma_locals_renamed(g: Globalize, num_params: u32, a: u32)
    requires
        a >= num_params ==> a + g.spec_num_globals() <= u32::MAX,
        a + num_params <= u32::MAX,
    ensures
        ({
            let b: u32 = if a >= num_params { (a + g.spec_num_globals()) as u32 } else { a };
            &&& g.spec_inst(num_params, Instr::LocalGet(a)) == seq![Instr::LocalGet(b)]
            &&& g.spec_inst(num_params, Instr::LocalSet(a)) == seq![Instr::LocalSet(b)]
            &&& g.spec_inst(num_params, Instr::LocalTee(a)) == seq![Instr::LocalTee(b)]
            &&& g.spec_inst(num_params, Instr::GlobalGet(a)) == seq![Instr::LocalGet((a + num_params) as u32)]
            &&& g.spec_inst(num_params, Instr::GlobalSet(a)) == seq![Instr::LocalSet((a + num_params) as u32)]
        }),
{
}

/// Calls thread the globals through: before a call (direct, indirect or by
/// reference) the locals that hold the globals, right after the
/// parameters, are pushed in order, and after it they are set back from the
/// callee's extra results, last first; a return pushes them as extra
/// results.
pub proof fn lemma_calls_thread_globals(g: Globalize, num_params: u32, i: Instr)
    requires
        i is Call || i is CallIndirect || i is CallRef || i is Return || i is ReturnCall || i is ReturnCallIndirect
            || i is ReturnCallRef,
        g.fits(num_params, i),
    ensures
        ({
            let ng = g.spec_num_globals() as int;
            let out = g.spec_inst(num_params, i);
            let call = i is Call || i is CallIndirect || i is CallRef;
            &&& out.len() == if call { 2 * ng + 1 } else { ng + 1 }
            &&& out[ng] == i
            &&& forall|k: int| 0 <= k < ng ==> #[trigger] out[k] == Instr::LocalGet((num_params + k) as u32)
            &&& call ==> forall|k: int| 0 <= k < ng ==> #[trigger] out[2 * ng - k] == Instr::LocalSet((num_params + k) as u32)
        }),
{
    let ng = g.spec_num_globals();
    let out = g.spec_inst(num_params, i);
    if i is Call || i is CallIndirect || i is CallRef {
        assert(out == gets_up(num_params, ng) + seq![i] + sets_down(num_params, ng));
        assert forall|k: int| 0 <= k < ng implies #[trigger] out[2 * ng - k] == Instr::LocalSet((num_params + k) as u32) by {
            assert(out[2 * ng - k] == sets_down(num_params, ng)[ng - 1 - k]);
        }
    } else {
        assert(out == gets_up(num_params, ng) + seq![i]);
    }
}

/// The body of the shim for function `shimmed` whose type has `np` parameters.
pub open spec fn globalize_shim(ng: u32, np: u32, shimmed: u32, kind: ShimKind) -> Seq<Instr> {
    let args = gets_up(0, np);
    match kind {
        ShimKind::Import => args + globals_up(false, ng) + seq![Instr::Call(shimmed)] + globals_up(true, ng) + seq![Instr::Return],
        ShimKind::Export => args + globals_up(true, ng) + seq![Instr::Call(shimmed)] + globals_up(false, ng) + seq![Instr::Return],
    }
}

/// Emits `op(k)` for `k` from `0` up to `n`.
fn emit_globals<E, S: InstructionSink<E>>(get: bool, n: u32, sink: &mut S) -> (res: Result<(), E>)
    ensures
        res matches Ok(_) ==> final(sink).emitted() == old(sink).emitted() + globals_up(get, n)
                && final(sink).handed() == old(sink).handed() + globals_up(get, n),
        res matches Err(e) ==> stopped_in(old(sink).emitted(), final(sink).emitted(), old(sink).handed(), final(sink).handed(), globals_up(get, n))
            && final(sink).refused() == Some(e),
        old(sink).accepts_all() ==> res is Ok && final(sink).accepts_all(),
{
    let mut k: u32 = 0;
    while k < n
        invariant
            k <= n,
            sink.emitted() == old(sink).emitted() + globals_up(get, n).take(k as int),
            sink.handed() == old(sink).handed() + globals_up(get, n).take(k as int),
            old(sink).accepts_all() ==> sink.accepts_all(),
        decreases n - k,
    {
        match sink.instruction(if get { Instr::GlobalGet(k) } else { Instr::GlobalSet(k) }) {
            Ok(()) => {},
            Err(e) => {
                proof {
                    assert(sink.emitted() =~= old(sink).emitted() + (globals_up(get, n)).take(k as int));
                    assert(sink.handed() =~= old(sink).handed() + (globals_up(get, n)).take((k as int) + 1));
                    lemma_stopped_at(old(sink).emitted(), old(sink).handed(), globals_up(get, n), k as int);
                }
                return Err(e);
            },
        }
        assert(sink.emitted() =~= old(sink).emitted() + globals_up(get, n).take(k + 1));
        assert(sink.handed() =~= old(sink).handed() + globals_up(get, n).take(k + 1));
        k += 1;
    }
    assert(globals_up(get, n).take(n as int) =~= globals_up(get, n));
    Ok(())
}

impl<E> Shimmer<E> for Globalize {
    open spec fn can_shim(&self, shimmed: u32, func_types: Seq<u32>, types: Seq<FuncType>) -> bool {
        shimmed < func_types.len() && func_types[shimmed as int] < types.len()
    }

    /// Loads the parameters, passes the globals in and out around a call of
    /// `shimmed`, and returns.
    fn shim<S: InstructionSink<E>>(
        &self,
        shimmed: u32,
        func_types: &[u32],
        types: &[FuncType],
        kind: ShimKind,
        sink: &mut S,
    ) -> (res: Result<(), E>)
        ensures
            res matches Ok(_) ==> final(sink).emitted() == old(sink).emitted() + globalize_shim(
                self.spec_num_globals(),
                types@[func_types@[shimmed as int] as int].params@.len() as u32,
                shimmed,
                kind,
            ) && final(sink).handed() == old(sink).handed() + globalize_shim(
                self.spec_num_globals(),
                types@[func_types@[shimmed as int] as int].params@.len() as u32,
                shimmed,
                kind,
            ),
            res matches Err(e) ==> stopped_in(old(sink).emitted(), final(sink).emitted(), old(sink).handed(), final(sink).handed(), globalize_shim(
                self.spec_num_globals(),
                types@[func_types@[shimmed as int] as int].params@.len() as u32,
                shimmed,
                kind,
            )) && final(sink).refused() == Some(e),
            old(sink).accepts_all() ==> res is Ok && final(sink).accepts_all(),
    {
        let np = types[func_types[shimmed as usize] as usize].params.len() as u32;
        let ghost out = globalize_shim(self.spec_num_globals(), np, shimmed, kind);
        let ghost first = match kind {
            ShimKind::Import => false,
            ShimKind::Export => true,
        };
        let ghost ng0 = self.spec_num_globals();
        assert(out == gets_up(0, np) + globals_up(first, ng0) + seq![Instr::Call(shimmed)] + globals_up(!first, ng0)
            + seq![Instr::Return]);
        let mut p: u32 = 0;
        while p < np
            invariant
                p <= np,
                sink.emitted() == old(sink).emitted() + gets_up(0, np).take(p as int),
                sink.handed() == old(sink).handed() + gets_up(0, np).take(p as int),
                old(sink).accepts_all() ==> sink.accepts_all(),
                out == gets_up(0, np) + globals_up(first, ng0) + seq![Instr::Call(shimmed)] + globals_up(!first, ng0)
                    + seq![Instr::Return],
                out == globalize_shim(self.spec_num_globals(), np, shimmed, kind),
                np == types@[func_types@[shimmed as int] as int].params@.len() as u32,
            decreases np - p,
        {
            match sink.instruction(Instr::LocalGet(p)) {
                Ok(()) => {},
                Err(e) => {
                    proof {
                        assert(out.take(p as int) =~= gets_up(0, np).take(p as int));
                        assert(sink.emitted() =~= old(sink).emitted() + (out).take(p as int));
                        assert(sink.handed() =~= old(sink).handed() + (out).take((p as int) + 1));
                        lemma_stopped_at(old(sink).emitted(), old(sink).handed(), out, p as int);
                    }
                    return Err(e);
                },
            }
            assert(sink.emitted() =~= old(sink).emitted() + gets_up(0, np).take(p + 1));
            assert(sink.handed() =~= old(sink).handed() + gets_up(0, np).take(p + 1));
            p += 1;
        }
        assert(gets_up(0, np).take(np as int) =~= gets_up(0, np));
        let ng = self.num_globals;
        let get_first = match kind {
            ShimKind::Import => false,
            ShimKind::Export => true,
        };
        let ghost a0 = gets_up(0, np);
        let ghost g1 = globals_up(first, ng0);
        let ghost g2 = globals_up(!first, ng0);
        let ghost c = seq![Instr::Call(shimmed)];
        let ghost r = seq![Instr::Return];
        assert(get_first == first);
        assert(sink.emitted() == old(sink).emitted() + a0);
        assert(sink.handed() == old(sink).handed() + a0);
        match emit_globals(get_first, ng, sink) {
            Ok(()) => {},
            Err(e) => {
                proof {
                    lemma_stopped_concat(old(sink).emitted(), old(sink).handed(), a0, g1, c + g2 + r, sink.emitted(), sink.handed());
                    assert(a0 + g1 + (c + g2 + r) =~= out);
                }
                return Err(e);
            },
        }
        assert(sink.emitted() =~= old(sink).emitted() + (a0 + g1));
        assert(sink.handed() =~= old(sink).handed() + (a0 + g1));
        match sink.instruction(Instr::Call(shimmed)) {
            Ok(()) => {},
            Err(e) => {
                proof {
                    assert(out.take((a0 + g1).len() as int) =~= a0 + g1);
                    assert(sink.emitted() =~= old(sink).emitted() + (out).take((a0 + g1).len() as int));
                    assert(sink.handed() =~= old(sink).handed() + (out).take(((a0 + g1).len() as int) + 1));
                    lemma_stopped_at(old(sink).emitted(), old(sink).handed(), out, (a0 + g1).len() as int);
                }
                return Err(e);
            },
        }
        assert(sink.emitted() =~= old(sink).emitted() + (a0 + g1 + c));
        assert(sink.handed() =~= old(sink).handed() + (a0 + g1 + c));
        match emit_globals(!get_first, ng, sink) {
            Ok(()) => {},
            Err(e) => {
                proof {
                    lemma_stopped_concat(old(sink).emitted(), old(sink).handed(), a0 + g1 + c, g2, r, sink.emitted(), sink.handed());
                    assert(a0 + g1 + c + g2 + r =~= out);
                }
                return Err(e);
            },
        }
        assert(sink.emitted() =~= old(sink).emitted() + (a0 + g1 + c + g2));
        assert(sink.handed() =~= old(sink).handed() + (a0 + g1 + c + g2));
        match sink.instruction(Instr::Return) {
            Ok(()) => {},
            Err(e) => {
                proof {
                    assert(out.take((a0 + g1 + c + g2).len() as int) =~= a0 + g1 + c + g2);
                    assert(sink.emitted() =~= old(sink).emitted() + (out).take((a0 + g1 + c + g2).len() as int));
                    assert(sink.handed() =~= old(sink).handed() + (out).take(((a0 + g1 + c + g2).len() as int) + 1));
                    lemma_stopped_at(old(sink).emitted(), old(sink).handed(), out, (a0 + g1 + c + g2).len() as int);
                }
                return Err(e);
            },
        }
        assert(sink.emitted() =~= old(sink).emitted() + globalize_shim(ng, np, shimmed, kind));
        assert(sink.handed() =~= old(sink).handed() + globalize_shim(ng, np, shimmed, kind));
        Ok(())
    }
}

} // verus!
