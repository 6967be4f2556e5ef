//! Sinks that consume instructions, and sources that emit them.

pub mod lazy;
pub mod stitch;

use vstd::prelude::*;
use crate::instr::Instr;

verus! {

/// A consumer of instructions, such as a function body under construction.
///
/// `emitted` is what the sink has accepted so far, in order; an
/// implementation promises that accepting an instruction appends it.  An
/// implementation that keeps no record leaves `emitted` empty, and then
/// cannot promise that any instruction is accepted.
///
/// `handed` is every instruction the sink has been given, accepted or not,
/// in order.  `refused` is the error of the last instruction the sink
/// refused; a refused instruction is not recorded in `emitted`.
/// `accepts_all` holds of a sink that accepts every instruction it is given,
/// now and after; an implementation that says nothing of it (the default)
/// promises no success.
pub trait InstructionSink<E> {
    open spec fn emitted(&self) -> Seq<Instr> {
        Seq::empty()
    }

    open spec fn handed(&self) -> Seq<Instr> {
        Seq::empty()
    }

    open spec fn accepts_all(&self) -> bool {
        false
    }

    open spec fn refused(&self) -> Option<E> {
        None
    }

    /// Processes a single instruction.
    fn instruction(&mut self, instruction: Instr) -> (res: Result<(), E>)
        ensures
            final(self).handed() == old(self).handed().push(instruction),
            res matches Ok(_) ==> final(self).emitted() == old(self).emitted().push(instruction),
            res matches Err(e) ==> final(self).emitted() == old(self).emitted() && final(self).refused() == Some(e),
            old(self).accepts_all() ==> (res matches Ok(_)) && final(self).accepts_all(),
    ;
}

/// After a refusal: of `out`, the sink accepted the first `k` instructions
/// (it went from `e0` to `e1`) and was handed those and the `k`-th, which
/// it refused, and nothing after it (its hand-over record went from `h0` to
/// `h1`), for some `k` short of the end.
pub open spec fn stopped_in(e0: Seq<Instr>, e1: Seq<Instr>, h0: Seq<Instr>, h1: Seq<Instr>, out: Seq<Instr>) -> bool {
    exists|k: int|
        0 <= k < out.len() && e1 == e0 + #[trigger] out.take(k) && h1 == h0 + out.take(k + 1)
}

/// After a failure: the sink accepted a prefix of `out` and was handed that
/// prefix, or that prefix and the next instruction, which it refused, and
/// nothing more.
pub open spec fn stopped_within(e0: Seq<Instr>, e1: Seq<Instr>, h0: Seq<Instr>, h1: Seq<Instr>, out: Seq<Instr>) -> bool {
    exists|k: int|
        0 <= k <= out.len() && e1 == e0 + #[trigger] out.take(k) && (h1 == h0 + out.take(k) || (k < out.len()
            && h1 == h0 + out.take(k + 1)))
}

/// A refusal of instruction `k` of `out` stops there.
pub proof fn lemma_stopped_at(e0: Seq<Instr>, h0: Seq<Instr>, out: Seq<Instr>, k: int)
    requires
        0 <= k < out.len(),
    ensures
        stopped_in(e0, e0 + out.take(k), h0, h0 + out.take(k + 1), out),
{
}

/// A stop inside `sub` is a stop inside `a + sub + b`.
pub proof fn lemma_stopped_concat(
    e0: Seq<Instr>,
    h0: Seq<Instr>,
    a: Seq<Instr>,
    sub: Seq<Instr>,
    b: Seq<Instr>,
    e1: Seq<Instr>,
    h1: Seq<Instr>,
)
    requires
        stopped_in(e0 + a, e1, h0 + a, h1, sub),
    ensures
        stopped_in(e0, e1, h0, h1, a + sub + b),
{
    let k = choose|k: int|
        0 <= k < sub.len() && e1 == e0 + a + #[trigger] sub.take(k) && h1 == h0 + a + sub.take(k + 1);
    let out = a + sub + b;
    assert(out.take(a.len() + k) =~= a + sub.take(k));
    assert(out.take(a.len() + k + 1) =~= a + sub.take(k + 1));
    assert(e1 =~= e0 + out.take(a.len() + k));
    assert(h1 =~= h0 + out.take(a.len() + k + 1));
}

/// A stop within `sub` is a stop within `a + sub + b`.
pub proof fn lemma_within_concat(
    e0: Seq<Instr>,
    h0: Seq<Instr>,
    a: Seq<Instr>,
    sub: Seq<Instr>,
    b: Seq<Instr>,
    e1: Seq<Instr>,
    h1: Seq<Instr>,
)
    requires
        stopped_within(e0 + a, e1, h0 + a, h1, sub),
    ensures
        stopped_within(e0, e1, h0, h1, a + sub + b),
{
    let k = choose|k: int|
        0 <= k <= sub.len() && e1 == e0 + a + #[trigger] sub.take(k) && (h1 == h0 + a + sub.take(k) || (k
            < sub.len() && h1 == h0 + a + sub.take(k + 1)));
    let out = a + sub + b;
    assert(out.take(a.len() + k) =~= a + sub.take(k));
    assert(e1 =~= e0 + out.take(a.len() + k));
    if h1 == h0 + a + sub.take(k) {
        assert(h1 =~= h0 + out.take(a.len() + k));
    } else {
        assert(out.take(a.len() + k + 1) =~= a + sub.take(k + 1));
        assert(h1 =~= h0 + out.take(a.len() + k + 1));
    }
}

/// A stop at a refusal is a stop within.
pub proof fn lemma_stopped_within(e0: Seq<Instr>, e1: Seq<Instr>, h0: Seq<Instr>, h1: Seq<Instr>, out: Seq<Instr>)
    requires
        stopped_in(e0, e1, h0, h1, out),
    ensures
        stopped_within(e0, e1, h0, h1, out),
{
    let k = choose|k: int|
        0 <= k < out.len() && e1 == e0 + #[trigger] out.take(k) && h1 == h0 + out.take(k + 1);
    assert(e1 == e0 + out.take(k));
}

/// A failure before anything was handed over stops within any output.
pub proof fn lemma_within_start(e0: Seq<Instr>, h0: Seq<Instr>, out: Seq<Instr>)
    ensures
        stopped_within(e0, e0, h0, h0, out),
{
    assert(e0 + out.take(0) =~= e0);
    assert(h0 + out.take(0) =~= h0);
}

/// A vector collects the instructions it is given and never fails.
impl<E> InstructionSink<E> for Vec<Instr> {
    open spec fn emitted(&self) -> Seq<Instr> {
        self@
    }

    open spec fn handed(&self) -> Seq<Instr> {
        self@
    }

    open spec fn accepts_all(&self) -> bool {
        true
    }

    fn instruction(&mut self, instruction: Instr) -> Result<(), E> {
        self.push(instruction);
        Ok(())
    }
}

/// A producer of instructions, such as a template or a body to copy.
///
/// `instructions` is what the source emits, in order; an implementation
/// promises that an emission that succeeds hands exactly these to the sink.
/// Left undefined, it is empty: the source promises to emit nothing.
///
/// `emits_ok` holds of a source that does not fail of itself: emitting it to
/// a sink that accepts every instruction succeeds, and any failure is the
/// sink's refusal.  Left undefined, it is false: the source promises no
/// success.  A failed emission leaves the sink with a prefix of the
/// instructions.
pub trait InstructionSource<E> {
    open spec fn instructions(&self) -> Seq<Instr> {
        Seq::empty()
    }

    open spec fn emits_ok(&self) -> bool {
        false
    }

    /// Emits the instructions to `sink`.
    fn emit_instruction<S: InstructionSink<E>>(&self, sink: &mut S) -> (res: Result<(), E>)
        ensures
            res matches Ok(_) ==> final(sink).emitted() == old(sink).emitted() + self.instructions()
                && final(sink).handed() == old(sink).handed() + self.instructions(),
            res matches Err(e) ==> stopped_within(
                old(sink).emitted(),
                final(sink).emitted(),
                old(sink).handed(),
                final(sink).handed(),
                self.instructions(),
            ) && (self.emits_ok() ==> stopped_in(
                old(sink).emitted(),
                final(sink).emitted(),
                old(sink).handed(),
                final(sink).handed(),
                self.instructions(),
            ) && final(sink).refused() == Some(e)),
            self.emits_ok() && old(sink).accepts_all() ==> (res matches Ok(_)) && final(sink).accepts_all(),
    ;
}

/// Two sources in a row: the first, then the second.
impl<E, A: InstructionSource<E>, B: InstructionSource<E>> InstructionSource<E> for (A, B) {
    open spec fn instructions(&self) -> Seq<Instr> {
        self.0.instructions() + self.1.instructions()
    }

    open spec fn emits_ok(&self) -> bool {
        self.0.emits_ok() && self.1.emits_ok()
    }

    fn emit_instruction<S: InstructionSink<E>>(&self, sink: &mut S) -> (res: Result<(), E>) {
        let ghost e0 = sink.emitted();
        let ghost h0 = sink.handed();
        let ghost a = self.0.instructions();
        let ghost b = self.1.instructions();
        let ghost z = Seq::<Instr>::empty();
        assert(e0 + z =~= e0 && h0 + z =~= h0);
        assert(z + a + b =~= a + b && a + b + z =~= a + b);
        match self.0.emit_instruction(sink) {
            Ok(()) => {},
            Err(e) => {
                proof {
                    lemma_within_concat(e0, h0, z, a, b, sink.emitted(), sink.handed());
                    if self.emits_ok() {
                        lemma_stopped_concat(e0, h0, z, a, b, sink.emitted(), sink.handed());
                    }
                }
                return Err(e);
            },
        }
        let res = self.1.emit_instruction(sink);
        proof {
            if res is Ok {
                assert(sink.emitted() =~= e0 + self.instructions());
                assert(sink.handed() =~= h0 + self.instructions());
            } else {
                lemma_within_concat(e0, h0, a, b, z, sink.emitted(), sink.handed());
                if self.emits_ok() {
                    lemma_stopped_concat(e0, h0, a, b, z, sink.emitted(), sink.handed());
                }
            }
        }
        res
    }
}

} // verus!
