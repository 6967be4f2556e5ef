//! Stitching: every instruction of a body is replaced by what a stitcher
//! makes of it.

use vstd::prelude::*;
use crate::instr::Instr;
use crate::sink::{
    lemma_stopped_concat, lemma_within_concat, lemma_within_start, stopped_in, stopped_within, InstructionSink,
    InstructionSource,
};

verus! {

/// A stitcher: turns one instruction into a source of instructions.
///
/// `expansion` is what the source made for an instruction emits; left
/// undefined, it is empty.  `stitches_ok` holds of a stitcher whose sources
/// do not fail of themselves; left undefined, it is false.
pub trait InstructionStitch<E> {
    type Source: InstructionSource<E>;

    open spec fn expansion(&self, instruction: Instr) -> Seq<Instr> {
        Seq::empty()
    }

    open spec fn stitches_ok(&self) -> bool {
        false
    }

    /// The source that stands for `instruction`.
    fn stitch(&self, instruction: Instr) -> (res: Self::Source)
        ensures
            res.instructions() == self.expansion(instruction),
            self.stitches_ok() ==> res.emits_ok(),
    ;
}

/// The expansions of the instructions of `s`, one after another.
pub open spec fn stitched<E, A: InstructionStitch<E>>(a: A, s: Seq<Instr>) -> Seq<Instr>
    decreases s.len(),
{
    if s.len() == 0 {
        Seq::empty()
    } else {
        stitched::<E, A>(a, s.drop_last()) + a.expansion(s.last())
    }
}

/// Stitching a concatenation stitches each part.
pub proof fn lemma_stitched_append<E, A: InstructionStitch<E>>(a: A, x: Seq<Instr>, y: Seq<Instr>)
    ensures
        stitched::<E, A>(a, x + y) == stitched::<E, A>(a, x) + stitched::<E, A>(a, y),
    decreases y.len(),
{
    if y.len() == 0 {
        assert(x + y =~= x);
        assert(stitched::<E, A>(a, x) + Seq::<Instr>::empty() =~= stitched::<E, A>(a, x));
    } else {
        assert((x + y).drop_last() =~= x + y.drop_last());
        assert((x + y).last() == y.last());
        lemma_stitched_append::<E, A>(a, x, y.drop_last());
        assert(stitched::<E, A>(a, x + y) =~= stitched::<E, A>(a, x) + stitched::<E, A>(a, y));
    }
}

/// The stitching of `s` is that of its first `k` instructions, then that of
/// the rest.
proof fn lemma_stitched_split<E, A: InstructionStitch<E>>(a: A, s: Seq<Instr>, k: int)
    requires
        0 <= k <= s.len(),
    ensures
        stitched::<E, A>(a, s) == stitched::<E, A>(a, s.take(k)) + stitched::<E, A>(a, s.skip(k)),
{
    assert(s =~= s.take(k) + s.skip(k));
    lemma_stitched_append::<E, A>(a, s.take(k), s.skip(k));
}

/// The stitching of `s` around its instruction `k`.
proof fn lemma_stitched_at<E, A: InstructionStitch<E>>(a: A, s: Seq<Instr>, k: int)
    requires
        0 <= k < s.len(),
    ensures
        stitched::<E, A>(a, s) == stitched::<E, A>(a, s.take(k)) + a.expansion(s[k]) + stitched::<E, A>(a, s.skip(k + 1)),
{
    assert(s =~= s.take(k) + seq![s[k]] + s.skip(k + 1));
    lemma_stitched_append::<E, A>(a, s.take(k) + seq![s[k]], s.skip(k + 1));
    lemma_stitched_append::<E, A>(a, s.take(k), seq![s[k]]);
    assert(seq![s[k]].drop_last() =~= Seq::<Instr>::empty());
    assert(stitched::<E, A>(a, Seq::<Instr>::empty()) == Seq::<Instr>::empty());
    assert(stitched::<E, A>(a, seq![s[k]]) == stitched::<E, A>(a, Seq::<Instr>::empty()) + a.expansion(s[k]));
    assert(stitched::<E, A>(a, seq![s[k]]) =~= a.expansion(s[k]));
}

/// A target whose instructions go through a stitcher.
#[derive(Clone, Copy, PartialEq, Eq, PartialOrd, Ord, Hash, Debug, Default)]
pub struct InstructionStitched<A, T> {
    pub stitcher: A,
    pub target: T,
}

impl<A, T> InstructionStitched<A, T> {
    /// Stitches `instruction` into the target: the target receives the
    /// expansion of `instruction`.
    pub fn instruction<E>(&mut self, instruction: Instr) -> (res: Result<(), E>)
        where
            A: InstructionStitch<E>,
            T: InstructionSink<E>,
        ensures
            final(self).stitcher == old(self).stitcher,
            res matches Ok(_) ==> final(self).target.emitted() == old(self).target.emitted()
                + old(self).stitcher.expansion(instruction) && final(self).target.handed()
                == old(self).target.handed() + old(self).stitcher.expansion(instruction),
            res matches Err(e) ==> stopped_within(
                old(self).target.emitted(),
                final(self).target.emitted(),
                old(self).target.handed(),
                final(self).target.handed(),
                old(self).stitcher.expansion(instruction),
            ) && (old(self).stitcher.stitches_ok() ==> stopped_in(
                old(self).target.emitted(),
                final(self).target.emitted(),
                old(self).target.handed(),
                final(self).target.handed(),
                old(self).stitcher.expansion(instruction),
            ) && final(self).target.refused() == Some(e)),
            old(self).stitcher.stitches_ok() && old(self).target.accepts_all() ==> res is Ok
                && final(self).target.accepts_all(),
    {
        let source = self.stitcher.stitch(instruction);
        source.emit_instruction(&mut self.target)
    }
}

/// Emitting a stitched target emits the expansion of each instruction of
/// the target, in order.
///
/// The target is emitted in full first; its instructions are then stitched
/// one by one, also those it produced before it failed, whose expansions
/// the sink receives before the target's error is returned.
impl<E, A: InstructionStitch<E>, T: InstructionSource<E>> InstructionSource<E> for InstructionStitched<A, T> {
    open spec fn instructions(&self) -> Seq<Instr> {
        stitched::<E, A>(self.stitcher, self.target.instructions())
    }

    open spec fn emits_ok(&self) -> bool {
        self.stitcher.stitches_ok() && self.target.emits_ok()
    }

    fn emit_instruction<S: InstructionSink<E>>(&self, sink: &mut S) -> (res: Result<(), E>) {
        let ghost whole = self.target.instructions();
        let mut body: Vec<Instr> = Vec::new();
        assert(InstructionSink::<E>::accepts_all(&body));
        let first = self.target.emit_instruction(&mut body);
        let ghost all = body@;
        let ghost kk: int = if first is Ok {
            whole.len() as int
        } else {
            choose|k: int| 0 <= k <= whole.len() && all == Seq::<Instr>::empty() + #[trigger] whole.take(k)
        };
        proof {
            if first is Ok {
                assert(all =~= whole);
                assert(whole.take(kk) =~= whole);
            } else {
                assert(Seq::<Instr>::empty() + whole.take(kk) =~= whole.take(kk));
            }
            assert(all == whole.take(kk));
            lemma_stitched_split::<E, A>(self.stitcher, whole, kk);
        }
        let n = body.len();
        let mut rest = body;
        let mut k: usize = 0;
        while rest.len() > 0
            invariant
                k <= all.len(),
                0 <= kk <= whole.len(),
                all == whole.take(kk),
                whole == self.target.instructions(),
                stitched::<E, A>(self.stitcher, whole) == stitched::<E, A>(self.stitcher, all)
                    + stitched::<E, A>(self.stitcher, whole.skip(kk)),
                all.len() == n,
                k + rest@.len() == n,
                rest@ == all.skip(k as int),
                sink.emitted() == old(sink).emitted() + stitched::<E, A>(self.stitcher, all.take(k as int)),
                sink.handed() == old(sink).handed() + stitched::<E, A>(self.stitcher, all.take(k as int)),
                self.emits_ok() && old(sink).accepts_all() ==> sink.accepts_all(),
            decreases rest@.len(),
        {
            let x = rest.remove(0);
            assert(all[k as int] == x) by {
                assert(all.skip(k as int)[0] == all[k as int]);
            }
            let source = self.stitcher.stitch(x);
            match source.emit_instruction(sink) {
                Ok(()) => {},
                Err(e) => {
                    proof {
                        lemma_stitched_at::<E, A>(self.stitcher, all, k as int);
                        let pre = stitched::<E, A>(self.stitcher, all.take(k as int));
                        let sub = self.stitcher.expansion(all[k as int]);
                        let post = stitched::<E, A>(self.stitcher, all.skip(k + 1)) + stitched::<E, A>(self.stitcher, whole.skip(kk));
                        assert(pre + sub + post =~= stitched::<E, A>(self.stitcher, whole));
                        lemma_within_concat(old(sink).emitted(), old(sink).handed(), pre, sub, post, sink.emitted(), sink.handed());
                        if self.emits_ok() {
                            lemma_stopped_concat(old(sink).emitted(), old(sink).handed(), pre, sub, post, sink.emitted(), sink.handed());
                        }
                    }
                    return Err(e);
                },
            }
            assert(all.take(k + 1).drop_last() =~= all.take(k as int));
            assert(rest@ =~= all.skip(k + 1));
            k += 1;
        }
        assert(all.take(k as int) =~= all);
        match first {
            Ok(()) => {
                proof {
                    assert(whole.skip(kk) =~= Seq::<Instr>::empty());
                    assert(stitched::<E, A>(self.stitcher, whole.skip(kk)) == Seq::<Instr>::empty());
                    assert(stitched::<E, A>(self.stitcher, all) + Seq::<Instr>::empty() =~= stitched::<E, A>(self.stitcher, all));
                }
                Ok(())
            },
            Err(e) => {
                proof {
                    let done = stitched::<E, A>(self.stitcher, all);
                    let out = stitched::<E, A>(self.stitcher, whole);
                    assert(out.take(done.len() as int) =~= done);
                    assert(sink.emitted() == old(sink).emitted() + out.take(done.len() as int));
                    assert(sink.handed() == old(sink).handed() + out.take(done.len() as int));
                }
                Err(e)
            },
        }
    }
}

} // verus!
