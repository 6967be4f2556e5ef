//! Deferred instruction-source transformations.
//!
//! A [`LazyTransform`] pairs a source with a transformation and does no work
//! until it is emitted: building one neither emits nor reads the source.

use vstd::prelude::*;
use crate::instr::Instr;
use crate::sink::{stopped_in, stopped_within, InstructionSink, InstructionSource};

verus! {

/// A transformation applied only when a wrapped source is emitted.
///
/// `transformed` is what the transformation emits for `source`; an
/// implementation promises that an emission that succeeds hands exactly
/// these instructions to the sink.  Left undefined, it is empty: the
/// transformation promises to emit nothing.
///
/// `transforms_ok` holds where the transformation of `source` does not fail
/// of itself: emitting it to a sink that accepts every instruction succeeds.
/// Left undefined, it is false: the transformation promises no success.
/// A failed emission leaves the sink with a prefix of the transformation,
/// and, where the transformation does not fail of itself, the error is the
/// sink's refusal.
pub trait LazyInstructionTransform<E, Source> {
    open spec fn transformed(&self, source: &Source) -> Seq<Instr> {
        Seq::empty()
    }

    open spec fn transforms_ok(&self, source: &Source) -> bool {
        false
    }

    /// Emits the transformation of `source` to `sink`.
    fn emit_instruction<S: InstructionSink<E>>(&self, source: &Source, sink: &mut S) -> (res: Result<(), E>)
        ensures
            res matches Ok(_) ==> final(sink).emitted() == old(sink).emitted() + self.transformed(source)
                && final(sink).handed() == old(sink).handed() + self.transformed(source),
            res matches Err(e) ==> stopped_within(
                old(sink).emitted(),
                final(sink).emitted(),
                old(sink).handed(),
                final(sink).handed(),
                self.transformed(source),
            ) && (self.transforms_ok(source) ==> stopped_in(
                old(sink).emitted(),
                final(sink).emitted(),
                old(sink).handed(),
                final(sink).handed(),
                self.transformed(source),
            ) && final(sink).refused() == Some(e)),
            self.transforms_ok(source) && old(sink).accepts_all() ==> (res matches Ok(_)) && final(sink).accepts_all(),
    ;
}

/// A source and the transformation to apply to it when it is emitted.
#[derive(Clone, Debug)]
pub struct LazyTransform<Source, Transform> {
    source: Source,
    transform: Transform,
}

impl<Source, Transform> LazyTransform<Source, Transform> {
    /// The wrapped source and transformation.
    pub closed spec fn parts(&self) -> (Source, Transform) {
        (self.source, self.transform)
    }

    /// Wraps `source` without iterating or emitting it.
    pub fn new(source: Source, transform: Transform) -> (res: Self)
        ensures
            res.parts() == (source, transform),
    {
        LazyTransform { source, transform }
    }

    /// The deferred input source.
    pub fn source(&self) -> (res: &Source)
        ensures
            *res == self.parts().0,
    {
        &self.source
    }

    /// The transformation.
    pub fn transform(&self) -> (res: &Transform)
        ensures
            *res == self.parts().1,
    {
        &self.transform
    }

    /// The source and the transformation, taken apart.
    pub fn into_parts(self) -> (res: (Source, Transform))
        ensures
            res == self.parts(),
    {
        (self.source, self.transform)
    }
}

/// Emitting the wrapper emits the transformation of its source.
impl<E, Source, Transform: LazyInstructionTransform<E, Source>> InstructionSource<E> for LazyTransform<Source, Transform> {
    open spec fn instructions(&self) -> Seq<Instr> {
        self.parts().1.transformed(&self.parts().0)
    }

    open spec fn emits_ok(&self) -> bool {
        self.parts().1.transforms_ok(&self.parts().0)
    }

    fn emit_instruction<S: InstructionSink<E>>(&self, sink: &mut S) -> (res: Result<(), E>) {
        self.transform.emit_instruction(&self.source, sink)
    }
}

} // verus!
