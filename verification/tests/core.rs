use std::cell::Cell;

use wax::analysis::dce::{dce, dce_instr, DceStack};
use wax::analysis::scf::SCF;
use wax::instr::{BlockType, Catch, FuncType, GlobalType, Instr, ValType};
use wax::lowering::clean_rets::{RetCleaner, Trap};
use wax::lowering::globalize::Globalize;
use wax::rewrite::{NumImports, Rewrite, RewriteKind, ShimKind, Shimmer, Tracker};
use wax::sink::lazy::{LazyInstructionTransform, LazyTransform};
use wax::sink::stitch::{InstructionStitch, InstructionStitched};
use wax::sink::{InstructionSink, InstructionSource};
use wax::tags::{Tag, Tags};

// ---------------------------------------------------------------- sinks

struct Source<'a>(&'a Cell<u8>);

impl InstructionSource<()> for Source<'_> {
    fn emit_instruction<S: InstructionSink<()>>(&self, sink: &mut S) -> Result<(), ()> {
        self.0.set(self.0.get() + 1);
        sink.instruction(Instr::Nop)
    }
}

struct Transform<'a>(&'a Cell<u8>);

impl LazyInstructionTransform<(), Source<'_>> for Transform<'_> {
    fn emit_instruction<S: InstructionSink<()>>(
        &self,
        source: &Source<'_>,
        sink: &mut S,
    ) -> Result<(), ()> {
        self.0.set(self.0.get() + 1);
        source.emit_instruction(sink)
    }
}

struct Sink;

impl InstructionSink<()> for Sink {
    fn instruction(&mut self, _: Instr) -> Result<(), ()> {
        Ok(())
    }
}

/// A sink that refuses every instruction.
struct Refuse;

impl InstructionSink<&'static str> for Refuse {
    fn instruction(&mut self, _: Instr) -> Result<(), &'static str> {
        Err("refused")
    }
}

#[test]
fn construction_does_not_emit_or_iter_source() {
    let source_calls = Cell::new(0);
    let transform_calls = Cell::new(0);
    let lazy = LazyTransform::new(Source(&source_calls), Transform(&transform_calls));
    assert_eq!(source_calls.get(), 0);
    assert_eq!(transform_calls.get(), 0);

    lazy.emit_instruction(&mut Sink).unwrap();
    assert_eq!(source_calls.get(), 1);
    assert_eq!(transform_calls.get(), 1);
}

#[test]
fn lazy_transform_parts() {
    let lazy = LazyTransform::new(3u32, "t");
    assert_eq!(*lazy.source(), 3);
    assert_eq!(*lazy.transform(), "t");
    assert_eq!(lazy.into_parts(), (3, "t"));
}

#[test]
fn lazy_transform_emits_into_vec() {
    let calls = Cell::new(0);
    let lazy = LazyTransform::new(Source(&calls), Transform(&calls));
    let mut out: Vec<Instr> = vec![Instr::Drop];
    lazy.emit_instruction(&mut out).unwrap();
    assert_eq!(out, vec![Instr::Drop, Instr::Nop]);
    assert_eq!(calls.get(), 2);
}

#[test]
fn pair_source_emits_first_then_second() {
    let a = Cell::new(0);
    let b = Cell::new(0);
    let pair = (Source(&a), Source(&b));
    let mut out: Vec<Instr> = Vec::new();
    pair.emit_instruction(&mut out).unwrap();
    assert_eq!(out, vec![Instr::Nop, Instr::Nop]);
    assert_eq!((a.get(), b.get()), (1, 1));
}

#[test]
fn vec_sink_appends() {
    let mut out: Vec<Instr> = vec![Instr::Nop];
    InstructionSink::<()>::instruction(&mut out, Instr::Drop).unwrap();
    assert_eq!(out, vec![Instr::Nop, Instr::Drop]);
}

// ---------------------------------------------------------------- dce

#[test]
fn dce_code_after_branch_is_dead() {
    let mut s = DceStack::new();
    assert!(!dce(&mut s, &Instr::Block(BlockType::Empty)));
    assert!(!dce(&mut s, &Instr::Nop));
    assert!(!dce(&mut s, &Instr::Br(0)));
    assert!(dce(&mut s, &Instr::Nop));
    assert!(dce(&mut s, &Instr::LocalGet(0)));
    assert!(!dce(&mut s, &Instr::End));
    assert!(!dce(&mut s, &Instr::Nop));
}

#[test]
fn dce_else_revives_code() {
    let mut s = DceStack::new();
    assert!(!dce(&mut s, &Instr::If(BlockType::Empty)));
    assert!(!dce(&mut s, &Instr::Return));
    assert!(dce(&mut s, &Instr::Drop));
    assert!(!dce(&mut s, &Instr::Else));
    assert!(!dce(&mut s, &Instr::Drop));
    assert!(!dce(&mut s, &Instr::End));
}

#[test]
fn dce_dead_outer_block_kills_inner_code() {
    let mut s = DceStack::new();
    assert!(!dce(&mut s, &Instr::Block(BlockType::Empty)));
    assert!(!dce(&mut s, &Instr::Unreachable));
    assert!(!dce(&mut s, &Instr::Loop(BlockType::Empty)));
    assert!(dce(&mut s, &Instr::Nop));
    assert!(!dce(&mut s, &Instr::End));
    assert!(dce(&mut s, &Instr::Nop));
}

#[test]
fn dce_on_empty_stack() {
    let mut s = DceStack::new();
    assert!(!dce(&mut s, &Instr::Nop));
    assert!(!dce(&mut s, &Instr::Br(0)));
    assert!(!dce(&mut s, &Instr::End));
    assert!(!dce(&mut s, &Instr::Else));
    assert!(!dce(&mut s, &Instr::Nop));
}

#[test]
fn dce_instr_agrees_with_dce() {
    let ops = vec![
        Instr::TryTable(BlockType::Empty, vec![Catch::All { label: 0 }]),
        Instr::Throw(1),
        Instr::Nop,
        Instr::End,
        Instr::Nop,
    ];
    let mut a = DceStack::new();
    let mut b = DceStack::new();
    let mut seen = Vec::new();
    for op in &ops {
        let x = dce(&mut a, op);
        assert_eq!(x, dce_instr(&mut b, op));
        seen.push(x);
    }
    assert_eq!(seen, vec![false, false, true, false, false]);
}

// ---------------------------------------------------------------- rewrite

#[test]
fn plain_rewrite_offsets() {
    let k = RewriteKind::Plain { imports: NumImports { imports: 3 } };
    assert_eq!(k.rewrite(5, true), 8);
    assert_eq!(k.rewrite(5, false), 8);
}

#[test]
fn sidecar_rewrite_interleaves() {
    let k = RewriteKind::Sidecar { imports: NumImports { imports: 3 } };
    assert_eq!(k.rewrite(5, true), 14);
    assert_eq!(k.rewrite(5, false), 13);
    let z = RewriteKind::Sidecar { imports: NumImports { imports: 0 } };
    assert_eq!(z.rewrite(0x8000_0001, false), 2);
}

#[test]
fn sidecar_rewrite_decodes() {
    let imports = 7u32;
    let k = RewriteKind::Sidecar { imports: NumImports { imports } };
    for a in [0u32, 1, 9, 1000] {
        for orig in [true, false] {
            let r = k.rewrite(a, orig);
            assert_eq!((r - imports) / 2, a);
            assert_eq!((r - imports) % 2 == 1, orig);
        }
    }
}

#[test]
fn rewrite_defaults() {
    let r = Rewrite::default();
    assert_eq!(r.functions, RewriteKind::Plain { imports: NumImports { imports: 0 } });
    assert_eq!(r.function_types, RewriteKind::default());
    assert_eq!(NumImports::default().imports, 0);
}

#[test]
fn rewrite_instructions() {
    let r = Rewrite {
        function_types: RewriteKind::Sidecar { imports: NumImports { imports: 2 } },
        functions: RewriteKind::Plain { imports: NumImports { imports: 10 } },
    };
    assert_eq!(r.rewrite(Instr::Call(4)), Instr::Call(14));
    assert_eq!(r.rewrite(Instr::ReturnCall(0)), Instr::ReturnCall(10));
    assert_eq!(r.rewrite(Instr::RefFunc(1)), Instr::RefFunc(11));
    assert_eq!(
        r.rewrite(Instr::CallIndirect { type_index: 3, table_index: 1 }),
        Instr::CallIndirect { type_index: 8, table_index: 1 }
    );
    assert_eq!(
        r.rewrite(Instr::ReturnCallIndirect { type_index: 0, table_index: 4 }),
        Instr::ReturnCallIndirect { type_index: 2, table_index: 4 }
    );
    assert_eq!(r.rewrite(Instr::CallRef(1)), Instr::CallRef(4));
    assert_eq!(r.rewrite(Instr::ReturnCallRef(1)), Instr::ReturnCallRef(4));
    assert_eq!(
        r.rewrite(Instr::Block(BlockType::FunctionType(3))),
        Instr::Block(BlockType::FunctionType(9))
    );
    assert_eq!(
        r.rewrite(Instr::Loop(BlockType::FunctionType(0))),
        Instr::Loop(BlockType::FunctionType(3))
    );
    assert_eq!(
        r.rewrite(Instr::If(BlockType::Result(ValType::I32))),
        Instr::If(BlockType::Result(ValType::I32))
    );
    assert_eq!(
        r.rewrite(Instr::TryTable(BlockType::FunctionType(1), vec![Catch::One { tag: 0, label: 1 }])),
        Instr::TryTable(BlockType::FunctionType(5), vec![Catch::One { tag: 0, label: 1 }])
    );
    assert_eq!(r.rewrite(Instr::LocalGet(1)), Instr::LocalGet(1));
}

#[test]
fn tracker_push_and_apply() {
    let mut t: Tracker<&str> = Tracker { idx: 5, all: vec![] };
    assert_eq!(t.push("a"), 5);
    assert_eq!(t.push("b"), 6);
    assert_eq!(t.idx, 7);
    assert_eq!(t.all, vec!["a", "b"]);
    NumImports { imports: 3 }.apply(&mut t);
    assert_eq!(t.idx, 10);
    assert_eq!(t.all, vec!["a", "b"]);
}

// ---------------------------------------------------------------- globalize

fn global(t: ValType) -> GlobalType {
    GlobalType { val_type: t, mutable: true, shared: false }
}

fn emit_globalized(g: &Globalize, num_params: u32, i: Instr) -> Vec<Instr> {
    let mut out: Vec<Instr> = Vec::new();
    g.inst::<(), _>(num_params, i, &mut out).unwrap();
    out
}

#[test]
fn globalize_extends_signatures() {
    let mut types = vec![
        FuncType { params: vec![ValType::I32], results: vec![] },
        FuncType { params: vec![], results: vec![ValType::F64] },
    ];
    let _ = Globalize::new(&mut types, &[global(ValType::I64), global(ValType::F32)]);
    assert_eq!(types[0].params, vec![ValType::I32, ValType::I64, ValType::F32]);
    assert_eq!(types[0].results, vec![ValType::I64, ValType::F32]);
    assert_eq!(types[1].params, vec![ValType::I64, ValType::F32]);
    assert_eq!(types[1].results, vec![ValType::F64, ValType::I64, ValType::F32]);
}

#[test]
fn globalize_rewrites_locals_and_globals() {
    let mut types: Vec<FuncType> = vec![];
    let g = Globalize::new(&mut types, &[global(ValType::I32), global(ValType::I32)]);
    assert_eq!(emit_globalized(&g, 2, Instr::LocalGet(1)), vec![Instr::LocalGet(1)]);
    assert_eq!(emit_globalized(&g, 2, Instr::LocalGet(2)), vec![Instr::LocalGet(4)]);
    assert_eq!(emit_globalized(&g, 2, Instr::LocalSet(3)), vec![Instr::LocalSet(5)]);
    assert_eq!(emit_globalized(&g, 2, Instr::LocalTee(0)), vec![Instr::LocalTee(0)]);
    assert_eq!(emit_globalized(&g, 2, Instr::GlobalGet(1)), vec![Instr::LocalGet(3)]);
    assert_eq!(emit_globalized(&g, 2, Instr::GlobalSet(0)), vec![Instr::LocalSet(2)]);
    assert_eq!(emit_globalized(&g, 2, Instr::Nop), vec![Instr::Nop]);
}

#[test]
fn globalize_threads_globals_through_calls() {
    let mut types: Vec<FuncType> = vec![];
    let g = Globalize::new(&mut types, &[global(ValType::I32), global(ValType::I64)]);
    assert_eq!(
        emit_globalized(&g, 2, Instr::Call(7)),
        vec![
            Instr::LocalGet(2),
            Instr::LocalGet(3),
            Instr::Call(7),
            Instr::LocalSet(3),
            Instr::LocalSet(2),
        ]
    );
    assert_eq!(
        emit_globalized(&g, 1, Instr::Return),
        vec![Instr::LocalGet(1), Instr::LocalGet(2), Instr::Return]
    );
    assert_eq!(
        emit_globalized(&g, 0, Instr::ReturnCallRef(3)),
        vec![Instr::LocalGet(0), Instr::LocalGet(1), Instr::ReturnCallRef(3)]
    );
}

#[test]
fn globalize_shims() {
    let mut types = vec![FuncType { params: vec![ValType::I32, ValType::I32], results: vec![] }];
    let g = Globalize::new(&mut types, &[global(ValType::I32)]);
    let original = vec![FuncType { params: vec![ValType::I32, ValType::I32], results: vec![] }];
    let mut out: Vec<Instr> = Vec::new();
    <Globalize as Shimmer<()>>::shim(&g, 0, &[0], &original, ShimKind::Import, &mut out).unwrap();
    assert_eq!(
        out,
        vec![
            Instr::LocalGet(0),
            Instr::LocalGet(1),
            Instr::GlobalSet(0),
            Instr::Call(0),
            Instr::GlobalGet(0),
            Instr::Return,
        ]
    );
    let mut out: Vec<Instr> = Vec::new();
    <Globalize as Shimmer<()>>::shim(&g, 0, &[0], &original, ShimKind::Export, &mut out).unwrap();
    assert_eq!(
        out,
        vec![
            Instr::LocalGet(0),
            Instr::LocalGet(1),
            Instr::GlobalGet(0),
            Instr::Call(0),
            Instr::GlobalSet(0),
            Instr::Return,
        ]
    );
}

#[test]
fn globalize_stops_at_refusing_sink() {
    let mut types: Vec<FuncType> = vec![];
    let g = Globalize::new(&mut types, &[global(ValType::I32)]);
    assert_eq!(g.inst(0, Instr::Nop, &mut Refuse), Err("refused"));
}

// ---------------------------------------------------------------- clean_rets

fn cleaner() -> (RetCleaner, Vec<FuncType>, Tracker<GlobalType>, Tracker<FuncType>) {
    let mut types = vec![
        FuncType { params: vec![ValType::I32], results: vec![ValType::I64, ValType::F32] },
        FuncType { params: vec![], results: vec![] },
    ];
    let mut globals: Tracker<GlobalType> = Tracker { idx: 4, all: vec![] };
    let mut new_types: Tracker<FuncType> = Tracker { idx: 2, all: vec![] };
    let c = RetCleaner::new(&mut types, &[1, 0], &mut globals, &mut new_types);
    (c, types, globals, new_types)
}

#[test]
fn clean_rets_new_allocates() {
    let (_, types, globals, new_types) = cleaner();
    assert_eq!(types[0], FuncType { params: vec![ValType::I32], results: vec![ValType::I32] });
    assert_eq!(types[1], FuncType { params: vec![], results: vec![ValType::I32] });
    assert_eq!(globals.idx, 6);
    assert_eq!(globals.all, vec![global(ValType::I64), global(ValType::F32)]);
    assert_eq!(new_types.idx, 4);
    assert_eq!(
        new_types.all,
        vec![
            FuncType { params: vec![], results: vec![ValType::I64, ValType::F32] },
            FuncType { params: vec![], results: vec![] },
        ]
    );
}

#[test]
fn clean_rets_return_stores_results() {
    let (c, _, _, _) = cleaner();
    let mut out: Vec<Instr> = Vec::new();
    // function 1 has type 0, whose results live in globals 4 and 5
    c.inst::<(), _, _>(1, 9, Instr::Return, &mut out, &mut TrapCode(vec![])).unwrap();
    assert_eq!(
        out,
        vec![Instr::GlobalSet(5), Instr::GlobalSet(4), Instr::I32Const(-1), Instr::Return]
    );
}

#[test]
fn clean_rets_call_checks_status() {
    let (c, _, _, _) = cleaner();
    let mut out: Vec<Instr> = Vec::new();
    c.inst::<(), _, _>(0, 9, Instr::Call(1), &mut out, &mut TrapCode(vec![Instr::Unreachable])).unwrap();
    assert_eq!(
        out,
        vec![
            Instr::Call(1),
            Instr::LocalTee(9),
            Instr::I32Const(-1),
            Instr::I32Ne,
            Instr::If(BlockType::FunctionType(2)),
            Instr::Unreachable,
            Instr::Else,
            Instr::GlobalGet(4),
            Instr::GlobalGet(5),
            Instr::End,
        ]
    );
    let mut out: Vec<Instr> = Vec::new();
    c.inst::<(), _, _>(0, 9, Instr::CallIndirect { type_index: 1, table_index: 0 }, &mut out, &mut TrapCode(vec![]))
        .unwrap();
    assert_eq!(
        out,
        vec![
            Instr::CallIndirect { type_index: 1, table_index: 0 },
            Instr::LocalTee(9),
            Instr::I32Const(-1),
            Instr::I32Ne,
            Instr::If(BlockType::FunctionType(3)),
            Instr::Else,
            Instr::End,
        ]
    );
    let mut out: Vec<Instr> = Vec::new();
    c.inst::<(), _, _>(0, 2, Instr::CallRef(0), &mut out, &mut TrapCode(vec![Instr::Nop, Instr::Drop])).unwrap();
    assert_eq!(
        out,
        vec![
            Instr::CallRef(0),
            Instr::LocalTee(2),
            Instr::I32Const(-1),
            Instr::I32Ne,
            Instr::If(BlockType::FunctionType(2)),
            Instr::Nop,
            Instr::Drop,
            Instr::Else,
            Instr::GlobalGet(4),
            Instr::GlobalGet(5),
            Instr::End,
        ]
    );
    let mut out: Vec<Instr> = Vec::new();
    c.inst::<(), _, _>(0, 2, Instr::LocalGet(0), &mut out, &mut TrapCode(vec![])).unwrap();
    assert_eq!(out, vec![Instr::LocalGet(0)]);
}

#[test]
fn clean_rets_shims() {
    let (c, _, _, _) = cleaner();
    let original = vec![
        FuncType { params: vec![ValType::I32], results: vec![ValType::I64, ValType::F32] },
        FuncType { params: vec![], results: vec![] },
    ];
    let mut out: Vec<Instr> = Vec::new();
    <RetCleaner as Shimmer<()>>::shim(&c, 1, &[1, 0], &original, ShimKind::Import, &mut out).unwrap();
    assert_eq!(
        out,
        vec![
            Instr::LocalGet(0),
            Instr::Call(1),
            Instr::GlobalSet(4),
            Instr::GlobalSet(5),
            Instr::I32Const(-1),
            Instr::Return,
        ]
    );
    let mut out: Vec<Instr> = Vec::new();
    <RetCleaner as Shimmer<()>>::shim(&c, 1, &[1, 0], &original, ShimKind::Export, &mut out).unwrap();
    assert_eq!(
        out,
        vec![
            Instr::LocalGet(0),
            Instr::Call(1),
            Instr::GlobalGet(4),
            Instr::GlobalGet(5),
            Instr::Return,
        ]
    );
}

// ---------------------------------------------------------------- scf

#[test]
fn scf_tracks_branch_types() {
    let funcs = vec![FuncType { params: vec![ValType::I64], results: vec![ValType::F32] }];
    let mut s = SCF::default();
    assert_eq!(s.val_types(0), None);
    s.on_inst(&Instr::Block(BlockType::Result(ValType::I32)), &funcs);
    assert_eq!(s.val_types(0), Some(&[ValType::I32][..]));
    s.on_inst(&Instr::If(BlockType::Empty), &funcs);
    assert_eq!(s.val_types(0), Some(&[ValType::I32][..]));
    s.on_inst(&Instr::Loop(BlockType::FunctionType(0)), &funcs);
    assert_eq!(s.val_types(0), Some(&[ValType::I64][..]));
    assert_eq!(s.val_types(1), Some(&[ValType::I32][..]));
    assert_eq!(s.val_types(2), None);
    s.on_inst(&Instr::Block(BlockType::FunctionType(0)), &funcs);
    assert_eq!(s.val_types(0), Some(&[ValType::F32][..]));
    s.on_inst(&Instr::End, &funcs);
    s.on_inst(&Instr::End, &funcs);
    assert_eq!(s.val_types(0), Some(&[ValType::I32][..]));
    s.on_inst(&Instr::Loop(BlockType::Result(ValType::I32)), &funcs);
    assert_eq!(s.val_types(0), Some(&[][..]));
    s.on_inst(&Instr::Nop, &funcs);
    assert_eq!(s.val_types(1), Some(&[ValType::I32][..]));
}

#[test]
fn scf_end_on_empty_is_harmless() {
    let funcs: Vec<FuncType> = vec![];
    let mut s = SCF::default();
    s.on_inst(&Instr::End, &funcs);
    assert_eq!(s.val_types(0), None);
    s.on_inst(&Instr::Block(BlockType::Empty), &funcs);
    assert_eq!(s.val_types(0), Some(&[][..]));
    assert_eq!(s.val_types(u32::MAX), None);
}

// ---------------------------------------------------------------- tags

fn fresh_tags(n: usize) -> Vec<Tag> {
    (0..n).map(|_| Tag::default()).collect()
}

#[test]
fn tags_record_targets() {
    let ops = vec![
        Instr::Block(BlockType::Empty),
        Instr::Loop(BlockType::Empty),
        Instr::Br(0),
        Instr::BrIf(1),
        Instr::BrTable(vec![0, 1], 1),
        Instr::End,
        Instr::End,
        Instr::End,
    ];
    let mut tags = fresh_tags(ops.len());
    let mut t = Tags { tags: &mut tags };
    assert!(t.assignable(&ops));
    t.assign_targets(&ops);
    assert_eq!(tags[0].mtarget, 7);
    assert_eq!(tags[1].mtarget, 1);
    assert_eq!(tags[2].target, vec![1]);
    assert_eq!(tags[3].target, vec![7]);
    assert_eq!(tags[4].target, vec![1, 7, 7]);
    assert!(tags[5].target.is_empty());
    assert_eq!(tags[5].mtarget, 0);
}

#[test]
fn tags_stop_at_shorter_side() {
    let ops = vec![Instr::Loop(BlockType::Empty), Instr::Br(0), Instr::Br(5)];
    let mut tags = fresh_tags(2);
    let mut t = Tags { tags: &mut tags };
    assert!(t.assignable(&ops));
    t.assign_targets(&ops);
    assert_eq!(tags[0].mtarget, 0);
    assert_eq!(tags[1].target, vec![0]);
    let mut none = fresh_tags(0);
    let mut empty = Tags { tags: &mut none };
    assert!(empty.assignable(&[Instr::Br(3)]));
    empty.assign_targets(&[Instr::Br(3)]);
    assert!(empty.tags.is_empty());
}

#[test]
fn tags_reject_malformed_bodies() {
    let mut tags = fresh_tags(4);
    let t = Tags { tags: &mut tags };
    assert!(!t.assignable(&[Instr::Block(BlockType::Empty), Instr::End]));
    assert!(!t.assignable(&[Instr::Br(0)]));
    assert!(!t.assignable(&[Instr::Loop(BlockType::Empty), Instr::BrTable(vec![1], 0)]));
    assert!(!t.assignable(&[Instr::Loop(BlockType::Empty), Instr::BrTable(vec![0], 1)]));
    assert!(t.assignable(&[Instr::Loop(BlockType::Empty), Instr::BrTable(vec![0], 0)]));
}

// ---------------------------------------------------------------- stitch

/// A source that emits a fixed body.
struct Body(Vec<Instr>);

impl InstructionSource<()> for Body {
    fn emit_instruction<S: InstructionSink<()>>(&self, sink: &mut S) -> Result<(), ()> {
        for i in &self.0 {
            sink.instruction(i.clone())?;
        }
        Ok(())
    }
}

/// Drops after every `local.get`, and removes `nop`s.
struct DropAfterGet;

impl InstructionStitch<()> for DropAfterGet {
    type Source = Body;

    fn stitch(&self, instruction: Instr) -> Body {
        match instruction {
            Instr::LocalGet(x) => Body(vec![Instr::LocalGet(x), Instr::Drop]),
            Instr::Nop => Body(vec![]),
            other => Body(vec![other]),
        }
    }
}

#[test]
fn stitched_source_expands_each_instruction() {
    let s = InstructionStitched {
        stitcher: DropAfterGet,
        target: Body(vec![Instr::LocalGet(0), Instr::Nop, Instr::LocalGet(1), Instr::End]),
    };
    let mut out: Vec<Instr> = vec![Instr::Unreachable];
    s.emit_instruction(&mut out).unwrap();
    assert_eq!(
        out,
        vec![
            Instr::Unreachable,
            Instr::LocalGet(0),
            Instr::Drop,
            Instr::LocalGet(1),
            Instr::Drop,
            Instr::End,
        ]
    );
}

#[test]
fn stitched_sink_expands_into_target() {
    let mut s = InstructionStitched { stitcher: DropAfterGet, target: Vec::<Instr>::new() };
    s.instruction::<()>(Instr::LocalGet(3)).unwrap();
    s.instruction::<()>(Instr::Nop).unwrap();
    s.instruction::<()>(Instr::Return).unwrap();
    assert_eq!(s.target, vec![Instr::LocalGet(3), Instr::Drop, Instr::Return]);
}

#[test]
fn stitched_empty_target_emits_nothing() {
    let s = InstructionStitched { stitcher: DropAfterGet, target: Body(vec![]) };
    let mut out: Vec<Instr> = Vec::new();
    s.emit_instruction(&mut out).unwrap();
    assert!(out.is_empty());
}

#[test]
fn default_rewrite_changes_nothing() {
    let r = Rewrite::default();
    for i in [
        Instr::Call(3),
        Instr::RefFunc(0),
        Instr::CallIndirect { type_index: 2, table_index: 1 },
        Instr::Block(BlockType::FunctionType(4)),
        Instr::ReturnCallRef(9),
    ] {
        assert_eq!(r.rewrite(i.clone()), i);
    }
}

#[test]
fn scf_end_restores_enclosing_blocks() {
    let funcs = vec![FuncType { params: vec![], results: vec![ValType::I64] }];
    let mut s = SCF::default();
    s.on_inst(&Instr::Block(BlockType::Result(ValType::F64)), &funcs);
    for op in [Instr::Block(BlockType::FunctionType(0)), Instr::Loop(BlockType::Empty), Instr::If(BlockType::Empty)] {
        s.on_inst(&op, &funcs);
        s.on_inst(&Instr::End, &funcs);
        assert_eq!(s.val_types(0), Some(&[ValType::F64][..]));
        assert_eq!(s.val_types(1), None);
    }
}

#[test]
fn clean_rets_trap_error_stops_the_call() {
    let (c, _, _, _) = cleaner();
    let mut out: Vec<Instr> = Vec::new();
    assert_eq!(c.inst::<(), _, _>(0, 9, Instr::Call(1), &mut out, &mut FailingTrap), Err(()));
    assert_eq!(
        out,
        vec![
            Instr::Call(1),
            Instr::LocalTee(9),
            Instr::I32Const(-1),
            Instr::I32Ne,
            Instr::If(BlockType::FunctionType(2)),
        ]
    );
}

#[test]
fn defaults_are_empty() {
    let t: Tracker<u8> = Tracker::default();
    assert_eq!(t.idx, 0);
    assert!(t.all.is_empty());
    let mut s = DceStack::default();
    assert!(!dce(&mut s, &Instr::Nop));
    assert!(!dce(&mut s, &Instr::Br(0)));
    assert!(!dce(&mut s, &Instr::Nop));
}

/// A trap that emits fixed code.
struct TrapCode(Vec<Instr>);

impl Trap<()> for TrapCode {
    fn trap<S: InstructionSink<()>>(&mut self, sink: &mut S, _stash: u32) -> Result<(), ()> {
        for i in &self.0 {
            sink.instruction(i.clone())?;
        }
        Ok(())
    }
}

/// A trap that fails.
struct FailingTrap;

impl Trap<()> for FailingTrap {
    fn trap<S: InstructionSink<()>>(&mut self, _: &mut S, _stash: u32) -> Result<(), ()> {
        Err(())
    }
}

/// A trap that rethrows the status it finds in the stash, counting its uses.
struct Rethrow(u32);

impl Trap<()> for Rethrow {
    fn trap<S: InstructionSink<()>>(&mut self, sink: &mut S, stash: u32) -> Result<(), ()> {
        self.0 += 1;
        sink.instruction(Instr::LocalGet(stash))?;
        sink.instruction(Instr::Throw(0))
    }
}

#[test]
fn clean_rets_trap_reads_the_stash() {
    let (c, _, _, _) = cleaner();
    let mut out: Vec<Instr> = Vec::new();
    let mut trap = Rethrow(0);
    c.inst::<(), _, _>(0, 7, Instr::CallRef(1), &mut out, &mut trap).unwrap();
    assert_eq!(trap.0, 1);
    assert_eq!(
        out,
        vec![
            Instr::CallRef(1),
            Instr::LocalTee(7),
            Instr::I32Const(-1),
            Instr::I32Ne,
            Instr::If(BlockType::FunctionType(3)),
            Instr::LocalGet(7),
            Instr::Throw(0),
            Instr::Else,
            Instr::End,
        ]
    );
}

/// A sink that accepts a fixed number of instructions and refuses the rest,
/// counting the calls it gets.
struct Limited {
    left: usize,
    calls: usize,
    got: Vec<Instr>,
}

impl InstructionSink<usize> for Limited {
    fn instruction(&mut self, i: Instr) -> Result<(), usize> {
        self.calls += 1;
        if self.left == 0 {
            return Err(self.calls);
        }
        self.left -= 1;
        self.got.push(i);
        Ok(())
    }
}

#[test]
fn sink_errors_stop_the_passes() {
    let mut types: Vec<FuncType> = vec![];
    let g = Globalize::new(&mut types, &[global(ValType::I32), global(ValType::I64)]);
    let mut sink = Limited { left: 2, calls: 0, got: vec![] };
    assert_eq!(g.inst(2, Instr::Call(7), &mut sink), Err(3));
    assert_eq!(sink.calls, 3);
    assert_eq!(sink.got, vec![Instr::LocalGet(2), Instr::LocalGet(3)]);

    let mut sink = Limited { left: 1, calls: 0, got: vec![] };
    let original = vec![FuncType { params: vec![ValType::I32, ValType::I32], results: vec![] }];
    assert_eq!(<Globalize as Shimmer<usize>>::shim(&g, 0, &[0], &original, ShimKind::Export, &mut sink), Err(2));
    assert_eq!(sink.got, vec![Instr::LocalGet(0)]);

    let (c, _, _, _) = cleaner();
    let mut sink = Limited { left: 0, calls: 0, got: vec![] };
    assert_eq!(c.inst(1, 9, Instr::Return, &mut sink, &mut LimitedTrap), Err(1));
    assert_eq!(sink.calls, 1);
}

/// A trap for sinks that fail with a count.
struct LimitedTrap;

impl Trap<usize> for LimitedTrap {
    fn trap<S: InstructionSink<usize>>(&mut self, _: &mut S, _stash: u32) -> Result<(), usize> {
        Ok(())
    }
}

/// A source that emits two instructions and then fails.
struct Partial;

impl InstructionSource<()> for Partial {
    fn emit_instruction<S: InstructionSink<()>>(&self, sink: &mut S) -> Result<(), ()> {
        sink.instruction(Instr::LocalGet(0))?;
        sink.instruction(Instr::Nop)?;
        Err(())
    }
}

#[test]
fn stitched_source_passes_on_what_came_before_a_failure() {
    let s = InstructionStitched { stitcher: DropAfterGet, target: Partial };
    let mut out: Vec<Instr> = Vec::new();
    assert_eq!(s.emit_instruction(&mut out), Err(()));
    assert_eq!(out, vec![Instr::LocalGet(0), Instr::Drop]);
}
