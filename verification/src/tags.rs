//! Branch targets of a function body.
//!
//! For every instruction of a body, its tag records where control goes: a
//! block-opening instruction gets the index its branches jump to
//! (`mtarget`), and a branch gets the indices it may jump to (`target`).

use vstd::prelude::*;
use crate::instr::Instr;

verus! {

/// The tags of the instructions of a body, one per instruction.
pub struct Tags<'a> {
    pub tags: &'a mut [Tag],
}

/// Where control may go from one instruction.
#[derive(Debug)]
#[non_exhaustive]
pub struct Tag {
    pub target: Vec<u32>,
    pub mtarget: u32,
}

impl Default for Tag {
    fn default() -> (res: Self)
        ensures
            res.target@ == Seq::<u32>::empty(),
            res.mtarget == 0,
    {
        Tag { target: Vec::new(), mtarget: 0 }
    }
}

/// The content of a tag: its branch targets and its block target.
pub open spec fn tag_view(t: Tag) -> (Seq<u32>, u32) {
    (t.target@, t.mtarget)
}

pub open spec fn tags_view(ts: Seq<Tag>) -> Seq<(Seq<u32>, u32)> {
    ts.map_values(|t: Tag| tag_view(t))
}

/// The instructions that open a block.
pub open spec fn opens(o: Instr) -> bool {
    o is Loop || o is Block || o is If || o is TryTable
}

/// Scanning from `i` with `depth` blocks open: the index of the `end` that
/// closes the last of them.
pub open spec fn scan(ops: Seq<Instr>, i: int, depth: int) -> Option<int>
    decreases ops.len() - i,
{
    if i < 0 || i >= ops.len() {
        None
    } else if opens(ops[i]) {
        scan(ops, i + 1, depth + 1)
    } else if ops[i] is End {
        if depth - 1 == 0 {
            Some(i)
        } else {
            scan(ops, i + 1, depth - 1)
        }
    } else {
        scan(ops, i + 1, depth)
    }
}

/// The target of a branch out of `d` enclosing blocks, innermost first.
pub open spec fn resolve(stack: Seq<u32>, d: u32) -> u32 {
    stack[stack.len() - 1 - d]
}

/// Whether every depth of `ds` names an enclosing block.
pub open spec fn resolvable(stack: Seq<u32>, ds: Seq<u32>) -> bool {
    forall|k: int| 0 <= k < ds.len() ==> #[trigger] ds[k] < stack.len()
}

/// One step at instruction `i`: the new stack of targets and the new tags,
/// or `None` when the body is malformed there (a block without its `end`,
/// or a branch out of more blocks than enclose it).
///
/// A block, `if` or `try_table` scans from itself with one block open, so
/// the `end` found is the one that closes the block enclosing it.
pub open spec fn step(
    ops: Seq<Instr>,
    i: int,
    stack: Seq<u32>,
    tags: Seq<(Seq<u32>, u32)>,
) -> Option<(Seq<u32>, Seq<(Seq<u32>, u32)>)> {
    match ops[i] {
        Instr::Loop(_) => Some((stack.push(i as u32), tags.update(i, (tags[i].0, i as u32)))),
        Instr::Block(_) | Instr::If(_) | Instr::TryTable(_, _) => match scan(ops, i, 1) {
            None => None,
            Some(e) => Some((stack.push(e as u32), tags.update(i, (tags[i].0, e as u32)))),
        },
        Instr::End => Some((if stack.len() == 0 { stack } else { stack.drop_last() }, tags)),
        Instr::Br(d) | Instr::BrIf(d) => if d < stack.len() {
            Some((stack, tags.update(i, (seq![resolve(stack, d)], tags[i].1))))
        } else {
            None
        },
        Instr::BrTable(ts, d) => {
            let ds = ts@.push(d);
            if resolvable(stack, ds) {
                Some((stack, tags.update(i, (ds.map_values(|x: u32| resolve(stack, x)), tags[i].1))))
            } else {
                None
            }
        },
        _ => Some((stack, tags)),
    }
}

/// Running the steps from instruction `i` on, while there are both an
/// instruction and a tag: the final tags, or `None` when a step fails.
pub open spec fn run(ops: Seq<Instr>, i: int, stack: Seq<u32>, tags: Seq<(Seq<u32>, u32)>) -> Option<Seq<(Seq<u32>, u32)>>
    decreases ops.len() - i,
{
    if i < 0 || i >= ops.len() || i >= tags.len() {
        Some(tags)
    } else {
        match step(ops, i, stack, tags) {
            None => None,
            Some((s, t)) => run(ops, i + 1, s, t),
        }
    }
}

/// How an instruction changes the number of open constructs: `block`,
/// `loop`, `if` and `try_table` open one, `end` closes one.
pub open spec fn nesting_change(o: Instr) -> int {
    if o is Block || o is Loop || o is If || o is TryTable {
        1
    } else if o is End {
        -1
    } else {
        0
    }
}

/// The net change in open constructs over instructions `a` up to `b`.
pub open spec fn nesting(ops: Seq<Instr>, a: int, b: int) -> int
    decreases b - a,
{
    if a >= b {
        0
    } else {
        nesting_change(ops[a]) + nesting(ops, a + 1, b)
    }
}

/// What scanning finds: from instruction `i` with `d` constructs open, the
/// first instruction at which more constructs have closed since `i` than
/// were open, which is an `end`.
pub proof fn lemma_scan_finds_end(ops: Seq<Instr>, i: int, d: int)
    requires
        0 <= i,
        d >= 1,
    ensures
        scan(ops, i, d) matches Some(e) ==> {
            &&& i <= e < ops.len()
            &&& ops[e] is End
            &&& d + nesting(ops, i, e + 1) == 0
            &&& forall|m: int| i <= m <= e ==> d + #[trigger] nesting(ops, i, m) > 0
        },
    decreases ops.len() - i,
{
    if 0 <= i < ops.len() {
        let o = ops[i];
        if opens(o) {
            lemma_scan_finds_end(ops, i + 1, d + 1);
        } else if o is End {
            if d - 1 != 0 {
                lemma_scan_finds_end(ops, i + 1, d - 1);
            }
        } else {
            lemma_scan_finds_end(ops, i + 1, d);
        }
        if let Some(e) = scan(ops, i, d) {
            assert forall|m: int| i <= m <= e implies d + #[trigger] nesting(ops, i, m) > 0 by {
                if m > i {
                    assert(nesting(ops, i, m) == nesting_change(o) + nesting(ops, i + 1, m));
                }
            }
            if e > i {
                assert(nesting(ops, i, e + 1) == nesting_change(o) + nesting(ops, i + 1, e + 1));
            } else {
                assert(nesting(ops, i + 1, e + 1) == 0);
            }
        }
    }
}

/// The targets of the constructs open before instruction `i`, innermost
/// last: a loop's own index, or the index of the `end` that a block, `if`
/// or `try_table` jumps to.
pub open spec fn open_targets(ops: Seq<Instr>, i: int) -> Seq<u32>
    decreases i,
{
    if i <= 0 {
        Seq::empty()
    } else {
        let s = open_targets(ops, i - 1);
        let k = i - 1;
        match ops[k] {
            Instr::Loop(_) => s.push(k as u32),
            Instr::Block(_) | Instr::If(_) | Instr::TryTable(_, _) => match scan(ops, k, 1) {
                Some(e) => s.push(e as u32),
                None => s,
            },
            Instr::End => if s.len() == 0 {
                s
            } else {
                s.drop_last()
            },
            _ => s,
        }
    }
}

/// Later steps leave earlier tags as they are, and keep the tags' number.
proof fn lemma_run_frame(ops: Seq<Instr>, i: int, stack: Seq<u32>, tags: Seq<(Seq<u32>, u32)>)
    requires
        0 <= i,
        run(ops, i, stack, tags) is Some,
    ensures
        run(ops, i, stack, tags)->Some_0.len() == tags.len(),
        forall|j: int| 0 <= j < i && j < tags.len() ==> #[trigger] run(ops, i, stack, tags)->Some_0[j] == tags[j],
    decreases ops.len() - i,
{
    if i < ops.len() && i < tags.len() {
        let (s, t) = step(ops, i, stack, tags)->Some_0;
        lemma_run_frame(ops, i + 1, s, t);
    }
}

/// What the steps record from instruction `i` on, where the stack is the
/// one that the instructions before `i` leave.
proof fn lemma_run_records(ops: Seq<Instr>, i: int, tags: Seq<(Seq<u32>, u32)>)
    requires
        0 <= i,
        run(ops, i, open_targets(ops, i), tags) is Some,
    ensures
        ({
            let r = run(ops, i, open_targets(ops, i), tags)->Some_0;
            forall|j: int| i <= j < ops.len() && j < tags.len() ==> records(ops, j, #[trigger] r[j])
        }),
    decreases ops.len() - i,
{
    let s = open_targets(ops, i);
    if i < ops.len() && i < tags.len() {
        let (s2, t) = step(ops, i, s, tags)->Some_0;
        assert(open_targets(ops, i + 1) == s2);
        lemma_run_records(ops, i + 1, t);
        lemma_run_frame(ops, i + 1, s2, t);
        let r = run(ops, i, s, tags)->Some_0;
        assert(r == run(ops, i + 1, s2, t)->Some_0);
        assert(r[i] == t[i]);
        assert(records(ops, i, r[i]));
    }
}

/// What instruction `j` records in its tag: a loop targets its own index, a
/// block, `if` or `try_table` the `end` it scans to, and a branch the
/// targets of the open constructs its depths name, the innermost at depth
/// `0`.
pub open spec fn records(ops: Seq<Instr>, j: int, tag: (Seq<u32>, u32)) -> bool {
    match ops[j] {
        Instr::Loop(_) => tag.1 == j as u32,
        Instr::Block(_) | Instr::If(_) | Instr::TryTable(_, _) => scan(ops, j, 1) matches Some(e) && tag.1 == e as u32,
        Instr::Br(d) | Instr::BrIf(d) => tag.0 == seq![resolve(open_targets(ops, j), d)],
        Instr::BrTable(ts, d) => tag.0 == ts@.push(d).map_values(|x: u32| resolve(open_targets(ops, j), x)),
        _ => true,
    }
}

/// The targets that [`Tags::assign_targets`] records: for every instruction
/// that has a tag, a loop's target is its own index, a block's is the `end`
/// it scans to, and a branch out of `d` constructs targets the `d`-th
/// innermost construct open at it.
pub proof fn lemma_assigned_targets(ops: Seq<Instr>, tags: Seq<(Seq<u32>, u32)>)
    requires
        run(ops, 0, Seq::empty(), tags) is Some,
    ensures
        ({
            let r = run(ops, 0, Seq::empty(), tags)->Some_0;
            &&& r.len() == tags.len()
            &&& forall|j: int| 0 <= j < ops.len() && j < tags.len() ==> records(ops, j, #[trigger] r[j])
        }),
{
    assert(open_targets(ops, 0) == Seq::<u32>::empty());
    lemma_run_records(ops, 0, tags);
    lemma_run_frame(ops, 0, Seq::empty(), tags);
}

/// Finds the `end` closing the last of the blocks open at `begin`, as
/// [`scan`] does from `begin` with one block open.
fn scan_block(ops: &[Instr], begin: usize) -> (res: Option<usize>)
    ensures
        match res {
            Some(e) => e < ops@.len() && scan(ops@, begin as int, 1) == Some(e as int),
            None => scan(ops@, begin as int, 1) is None,
        },
{
    let mut depth: u128 = 1;
    let mut i = begin;
    while i < ops.len()
        invariant
            begin <= i,
            1 <= depth <= i - begin + 1,
            scan(ops@, begin as int, 1) == scan(ops@, i as int, depth as int),
        decreases ops@.len() - i,
    {
        match &ops[i] {
            Instr::Loop(_) | Instr::Block(_) | Instr::If(_) | Instr::TryTable(_, _) => {
                depth += 1;
            },
            Instr::End => {
                depth -= 1;
                if depth == 0 {
                    return Some(i);
                }
            },
            _ => {},
        }
        i += 1;
    }
    None
}

impl<'a> Tags<'a> {
    /// Whether [`Tags::assign_targets`] can run on `ops`: every block it
    /// scans is closed and every branch stays within the enclosing blocks.
    #[verifier::loop_isolation(false)]
    pub fn assignable(&self, ops: &[Instr]) -> (res: bool)
        ensures
            res == run(ops@, 0, Seq::empty(), tags_view(old(self.tags)@)) is Some,
    {
        let ghost t0 = tags_view(self.tags@);
        let ghost mut tv = t0;
        let mut stack: Vec<u32> = Vec::new();
        let mut i: usize = 0;
        while i < ops.len() && i < self.tags.len()
            invariant
                i <= ops@.len(),
                tv.len() == self.tags@.len(),
                t0 == tags_view(self.tags@),
                run(ops@, 0, Seq::empty(), t0) == run(ops@, i as int, stack@, tv),
            decreases ops@.len() - i,
        {
            let ghost s0 = stack@;
            match &ops[i] {
                Instr::Loop(_) => {
                    assert(ops@[i as int] is Loop);
                    stack.push(#[verifier::truncate] (i as u32));
                    assert(stack@ == s0.push(i as u32));
                },
                Instr::Block(_) | Instr::If(_) | Instr::TryTable(_, _) => {
                    match scan_block(ops, i) {
                        Some(end) => stack.push(end as u32),
                        None => return false,
                    }
                },
                Instr::End => {
                    stack.pop();
                    assert(s0.len() > 0 ==> stack@ =~= s0.drop_last());
                },
                Instr::Br(d) | Instr::BrIf(d) => {
                    if *d as usize >= stack.len() {
                        return false;
                    }
                },
                Instr::BrTable(ts, d) => {
                    if *d as usize >= stack.len() {
                        assert(!resolvable(s0, ts@.push(*d))) by {
                            assert(ts@.push(*d)[ts@.len() as int] == *d);
                        }
                        return false;
                    }
                    let mut k: usize = 0;
                    while k < ts.len()
                        invariant
                            k <= ts@.len(),
                            stack@ == s0,
                            forall|j: int| 0 <= j < k ==> #[trigger] ts@[j] < s0.len(),
                        decreases ts@.len() - k,
                    {
                        if ts[k] as usize >= stack.len() {
                            assert(ts@.push(*d)[k as int] == ts@[k as int]);
                            return false;
                        }
                        k += 1;
                    }
                    assert(resolvable(s0, ts@.push(*d))) by {
                        assert forall|j: int| 0 <= j < ts@.push(*d).len() implies #[trigger] ts@.push(*d)[j] < s0.len() by {
                            if j < ts@.len() {
                                assert(ts@.push(*d)[j] == ts@[j]);
                            }
                        }
                    }
                },
                _ => {},
            }
            proof {
                let st = step(ops@, i as int, s0, tv)->Some_0;
                assert(st.0 == stack@);
                tv = st.1;
            }
            i += 1;
        }
        true
    }

    /// Records the branch targets of `ops` in the tags, instruction by
    /// instruction, while there are both an instruction and a tag.
    #[verifier::loop_isolation(false)]
    pub fn assign_targets(&mut self, ops: &[Instr])
        requires
            run(ops@, 0, Seq::empty(), tags_view(old(self).tags@)) is Some,
        ensures
            Some(tags_view(final(self).tags@)) == run(ops@, 0, Seq::empty(), tags_view(old(self).tags@)),
    {
        let ghost t0 = tags_view(self.tags@);
        let mut stack: Vec<u32> = Vec::new();
        let mut i: usize = 0;
        while i < ops.len() && i < self.tags.len()
            invariant
                i <= ops@.len(),
                run(ops@, 0, Seq::empty(), t0) is Some,
                run(ops@, 0, Seq::empty(), t0) == run(ops@, i as int, stack@, tags_view(self.tags@)),
            decreases ops@.len() - i,
        {
            let ghost s0 = stack@;
            let ghost tv = tags_view(self.tags@);
            match &ops[i] {
                Instr::Loop(_) => {
                    stack.push(#[verifier::truncate] (i as u32));
                    self.tags[i].mtarget = #[verifier::truncate] (i as u32);
                    assert(tags_view(self.tags@) =~= tv.update(i as int, (tv[i as int].0, i as u32)));
                },
                Instr::Block(_) | Instr::If(_) | Instr::TryTable(_, _) => {
                    let end = match scan_block(ops, i) {
                        Some(end) => end,
                        None => {
                            assert(false);
                            return;
                        },
                    };
                    stack.push(end as u32);
                    self.tags[i].mtarget = end as u32;
                    assert(tags_view(self.tags@) =~= tv.update(i as int, (tv[i as int].0, end as u32)));
                },
                Instr::End => {
                    stack.pop();
                    assert(s0.len() > 0 ==> stack@ =~= s0.drop_last());
                },
                Instr::Br(d) | Instr::BrIf(d) => {
                    let target = stack[stack.len() - 1 - *d as usize];
                    self.tags[i].target = vec![target];
                    assert(self.tags@[i as int].target@ =~= seq![resolve(s0, *d)]);
                    assert(tags_view(self.tags@) =~= tv.update(i as int, (seq![resolve(s0, *d)], tv[i as int].1)));
                },
                Instr::BrTable(ts, d) => {
                    let ghost ds = ts@.push(*d);
                    let mut found: Vec<u32> = Vec::new();
                    let mut k: usize = 0;
                    while k < ts.len()
                        invariant
                            k <= ts@.len(),
                            stack@ == s0,
                            ds == ts@.push(*d),
                            resolvable(s0, ds),
                            found@ == ds.take(k as int).map_values(|x: u32| resolve(s0, x)),
                        decreases ts@.len() - k,
                    {
                        assert(ds[k as int] == ts@[k as int]);
                        let target = stack[stack.len() - 1 - ts[k] as usize];
                        found.push(target);
                        assert(found@ =~= ds.take(k + 1).map_values(|x: u32| resolve(s0, x)));
                        k += 1;
                    }
                    assert(ds[ts@.len() as int] == *d);
                    let target = stack[stack.len() - 1 - *d as usize];
                    found.push(target);
                    assert(found@ =~= ds.map_values(|x: u32| resolve(s0, x)));
                    self.tags[i].target = found;
                    assert(tags_view(self.tags@) =~= tv.update(i as int, (ds.map_values(|x: u32| resolve(s0, x)), tv[i as int].1)));
                },
                _ => {},
            }
            proof {
                let st = step(ops@, i as int, s0, tv)->Some_0;
                assert(st.0 == stack@);
                assert(tags_view(self.tags@) =~= st.1);
            }
            i += 1;
        }
    }
}

} // verus!
