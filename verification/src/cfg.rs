use vstd::prelude::*;

use std::collections::HashMap;

use crate::builder::BasicBlockIdx;
use crate::ir::{label_view, Function, FunctionPrototype, Instruction, Label, LabelIdx};

verus! {

/// How a basic block ends, in terms of labels.
#[derive(Debug, PartialEq, Eq, Clone, Copy, Structural)]
pub enum LabeledExit {
    Fallthrough,
    Unconditional(LabelIdx),
    Conditional { if_true: LabelIdx, if_false: LabelIdx },
    Return,
}

/// A basic block of a function.
#[derive(Debug, Clone, Copy)]
pub struct BasicBlock<'program> {
    pub label: Option<Label<'program>>,
    /// This includes the exit instruction if one is present (e.g., a `br` or
    /// `jmp`).
    pub instructions: &'program [Instruction],
    pub is_entry: bool,
    pub exit: LabeledExit,
    /// Offset of the block's first instruction within its function.
    pub offset: usize,
}

/// How a basic block ends, in terms of blocks.
#[derive(Debug, PartialEq, Eq, Clone, Copy, Structural)]
pub enum Exit {
    Unconditional(BasicBlockIdx),
    Conditional { if_true: BasicBlockIdx, if_false: BasicBlockIdx },
    Return,
}

/// The control flow graph of a function. Blocks are numbered from 0 in the
/// order in which they appear in the function.
#[derive(Debug)]
pub struct Cfg<'program> {
    pub prototype: FunctionPrototype,
    pub entry: BasicBlockIdx,
    pub vertices: Vec<BasicBlock<'program>>,
    pub edges: Vec<Exit>,
    pub rev_edges: Vec<Vec<BasicBlockIdx>>,
}

/// The blocks an exit leads to, in order.
pub open spec fn exit_targets(e: Exit) -> Seq<usize> {
    match e {
        Exit::Unconditional(s) => seq![s.0],
        Exit::Conditional { if_true, if_false } => seq![if_true.0, if_false.0],
        Exit::Return => Seq::empty(),
    }
}

/// Indices of a list of blocks.
pub open spec fn block_indices(s: Seq<BasicBlockIdx>) -> Seq<usize> {
    s.map_values(|b: BasicBlockIdx| b.0)
}

impl<'program> Cfg<'program> {
    /// The blocks that `current` may jump to, in order.
    pub fn successors(&self, current: BasicBlockIdx) -> (r: Vec<BasicBlockIdx>)
        requires
            current.0 < self.edges@.len(),
        ensures
            block_indices(r@) == exit_targets(self.edges@[current.0 as int]),
    {
        let r = match &self.edges[current.0] {
            Exit::Unconditional(successor) => vec![*successor],
            Exit::Conditional { if_true, if_false } => vec![*if_true, *if_false],
            Exit::Return => vec![],
        };
        proof {
            assert(block_indices(r@) =~= exit_targets(self.edges@[current.0 as int]));
        }
        r
    }

    /// The blocks that may jump to `current`.
    pub fn predecessors(&self, current: BasicBlockIdx) -> (r: Vec<BasicBlockIdx>)
        requires
            current.0 < self.rev_edges@.len(),
        ensures
            r@ == self.rev_edges@[current.0 as int]@,
    {
        let preds = &self.rev_edges[current.0];
        let mut r: Vec<BasicBlockIdx> = Vec::new();
        let mut i: usize = 0;
        while i < preds.len()
            invariant
                i <= preds.len(),
                r@ == preds@.subrange(0, i as int),
            decreases preds.len() - i,
        {
            r.push(preds[i]);
            i = i + 1;
        }
        proof {
            assert(r@ =~= preds@);
        }
        r
    }
}

/// `b` once for every entry of `ts` equal to `s`.
pub open spec fn edges_to(ts: Seq<usize>, s: usize, b: usize) -> Seq<usize>
    decreases ts.len(),
{
    if ts.len() == 0 {
        Seq::empty()
    } else {
        edges_to(ts.drop_last(), s, b) + if ts.last() == s {
            seq![b]
        } else {
            Seq::empty()
        }
    }
}

/// The predecessors of `s` among the blocks below `k`, in block order, a
/// block listed once per edge it has to `s`.
pub open spec fn pred_list(adj: Seq<Seq<usize>>, s: usize, k: nat) -> Seq<usize>
    decreases k,
{
    if k == 0 {
        Seq::empty()
    } else {
        let b = (k - 1) as nat;
        pred_list(adj, s, b) + edges_to(adj[b as int], s, b as usize)
    }
}

/// `p` is a path in the graph `adj`.
pub open spec fn is_path(adj: Seq<Seq<usize>>, p: Seq<usize>) -> bool {
    &&& p.len() > 0
    &&& forall|i: int| 0 <= i < p.len() ==> #[trigger] p[i] < adj.len()
    &&& forall|i: int| 0 <= i < p.len() - 1 ==> adj[#[trigger] p[i] as int].contains(p[i + 1])
}

/// `v` can be reached from `s` in the graph `adj`.
pub open spec fn reachable(adj: Seq<Seq<usize>>, s: usize, v: usize) -> bool {
    exists|p: Seq<usize>| is_path(adj, p) && p[0] == s && p.last() == v
}

/// Every edge of the graph leads to a vertex of the graph.
pub open spec fn edges_in_range(adj: Seq<Seq<usize>>) -> bool {
    forall|b: int, k: int|
        0 <= b < adj.len() && 0 <= k < adj[b].len() ==> #[trigger] adj[b][k] < adj.len()
}

impl<'program> Cfg<'program> {
    /// Number of blocks.
    pub open spec fn num_blocks(&self) -> nat {
        self.vertices@.len()
    }

    /// The successors of each block.
    pub open spec fn adj(&self) -> Seq<Seq<usize>> {
        Seq::new(self.edges@.len(), |b: int| exit_targets(self.edges@[b]))
    }

    /// The predecessors of each block, as stored.
    pub open spec fn radj(&self) -> Seq<Seq<usize>> {
        Seq::new(self.rev_edges@.len(), |b: int| block_indices(self.rev_edges@[b]@))
    }

    /// The graph's tables agree with one another.
    pub open spec fn wf(&self) -> bool {
        let n = self.num_blocks();
        &&& self.edges@.len() == n
        &&& self.rev_edges@.len() == n
        &&& edges_in_range(self.adj())
        &&& forall|s: int| 0 <= s < n ==> #[trigger] self.radj()[s] == pred_list(self.adj(), s as usize, n)
        &&& n > 0 ==> self.entry.0 < n
    }

    /// `v` is reachable from the entry block.
    pub open spec fn reaches(&self, v: usize) -> bool {
        reachable(self.adj(), self.entry.0, v)
    }
}


/// The model of a basic block: its label, the range of its instructions
/// within its function, its exit and whether it is marked as the entry.
pub struct BlockView {
    pub label: Option<(LabelIdx, Seq<char>, int)>,
    pub start: int,
    pub end: int,
    pub exit: LabeledExit,
    pub is_entry: bool,
}

impl<'program> View for BasicBlock<'program> {
    type V = BlockView;

    open spec fn view(&self) -> BlockView {
        BlockView {
            label: match self.label {
                Some(l) => Some(label_view(l)),
                None => None,
            },
            start: self.offset as int,
            end: self.offset + self.instructions@.len(),
            exit: self.exit,
            is_entry: self.is_entry,
        }
    }
}

/// The blocks' models.
pub open spec fn block_views<'program>(bs: Seq<BasicBlock<'program>>) -> Seq<BlockView> {
    bs.map_values(|b: BasicBlock<'program>| b@)
}

/// A jump, branch or return ends a basic block.
pub open spec fn is_terminator(i: Instruction) -> bool {
    i is Jmp || i is Br || i is Ret
}

/// How an instruction ends its block.
pub open spec fn exit_of(i: Instruction) -> LabeledExit {
    match i {
        Instruction::Jmp(l) => LabeledExit::Unconditional(l),
        Instruction::Br(_, t, f) => LabeledExit::Conditional { if_true: t, if_false: f },
        Instruction::Ret(_) => LabeledExit::Return,
        _ => LabeledExit::Fallthrough,
    }
}

/// The block `[start, end)` ends with a jump, branch or return.
pub open spec fn ends_with_terminator(instrs: Seq<Instruction>, start: int, end: int) -> bool {
    start < end && is_terminator(instrs[end - 1])
}

/// How the block `[start, end)` ends: by its last instruction if that is a
/// jump, branch or return, else by falling through.
pub open spec fn block_exit(instrs: Seq<Instruction>, start: int, end: int) -> LabeledExit {
    if ends_with_terminator(instrs, start, end) {
        exit_of(instrs[end - 1])
    } else {
        LabeledExit::Fallthrough
    }
}

/// The labels of a list of blocks, in order.
pub open spec fn labels_of(bs: Seq<BlockView>) -> Seq<(LabelIdx, Seq<char>, int)>
    decreases bs.len(),
{
    if bs.len() == 0 {
        Seq::empty()
    } else {
        labels_of(bs.drop_last()) + match bs.last().label {
            Some(l) => seq![l],
            None => Seq::empty(),
        }
    }
}

/// `bs` are the basic blocks of a function with instructions `instrs` and
/// labels `labels` (ordered by offset): they cover the instructions in
/// order; a block starts at each label, the label's own, and after each
/// jump, branch or return, and nowhere else; no block is empty unless it has
/// a label; each block's exit is given by its last instruction.
pub open spec fn is_block_split(
    instrs: Seq<Instruction>,
    labels: Seq<(LabelIdx, Seq<char>, int)>,
    bs: Seq<BlockView>,
) -> bool {
    &&& bs.len() == 0 ==> instrs.len() == 0
    &&& bs.len() > 0 ==> bs[0].start == 0 && bs.last().end == instrs.len()
    &&& forall|k: int| 0 <= k < bs.len() - 1 ==> (#[trigger] bs[k]).end == bs[k + 1].start
    &&& forall|k: int| 0 <= k < bs.len() ==> (#[trigger] bs[k]).start <= bs[k].end
    &&& labels_of(bs) == labels
    &&& forall|k: int|
        0 <= k < bs.len() ==> match (#[trigger] bs[k]).label {
            Some(l) => l.2 == bs[k].start,
            None => true,
        }
    &&& forall|k: int| 0 <= k < bs.len() ==> (#[trigger] bs[k]).start < bs[k].end || bs[k].label is Some
    &&& forall|k: int, i: int|
        0 <= k < bs.len() && (#[trigger] bs[k]).start <= i < bs[k].end - 1 ==> !is_terminator(#[trigger] instrs[i])
    &&& forall|k: int|
        0 <= k < bs.len() - 1 ==> ends_with_terminator(instrs, (#[trigger] bs[k]).start, bs[k].end) || bs[k
            + 1].label is Some
    &&& forall|k: int| 0 <= k < bs.len() ==> (#[trigger] bs[k]).exit == block_exit(instrs, bs[k].start, bs[k].end)
    &&& forall|k: int| 0 <= k < bs.len() ==> !(#[trigger] bs[k]).is_entry
}

/// The last of the blocks labeled `l`.
pub open spec fn last_labeled(bs: Seq<BlockView>, l: LabelIdx) -> Option<int>
    decreases bs.len(),
{
    if bs.len() == 0 {
        None
    } else if match bs.last().label {
        Some(x) => x.0 == l,
        None => false,
    } {
        Some(bs.len() - 1)
    } else {
        last_labeled(bs.drop_last(), l)
    }
}

/// The edge out of a block whose exit is `e`, its labels resolved by `m`, in
/// a graph of `n` blocks.
pub open spec fn resolve_exit(m: Map<u32, usize>, e: LabeledExit, k: int, n: int) -> Exit {
    match e {
        LabeledExit::Fallthrough => if k + 1 < n {
            Exit::Unconditional(BasicBlockIdx((k + 1) as usize))
        } else {
            Exit::Return
        },
        LabeledExit::Unconditional(l) => Exit::Unconditional(BasicBlockIdx(m[l.0])),
        LabeledExit::Conditional { if_true, if_false } => Exit::Conditional {
            if_true: BasicBlockIdx(m[if_true.0]),
            if_false: BasicBlockIdx(m[if_false.0]),
        },
        LabeledExit::Return => Exit::Return,
    }
}

/// The labels an exit names.
pub open spec fn exit_labels(e: LabeledExit) -> Seq<LabelIdx> {
    match e {
        LabeledExit::Unconditional(l) => seq![l],
        LabeledExit::Conditional { if_true, if_false } => seq![if_true, if_false],
        _ => Seq::empty(),
    }
}

/// The label-to-block map of blocks `bs`: each label to its last block.
pub open spec fn label_map_of(bs: Seq<BlockView>) -> Map<u32, usize> {
    Map::new(
        |l: u32| last_labeled(bs, LabelIdx(l)) is Some,
        |l: u32| last_labeled(bs, LabelIdx(l))->0 as usize,
    )
}

/// Builds a control flow graph block by block.
pub struct CfgBuilder<'a, 'program> {
    pub cfg: Cfg<'program>,
    pub function: &'a Function<'program>,
    /// Whether the entry point has been set (in `cfg.entry`).
    pub entry_is_init: bool,
    pub current_label: Option<Label<'program>>,
    pub current_is_entry: bool,
    pub current_exit: LabeledExit,
    pub current_range: core::ops::Range<usize>,
    /// Each label's block, by the label's index.
    pub labels_to_blocks: HashMap<u32, usize>,
    pub previous_idx: Option<BasicBlockIdx>,
}

impl<'a, 'program> CfgBuilder<'a, 'program> {
    /// A builder with no blocks, whose current block is empty.
    pub fn new(function: &'a Function<'program>) -> (r: Self)
        ensures
            r.function == function,
            r.cfg.vertices@ == Seq::<BasicBlock<'program>>::empty(),
            r.cfg.edges@ == Seq::<Exit>::empty(),
            r.cfg.rev_edges@ == Seq::<Vec<BasicBlockIdx>>::empty(),
            r.cfg.entry == BasicBlockIdx(0),
            r.cfg.prototype.name@ == function.name@,
            r.cfg.prototype.parameters@ == function.parameters@,
            r.cfg.prototype.return_type == function.return_type,
            !r.entry_is_init,
            r.current_label is None,
            !r.current_is_entry,
            r.current_exit == LabeledExit::Fallthrough,
            r.current_range == (0usize..0usize),
            r.labels_to_blocks@ == Map::<u32, usize>::empty(),
            r.previous_idx is None,
    {
        let cfg = Cfg {
            prototype: function.prototype(),
            entry: BasicBlockIdx(0),
            vertices: Vec::new(),
            edges: Vec::new(),
            rev_edges: Vec::new(),
        };
        CfgBuilder {
            cfg,
            function,
            entry_is_init: false,
            current_label: None,
            current_is_entry: false,
            current_exit: LabeledExit::Fallthrough,
            current_range: 0..0,
            labels_to_blocks: HashMap::new(),
            previous_idx: None,
        }
    }

    /// Extends the current block by one instruction.
    pub fn add_to_current(&mut self)
        requires
            old(self).current_range.end < usize::MAX,
        ensures
            final(self).current_range == (old(self).current_range.start..(old(self).current_range.end + 1) as usize),
            final(self).cfg == old(self).cfg,
            final(self).function == old(self).function,
            final(self).entry_is_init == old(self).entry_is_init,
            final(self).current_label == old(self).current_label,
            final(self).current_is_entry == old(self).current_is_entry,
            final(self).current_exit == old(self).current_exit,
            final(self).labels_to_blocks@ == old(self).labels_to_blocks@,
            final(self).previous_idx == old(self).previous_idx,
    {
        self.current_range.end = self.current_range.end + 1;
    }

    /// Labels the current block with the first label of the function whose
    /// index is `idx`.
    pub fn set_current_label(&mut self, idx: LabelIdx)
        requires
            exists|j: int| 0 <= j < old(self).function.labels@.len() && (#[trigger] old(self).function.labels@[j]).idx == idx,
        ensures
            ({
                let ls = old(self).function.labels@;
                exists|j: int|
                    0 <= j < ls.len() && final(self).current_label == Some(#[trigger] ls[j]) && ls[j].idx == idx
                        && forall|i: int| 0 <= i < j ==> (#[trigger] ls[i]).idx != idx
            }),
            final(self).cfg == old(self).cfg,
            final(self).function == old(self).function,
            final(self).entry_is_init == old(self).entry_is_init,
            final(self).current_range == old(self).current_range,
            final(self).current_is_entry == old(self).current_is_entry,
            final(self).current_exit == old(self).current_exit,
            final(self).labels_to_blocks@ == old(self).labels_to_blocks@,
            final(self).previous_idx == old(self).previous_idx,
    {
        let labels = &self.function.labels;
        let mut j: usize = 0;
        while j < labels.len() && labels[j].idx != idx
            invariant
                j <= labels@.len(),
                forall|i: int| 0 <= i < j ==> (#[trigger] labels@[i]).idx != idx,
                exists|k: int| 0 <= k < labels@.len() && (#[trigger] labels@[k]).idx == idx,
            decreases labels.len() - j,
        {
            j = j + 1;
        }
        if j == labels.len() {
            proof {
                let k = choose|k: int| 0 <= k < labels@.len() && (#[trigger] labels@[k]).idx == idx;
                assert(labels@[k].idx != idx);
            }
        }
        let found = labels[j];
        self.current_label = Some(found);
        proof {
            assert(found == self.function.labels@[j as int]);
            assert(found.idx == idx);
        }
    }

    /// Marks the current block as the entry.
    pub fn mark_current_as_entry(&mut self)
        ensures
            final(self).current_is_entry,
            final(self).cfg == old(self).cfg,
            final(self).function == old(self).function,
            final(self).entry_is_init == old(self).entry_is_init,
            final(self).current_label == old(self).current_label,
            final(self).current_range == old(self).current_range,
            final(self).current_exit == old(self).current_exit,
            final(self).labels_to_blocks@ == old(self).labels_to_blocks@,
            final(self).previous_idx == old(self).previous_idx,
    {
        self.current_is_entry = true;
    }

    /// Sets how the current block ends; falling through is what a block
    /// does when no exit is set.
    pub fn set_current_exit(&mut self, exit: LabeledExit)
        requires
            exit != LabeledExit::Fallthrough,
        ensures
            final(self).current_exit == exit,
            final(self).cfg == old(self).cfg,
            final(self).function == old(self).function,
            final(self).entry_is_init == old(self).entry_is_init,
            final(self).current_label == old(self).current_label,
            final(self).current_range == old(self).current_range,
            final(self).current_is_entry == old(self).current_is_entry,
            final(self).labels_to_blocks@ == old(self).labels_to_blocks@,
            final(self).previous_idx == old(self).previous_idx,
    {
        self.current_exit = exit;
    }

    /// Ends the current block: it becomes the next block of the graph (the
    /// entry, if it is the first), its label now names it, and an empty,
    /// unlabeled block starts where it ended.
    pub fn finish_current_and_start_new_block(&mut self)
        requires
            old(self).current_range.start <= old(self).current_range.end <= old(self).function.instructions@.len(),
            old(self).cfg.vertices@.len() < usize::MAX,
        ensures
            ({
                let n = old(self).cfg.vertices@.len();
                let r = old(self).current_range;
                let v = final(self).cfg.vertices@;
                &&& v.len() == n + 1
                &&& forall|k: int| 0 <= k < n ==> v[k] == old(self).cfg.vertices@[k]
                &&& v[n as int].label == old(self).current_label
                &&& v[n as int].instructions@ == old(self).function.instructions@.subrange(r.start as int, r.end as int)
                &&& v[n as int].offset == r.start
                &&& v[n as int].exit == old(self).current_exit
                &&& v[n as int].is_entry == old(self).current_is_entry
                &&& final(self).current_range == (r.end..r.end)
                &&& final(self).cfg.entry == if old(self).entry_is_init {
                    old(self).cfg.entry
                } else {
                    BasicBlockIdx(n as usize)
                }
                &&& final(self).labels_to_blocks@ == match old(self).current_label {
                    Some(l) => old(self).labels_to_blocks@.insert(l.idx.0, n as usize),
                    None => old(self).labels_to_blocks@,
                }
                &&& final(self).previous_idx == Some(BasicBlockIdx(n as usize))
            }),
            final(self).entry_is_init,
            final(self).current_label is None,
            !final(self).current_is_entry,
            final(self).current_exit == LabeledExit::Fallthrough,
            final(self).function == old(self).function,
            final(self).cfg.edges == old(self).cfg.edges,
            final(self).cfg.rev_edges == old(self).cfg.rev_edges,
            final(self).cfg.prototype == old(self).cfg.prototype,
    {
        let current_label = self.current_label;
        let block = BasicBlock {
            label: current_label,
            instructions: vstd::slice::slice_subrange(
                self.function.instructions,
                self.current_range.start,
                self.current_range.end,
            ),
            is_entry: self.current_is_entry,
            exit: self.current_exit,
            offset: self.current_range.start,
        };
        self.current_label = None;
        self.current_is_entry = false;
        self.current_exit = LabeledExit::Fallthrough;
        self.cfg.vertices.push(block);
        let block_idx = BasicBlockIdx(self.cfg.vertices.len() - 1);
        self.current_range = self.current_range.end..self.current_range.end;
        if !self.entry_is_init {
            self.cfg.entry = block_idx;
            self.entry_is_init = true;
        }
        self.previous_idx = Some(block_idx);
        if let Some(label) = current_label {
            self.labels_to_blocks.insert(label.idx.0, block_idx.0);
        }
    }

    /// The labels that the blocks' exits name are all known.
    pub open spec fn exits_resolvable(&self) -> bool {
        let v = self.cfg.vertices@;
        let m = self.labels_to_blocks@;
        &&& forall|k: int, j: int|
            0 <= k < v.len() && 0 <= j < exit_labels(v[k].exit).len() ==> m.contains_key(
                (#[trigger] exit_labels(v[k].exit)[j]).0,
            )
        &&& forall|l: u32| #[trigger] m.contains_key(l) ==> m[l] < v.len()
    }

    /// The graph: the blocks as they are, each one's labeled exit resolved
    /// to blocks (falling through goes to the next block, or returns from the
    /// last), and each block's predecessors in block order.
    pub fn finish(self) -> (r: Cfg<'program>)
        requires
            self.exits_resolvable(),
            self.cfg.vertices@.len() > 0 ==> self.cfg.entry.0 < self.cfg.vertices@.len(),
        ensures
            r.vertices@ == self.cfg.vertices@,
            r.entry == self.cfg.entry,
            r.prototype == self.cfg.prototype,
            r.edges@ == Seq::new(
                self.cfg.vertices@.len(),
                |k: int| resolve_exit(self.labels_to_blocks@, self.cfg.vertices@[k].exit, k, self.cfg.vertices@.len() as int),
            ),
            r.wf(),
    {
        let CfgBuilder { cfg, function: _, entry_is_init: _, current_label: _, current_is_entry: _, current_exit: _, current_range: _, labels_to_blocks, previous_idx: _ } = self;
        let Cfg { prototype, entry, vertices, edges: _, rev_edges: _ } = cfg;
        let n = vertices.len();
        let ghost lm = labels_to_blocks@;
        let ghost es = Seq::new(n as nat, |k: int| resolve_exit(lm, vertices@[k].exit, k, n as int));
        let ghost adj = Seq::new(n as nat, |k: int| exit_targets(es[k]));
        let mut rev_edges: Vec<Vec<BasicBlockIdx>> = Vec::new();
        let mut s: usize = 0;
        while s < n
            invariant
                s <= n,
                rev_edges@.len() == s,
                forall|t: int| 0 <= t < s ==> (#[trigger] rev_edges@[t])@ == Seq::<BasicBlockIdx>::empty(),
            decreases n - s,
        {
            rev_edges.push(Vec::new());
            s = s + 1;
        }
        let mut edges: Vec<Exit> = Vec::new();
        let mut b: usize = 0;
        while b < n
            invariant
                n == vertices@.len(),
                b <= n,
                self.exits_resolvable(),
                lm == labels_to_blocks@,
                lm == self.labels_to_blocks@,
                vertices@ == self.cfg.vertices@,
                es == Seq::new(n as nat, |k: int| resolve_exit(lm, vertices@[k].exit, k, n as int)),
                adj == Seq::new(n as nat, |k: int| exit_targets(es[k])),
                edges@ == es.take(b as int),
                rev_edges@.len() == n,
                forall|t: int| 0 <= t < n ==> block_indices((#[trigger] rev_edges@[t])@) == pred_list(adj, t as usize, b as nat),
            decreases n - b,
        {
            let e = match vertices[b].exit {
                LabeledExit::Fallthrough => if b + 1 < n {
                    Exit::Unconditional(BasicBlockIdx(b + 1))
                } else {
                    Exit::Return
                },
                LabeledExit::Unconditional(always) => {
                    proof {
                        assert(exit_labels(vertices@[b as int].exit)[0] == always);
                    }
                    let destination = *labels_to_blocks.get(&always.0).unwrap();
                    Exit::Unconditional(BasicBlockIdx(destination))
                },
                LabeledExit::Conditional { if_true, if_false } => {
                    proof {
                        assert(exit_labels(vertices@[b as int].exit)[0] == if_true);
                        assert(exit_labels(vertices@[b as int].exit)[1] == if_false);
                    }
                    let t = *labels_to_blocks.get(&if_true.0).unwrap();
                    let f = *labels_to_blocks.get(&if_false.0).unwrap();
                    Exit::Conditional { if_true: BasicBlockIdx(t), if_false: BasicBlockIdx(f) }
                },
                LabeledExit::Return => Exit::Return,
            };
            proof {
                assert(e == es[b as int]);
                assert(adj[b as int] == exit_targets(e));
            }
            let ghost rev0 = rev_edges@;
            match e {
                Exit::Unconditional(t) => {
                    add_predecessor(&mut rev_edges, t.0, b);
                    proof {
                        assert forall|u: int| 0 <= u < n implies block_indices((#[trigger] rev_edges@[u])@) == pred_list(adj, u as usize, (b + 1) as nat) by {
                            lemma_pred_list_step(adj, u as usize, b as nat);
                            lemma_edges_to_one(t.0, u as usize, b);
                            assert(adj[b as int] == seq![t.0]);
                            assert(block_indices(rev0[u]@.push(BasicBlockIdx(b))) =~= block_indices(rev0[u]@).push(b));
                        }
                    }
                },
                Exit::Conditional { if_true, if_false } => {
                    add_predecessor(&mut rev_edges, if_true.0, b);
                    let ghost rev1 = rev_edges@;
                    add_predecessor(&mut rev_edges, if_false.0, b);
                    proof {
                        assert forall|u: int| 0 <= u < n implies block_indices((#[trigger] rev_edges@[u])@) == pred_list(adj, u as usize, (b + 1) as nat) by {
                            lemma_pred_list_step(adj, u as usize, b as nat);
                            lemma_edges_to_two(if_true.0, if_false.0, u as usize, b);
                            assert(adj[b as int] == seq![if_true.0, if_false.0]);
                            assert(block_indices(rev0[u]@.push(BasicBlockIdx(b))) =~= block_indices(rev0[u]@).push(b));
                            assert(block_indices(rev1[u]@.push(BasicBlockIdx(b))) =~= block_indices(rev1[u]@).push(b));
                        }
                    }
                },
                Exit::Return => {
                    proof {
                        assert forall|u: int| 0 <= u < n implies block_indices((#[trigger] rev_edges@[u])@) == pred_list(adj, u as usize, (b + 1) as nat) by {
                            lemma_pred_list_step(adj, u as usize, b as nat);
                        }
                    }
                },
            }
            edges.push(e);
            proof {
                assert(es.take(b + 1) =~= es.take(b as int).push(e));
            }
            b = b + 1;
        }
        let r = Cfg { prototype, entry, vertices, edges, rev_edges };
        proof {
            assert(es.take(n as int) =~= es);
            assert(r.edges@ == es);
            assert(r.adj() =~= adj);
            assert forall|k: int, j: int| 0 <= k < adj.len() && 0 <= j < adj[k].len() implies #[trigger] adj[k][j] < adj.len() by {
                let v = vertices@;
                match v[k].exit {
                    LabeledExit::Unconditional(l) => {
                        assert(exit_labels(v[k].exit)[0] == l);
                    },
                    LabeledExit::Conditional { if_true, if_false } => {
                        assert(exit_labels(v[k].exit)[0] == if_true);
                        assert(exit_labels(v[k].exit)[1] == if_false);
                    },
                    _ => {},
                }
            }
            assert forall|t: int| 0 <= t < n implies #[trigger] r.radj()[t] == pred_list(r.adj(), t as usize, r.num_blocks()) by {
                assert(r.radj()[t] == block_indices(r.rev_edges@[t]@));
            }
        }
        r
    }
}

/// Records `b` as a predecessor of `t`.
fn add_predecessor(rev_edges: &mut Vec<Vec<BasicBlockIdx>>, t: usize, b: usize)
    requires
        t < old(rev_edges)@.len(),
    ensures
        final(rev_edges)@.len() == old(rev_edges)@.len(),
        forall|u: int|
            0 <= u < old(rev_edges)@.len() ==> (#[trigger] final(rev_edges)@[u])@ == if u == t {
                old(rev_edges)@[u]@.push(BasicBlockIdx(b))
            } else {
                old(rev_edges)@[u]@
            },
{
    let mut list: Vec<BasicBlockIdx> = Vec::new();
    std::mem::swap(&mut list, &mut rev_edges[t]);
    list.push(BasicBlockIdx(b));
    rev_edges.set(t, list);
}

proof fn lemma_edges_to_one(t: usize, s: usize, b: usize)
    ensures
        edges_to(seq![t], s, b) == if t == s {
            seq![b]
        } else {
            Seq::<usize>::empty()
        },
{
    assert(seq![t].drop_last() =~= Seq::<usize>::empty());
    assert(edges_to(Seq::<usize>::empty(), s, b) == Seq::<usize>::empty());
    assert(Seq::<usize>::empty() + seq![b] =~= seq![b]);
    assert(Seq::<usize>::empty() + Seq::<usize>::empty() =~= Seq::<usize>::empty());
}

proof fn lemma_edges_to_two(t: usize, f: usize, s: usize, b: usize)
    ensures
        edges_to(seq![t, f], s, b) == (if t == s {
            seq![b]
        } else {
            Seq::<usize>::empty()
        }) + (if f == s {
            seq![b]
        } else {
            Seq::<usize>::empty()
        }),
{
    assert(seq![t, f].drop_last() =~= seq![t]);
    lemma_edges_to_one(t, s, b);
}

/// One more block on the predecessor lists.
pub proof fn lemma_pred_list_step(adj: Seq<Seq<usize>>, s: usize, b: nat)
    ensures
        pred_list(adj, s, b + 1) == pred_list(adj, s, b) + edges_to(adj[b as int], s, b as usize),
{
}

proof fn lemma_edges_to_contains(ts: Seq<usize>, s: usize, b: usize, p: usize)
    ensures
        edges_to(ts, s, b).contains(p) <==> (p == b && ts.contains(s)),
    decreases ts.len(),
{
    if ts.len() > 0 {
        lemma_edges_to_contains(ts.drop_last(), s, b, p);
        let pre = edges_to(ts.drop_last(), s, b);
        let tail = if ts.last() == s { seq![b] } else { Seq::<usize>::empty() };
        assert(edges_to(ts, s, b) == pre + tail);
        if edges_to(ts, s, b).contains(p) {
            let i = choose|i: int| 0 <= i < (pre + tail).len() && (pre + tail)[i] == p;
            if i >= pre.len() {
                assert(ts[ts.len() - 1] == s);
            } else {
                assert(pre.contains(p));
                let j = choose|j: int| 0 <= j < ts.drop_last().len() && ts.drop_last()[j] == s;
                assert(ts[j] == s);
            }
        }
        if p == b && ts.contains(s) {
            let j = choose|j: int| 0 <= j < ts.len() && ts[j] == s;
            if j == ts.len() - 1 {
                assert((pre + tail)[pre.len() as int] == p);
            } else {
                assert(ts.drop_last()[j] == s);
                assert(pre.contains(p));
                let m = choose|m: int| 0 <= m < pre.len() && pre[m] == p;
                assert((pre + tail)[m] == p);
            }
        }
    }
}

/// A vertex lies on the predecessor list of `s` exactly when it has an edge
/// to `s`.
pub proof fn lemma_pred_list_contains(adj: Seq<Seq<usize>>, s: usize, k: nat, p: usize)
    requires
        k <= adj.len(),
        adj.len() <= usize::MAX,
    ensures
        pred_list(adj, s, k).contains(p) <==> (p < k && adj[p as int].contains(s)),
    decreases k,
{
    if k > 0 {
        let b = (k - 1) as nat;
        assert(b as usize == b);
        lemma_pred_list_contains(adj, s, b, p);
        lemma_edges_to_contains(adj[b as int], s, b as usize, p);
        let pre = pred_list(adj, s, b);
        let tail = edges_to(adj[b as int], s, b as usize);
        assert(pred_list(adj, s, k) == pre + tail);
        if (pre + tail).contains(p) {
            let i = choose|i: int| 0 <= i < (pre + tail).len() && (pre + tail)[i] == p;
            if i >= pre.len() {
                assert(tail[i - pre.len()] == p);
                assert(tail.contains(p));
            } else {
                assert(pre[i] == p);
                assert(pre.contains(p));
            }
        }
        if p < k && adj[p as int].contains(s) {
            if p == b {
                assert(tail.contains(p));
                let m = choose|m: int| 0 <= m < tail.len() && tail[m] == p;
                assert((pre + tail)[pre.len() + m] == p);
            } else {
                assert(pre.contains(p));
                let m = choose|m: int| 0 <= m < pre.len() && pre[m] == p;
                assert((pre + tail)[m] == p);
            }
        }
    }
}

} // verus!
