use vstd::prelude::*;

use crate::builder::BasicBlockIdx;
use crate::cfg::{
    block_exit, block_views, ends_with_terminator, exit_labels, exit_of, is_block_split, is_terminator,
    label_map_of, labels_of, last_labeled, resolve_exit, BlockView, Cfg, CfgBuilder, LabeledExit,
};
use crate::ir::{label_view, Function, Instruction, Label, LabelIdx};

verus! {

/// The model of an optional label.
pub open spec fn opt_label_view(l: Option<Label>) -> Option<(LabelIdx, Seq<char>, int)> {
    match l {
        Some(x) => Some(label_view(x)),
        None => None,
    }
}

/// The sequence holding the value of an option, if any.
pub open spec fn opt_seq<T>(o: Option<T>) -> Seq<T> {
    match o {
        Some(x) => seq![x],
        None => Seq::empty(),
    }
}

/// The models of a function's labels.
pub open spec fn label_views(f: Function) -> Seq<(LabelIdx, Seq<char>, int)> {
    f.labels@.map_values(|l: Label| label_view(l))
}

/// Every jump and branch of the function names one of its labels.
pub open spec fn targets_known(f: Function) -> bool {
    forall|i: int, t: int|
        0 <= i < f.instructions@.len() && 0 <= t < exit_labels(exit_of(f.instructions@[i])).len() ==> exists|j: int|
            0 <= j < f.labels@.len() && (#[trigger] f.labels@[j]).idx == #[trigger] exit_labels(
                exit_of(f.instructions@[i]),
            )[t]
}

/// Whether the function has a label of index `l`.
fn has_label(f: &Function, l: LabelIdx) -> (r: bool)
    ensures
        r == exists|j: int| 0 <= j < f.labels@.len() && (#[trigger] f.labels@[j]).idx == l,
{
    let mut j: usize = 0;
    while j < f.labels.len()
        invariant
            j <= f.labels@.len(),
            forall|q: int| 0 <= q < j ==> (#[trigger] f.labels@[q]).idx != l,
        decreases f.labels.len() - j,
    {
        if f.labels[j].idx.0 == l.0 {
            return true;
        }
        j = j + 1;
    }
    false
}

proof fn lemma_target_known(f: Function, i: int, t: int)
    requires
        targets_known(f),
        0 <= i < f.instructions@.len(),
        0 <= t < exit_labels(exit_of(f.instructions@[i])).len(),
    ensures
        exists|j: int| 0 <= j < f.labels@.len() && (#[trigger] f.labels@[j]).idx == exit_labels(exit_of(f.instructions@[i]))[t],
{
}

/// Whether every jump and branch of the function names one of its labels.
pub fn targets_are_known(f: &Function) -> (r: bool)
    ensures
        r == targets_known(*f),
{
    let mut i: usize = 0;
    while i < f.instructions.len()
        invariant
            i <= f.instructions@.len(),
            forall|ii: int, t: int|
                0 <= ii < i && 0 <= t < exit_labels(exit_of(f.instructions@[ii])).len() ==> exists|j: int|
                    0 <= j < f.labels@.len() && (#[trigger] f.labels@[j]).idx == #[trigger] exit_labels(
                        exit_of(f.instructions@[ii]),
                    )[t],
        decreases f.instructions.len() - i,
    {
        let ok = match &f.instructions[i] {
            Instruction::Jmp(l) => has_label(f, *l),
            Instruction::Br(_, t, e) => has_label(f, *t) && has_label(f, *e),
            _ => true,
        };
        if !ok {
            proof {
                let ls = exit_labels(exit_of(f.instructions@[i as int]));
                if ls.len() > 0 && !(exists|j: int| 0 <= j < f.labels@.len() && (#[trigger] f.labels@[j]).idx == ls[0]) {
                    if targets_known(*f) {
                        lemma_target_known(*f, i as int, 0);
                    }
                } else {
                    assert(!(exists|j: int| 0 <= j < f.labels@.len() && (#[trigger] f.labels@[j]).idx == ls[1]));
                    assert(!targets_known(*f));
                }
            }
            return false;
        }
        proof {
            let ls = exit_labels(exit_of(f.instructions@[i as int]));
            assert forall|t: int| 0 <= t < ls.len() implies exists|j: int|
                0 <= j < f.labels@.len() && (#[trigger] f.labels@[j]).idx == #[trigger] ls[t] by {}
        }
        i = i + 1;
    }
    true
}

/// The finished blocks `bs`, followed by the current block `[cs, ce)`, split
/// the instructions before `ce` as the final split will.
pub open spec fn split_core(instrs: Seq<Instruction>, bs: Seq<BlockView>, cs: int, ce: int) -> bool {
    &&& bs.len() == 0 ==> cs == 0
    &&& bs.len() > 0 ==> bs[0].start == 0 && bs.last().end == cs
    &&& 0 <= cs <= ce <= instrs.len()
    &&& forall|k: int| 0 <= k < bs.len() - 1 ==> (#[trigger] bs[k]).end == bs[k + 1].start
    &&& forall|k: int| 0 <= k < bs.len() ==> (#[trigger] bs[k]).start <= bs[k].end
    &&& forall|k: int|
        0 <= k < bs.len() ==> match (#[trigger] bs[k]).label {
            Some(l) => l.2 == bs[k].start,
            None => true,
        }
    &&& forall|k: int| 0 <= k < bs.len() ==> (#[trigger] bs[k]).start < bs[k].end || bs[k].label is Some
    &&& forall|k: int, i: int|
        0 <= k < bs.len() && (#[trigger] bs[k]).start <= i < bs[k].end - 1 ==> !is_terminator(#[trigger] instrs[i])
    &&& forall|i: int| cs <= i < ce ==> !is_terminator(#[trigger] instrs[i])
    &&& forall|k: int|
        0 <= k < bs.len() - 1 ==> ends_with_terminator(instrs, (#[trigger] bs[k]).start, bs[k].end) || bs[k
            + 1].label is Some
    &&& forall|k: int| 0 <= k < bs.len() ==> (#[trigger] bs[k]).exit == block_exit(instrs, bs[k].start, bs[k].end)
    &&& forall|k: int| 0 <= k < bs.len() ==> !(#[trigger] bs[k]).is_entry
}

/// As `split_core`, the current block labeled `cl`: a block that does not
/// end by a jump, branch or return is followed by a labeled one.
pub open spec fn partial_split(
    instrs: Seq<Instruction>,
    bs: Seq<BlockView>,
    cs: int,
    ce: int,
    cl: Option<(LabelIdx, Seq<char>, int)>,
) -> bool {
    &&& split_core(instrs, bs, cs, ce)
    &&& match cl {
        Some(l) => l.2 == cs,
        None => true,
    }
    &&& bs.len() > 0 && !ends_with_terminator(instrs, bs.last().start, bs.last().end) ==> cl is Some
}

/// Closing the current block `[cs, ce)`, which holds no jump, branch or
/// return, keeps the split.
proof fn lemma_close_block(
    instrs: Seq<Instruction>,
    bs0: Seq<BlockView>,
    b: BlockView,
    cs: int,
    ce: int,
    cl: Option<(LabelIdx, Seq<char>, int)>,
)
    requires
        partial_split(instrs, bs0, cs, ce, cl),
        b == (BlockView { label: cl, start: cs, end: ce, exit: LabeledExit::Fallthrough, is_entry: false }),
        cs < ce || cl is Some,
    ensures
        split_core(instrs, bs0.push(b), ce, ce),
        b.exit == block_exit(instrs, cs, ce),
{
    let bs1 = bs0.push(b);
    if cs < ce {
        assert(!is_terminator(instrs[ce - 1]));
    }
    assert(bs1.last() == b);
    assert forall|k: int, x: int| 0 <= k < bs1.len() && (#[trigger] bs1[k]).start <= x < bs1[k].end - 1 implies !is_terminator(#[trigger] instrs[x]) by {
        if k < bs0.len() {
            assert(bs1[k] == bs0[k]);
        }
    }
    assert forall|k: int| 0 <= k < bs1.len() - 1 implies ends_with_terminator(instrs, (#[trigger] bs1[k]).start, bs1[k].end) || bs1[k + 1].label is Some by {
        if k < bs0.len() - 1 {
            assert(bs1[k] == bs0[k] && bs1[k + 1] == bs0[k + 1]);
        }
    }
}

impl<'a, 'program> CfgBuilder<'a, 'program> {
    /// The state of the builder once the instructions before `i` and the
    /// labels before `j` have been seen.
    pub open spec fn split_inv(&self, i: int, j: int) -> bool {
        let f = *self.function;
        let instrs = f.instructions@;
        let lvs = label_views(f);
        let v = self.cfg.vertices@;
        let bs = block_views(v);
        let cs = self.current_range.start as int;
        let ce = self.current_range.end as int;
        let cl = opt_label_view(self.current_label);
        &&& f.wf()
        &&& ce == i
        &&& 0 <= i <= instrs.len()
        &&& 0 <= j <= lvs.len()
        &&& forall|k: int| 0 <= k < j ==> (#[trigger] lvs[k]).2 <= i
        &&& forall|k: int| j <= k < lvs.len() ==> (#[trigger] lvs[k]).2 >= i
        &&& partial_split(instrs, bs, cs, ce, cl)
        &&& labels_of(bs) + opt_seq(cl) == lvs.take(j)
        &&& forall|k: int| 0 <= k < v.len() ==> (#[trigger] v[k]).instructions@ == instrs.subrange(bs[k].start, bs[k].end)
        &&& self.labels_to_blocks@ == label_map_of(bs)
        &&& self.cfg.entry == BasicBlockIdx(0)
        &&& self.entry_is_init == (v.len() > 0)
        &&& self.current_exit == LabeledExit::Fallthrough
        &&& !self.current_is_entry
        &&& v.len() + (if cs < ce || cl is Some {
            1int
        } else {
            0int
        }) <= i + j
    }
}

proof fn lemma_block_views_push<'program>(v: Seq<crate::cfg::BasicBlock<'program>>, b: crate::cfg::BasicBlock<'program>)
    ensures
        block_views(v.push(b)) == block_views(v).push(b@),
{
    assert(block_views(v.push(b)) =~= block_views(v).push(b@));
}

proof fn lemma_labels_of_push(bs: Seq<BlockView>, b: BlockView)
    ensures
        labels_of(bs.push(b)) == labels_of(bs) + opt_seq(b.label),
{
    assert(bs.push(b).drop_last() =~= bs);
}

proof fn lemma_label_map_push(bs: Seq<BlockView>, b: BlockView)
    ensures
        label_map_of(bs.push(b)) == match b.label {
            Some(l) => label_map_of(bs).insert(l.0.0, bs.len() as usize),
            None => label_map_of(bs),
        },
{
    assert(bs.push(b).drop_last() =~= bs);
    let m1 = label_map_of(bs.push(b));
    let m0 = match b.label {
        Some(l) => label_map_of(bs).insert(l.0.0, bs.len() as usize),
        None => label_map_of(bs),
    };
    assert forall|x: u32| #[trigger] m1.contains_key(x) == m0.contains_key(x) && (m1.contains_key(x) ==> m1[x] == m0[x]) by {
        assert(last_labeled(bs.push(b), LabelIdx(x)) == if match b.label {
            Some(y) => y.0 == LabelIdx(x),
            None => false,
        } {
            Some(bs.len() as int)
        } else {
            last_labeled(bs, LabelIdx(x))
        });
    }
    assert(m1 =~= m0);
}

/// The last block labeled `l` is one of the blocks.
proof fn lemma_last_labeled_range(bs: Seq<BlockView>, l: LabelIdx)
    ensures
        match last_labeled(bs, l) {
            Some(k) => 0 <= k < bs.len(),
            None => true,
        },
    decreases bs.len(),
{
    if bs.len() > 0 {
        lemma_last_labeled_range(bs.drop_last(), l);
    }
}

/// A block labeled `l` makes the last such block exist.
proof fn lemma_last_labeled_some(bs: Seq<BlockView>, k: int, l: (LabelIdx, Seq<char>, int))
    requires
        0 <= k < bs.len(),
        bs[k].label == Some(l),
    ensures
        last_labeled(bs, l.0) is Some,
    decreases bs.len(),
{
    if k < bs.len() - 1 {
        if !(last_labeled(bs, l.0) is Some) {
            lemma_last_labeled_some(bs.drop_last(), k, l);
        }
    }
}

/// Every label of a list of blocks is the label of one of them.
proof fn lemma_labels_of_member(bs: Seq<BlockView>, j: int)
    requires
        0 <= j < labels_of(bs).len(),
    ensures
        exists|k: int| 0 <= k < bs.len() && bs[k].label == Some(#[trigger] labels_of(bs)[j]),
    decreases bs.len(),
{
    let pre = labels_of(bs.drop_last());
    if j < pre.len() {
        lemma_labels_of_member(bs.drop_last(), j);
        let k = choose|k: int| 0 <= k < bs.drop_last().len() && bs.drop_last()[k].label == Some(#[trigger] pre[j]);
        assert(bs[k].label == Some(labels_of(bs)[j]));
    } else {
        assert(bs[bs.len() - 1].label == Some(labels_of(bs)[j]));
    }
}

/// Finishes the current block, if it holds an instruction or a label: it
/// falls through to the next block.
fn close_open_block<'a, 'program>(builder: &mut CfgBuilder<'a, 'program>, i: usize, j: usize)
    requires
        old(builder).split_inv(i as int, j as int),
        old(builder).function.instructions@.len() + old(builder).function.labels@.len() < usize::MAX,
    ensures
        final(builder).function == old(builder).function,
        final(builder).cfg.prototype == old(builder).cfg.prototype,
        final(builder).current_label is None,
        final(builder).current_range == (i..i),
        ({
            let bs = block_views(final(builder).cfg.vertices@);
            let f = *final(builder).function;
            &&& split_core(f.instructions@, bs, i as int, i as int)
            &&& labels_of(bs) == label_views(f).take(j as int)
            &&& forall|k: int|
                0 <= k < final(builder).cfg.vertices@.len() ==> (#[trigger] final(builder).cfg.vertices@[k]).instructions@
                    == f.instructions@.subrange(bs[k].start, bs[k].end)
            &&& final(builder).labels_to_blocks@ == label_map_of(bs)
            &&& final(builder).cfg.entry == BasicBlockIdx(0)
            &&& final(builder).entry_is_init == (bs.len() > 0)
            &&& final(builder).current_exit == LabeledExit::Fallthrough
            &&& !final(builder).current_is_entry
            &&& bs.len() <= i + j
        }),
{
    let ghost v0 = builder.cfg.vertices@;
    let ghost bs0 = block_views(v0);
    let ghost f = *builder.function;
    let ghost instrs = f.instructions@;
    let ghost cs = builder.current_range.start as int;
    let ghost cl = opt_label_view(builder.current_label);
    if builder.current_range.start < builder.current_range.end || builder.current_label.is_some() {
        builder.finish_current_and_start_new_block();
        proof {
            let v1 = builder.cfg.vertices@;
            let b = v1[v0.len() as int];
            assert(v1 =~= v0.push(b));
            lemma_block_views_push(v0, b);
            lemma_labels_of_push(bs0, b@);
            lemma_label_map_push(bs0, b@);
            lemma_close_block(instrs, bs0, b@, cs, i as int, cl);
            let bs1 = block_views(v1);
            assert forall|k: int| 0 <= k < v1.len() implies (#[trigger] v1[k]).instructions@ == instrs.subrange(bs1[k].start, bs1[k].end) by {
                if k < v0.len() {
                    assert(v1[k] == v0[k]);
                }
            }
        }
    } else {
        proof {
            assert(labels_of(bs0) =~= labels_of(bs0) + opt_seq(cl));
        }
    }
}

/// Opens a block for label `j`, which stands at offset `i`.
fn open_labeled_block<'a, 'program>(builder: &mut CfgBuilder<'a, 'program>, i: usize, j: usize)
    requires
        old(builder).split_inv(i as int, j as int),
        j < old(builder).function.labels@.len(),
        old(builder).function.labels@[j as int].offset == i,
        old(builder).function.instructions@.len() + old(builder).function.labels@.len() < usize::MAX,
    ensures
        final(builder).split_inv(i as int, j + 1),
        final(builder).function == old(builder).function,
        final(builder).cfg.prototype == old(builder).cfg.prototype,
{
    let ghost f = *builder.function;
    let ghost lvs = label_views(f);
    close_open_block(builder, i, j);
    let ghost bs1 = block_views(builder.cfg.vertices@);
    let idx = builder.function.labels[j].idx;
    builder.set_current_label(idx);
    proof {
        let ls = f.labels@;
        let jj = choose|jj: int|
            0 <= jj < ls.len() && builder.current_label == Some(#[trigger] ls[jj]) && ls[jj].idx == idx
                && forall|x: int| 0 <= x < jj ==> (#[trigger] ls[x]).idx != idx;
        assert(label_view(ls[jj]) == label_view(ls[j as int]));
        assert(lvs[j as int] == label_view(ls[j as int]));
        assert(opt_label_view(builder.current_label) == Some(lvs[j as int]));
        assert(lvs.take(j + 1) =~= lvs.take(j as int).push(lvs[j as int]));
        assert(labels_of(bs1) + opt_seq(Some(lvs[j as int])) =~= lvs.take(j as int).push(lvs[j as int]));
        assert forall|k: int| 0 <= k < j + 1 implies (#[trigger] lvs[k]).2 <= i by {
            if k < j {
                assert(lvs[k].2 <= i);
            }
        }
    }
}

/// Opens a block for each label standing at offset `i`, from label `j` on;
/// returns the first label not at `i`.
fn label_events<'a, 'program>(builder: &mut CfgBuilder<'a, 'program>, i: usize, j: usize) -> (r: usize)
    requires
        old(builder).split_inv(i as int, j as int),
        old(builder).function.instructions@.len() + old(builder).function.labels@.len() < usize::MAX,
    ensures
        final(builder).split_inv(i as int, r as int),
        j <= r,
        r < final(builder).function.labels@.len() ==> final(builder).function.labels@[r as int].offset != i,
        final(builder).function == old(builder).function,
        final(builder).cfg.prototype == old(builder).cfg.prototype,
{
    let mut j = j;
    let ghost f_ref = builder.function;
    let ghost proto = builder.cfg.prototype;
    let nl = builder.function.labels.len();
    let ghost j0 = j;
    while j < nl && builder.function.labels[j].offset == i
        invariant
            builder.split_inv(i as int, j as int),
            builder.function == f_ref,
            builder.cfg.prototype == proto,
            nl == f_ref.labels@.len(),
            f_ref.instructions@.len() + f_ref.labels@.len() < usize::MAX,
            j0 <= j,
        decreases nl - j,
    {
        open_labeled_block(builder, i, j);
        j = j + 1;
    }
    j
}

/// Adds instruction `i` to the current block, which it ends if it is a
/// jump, branch or return.
fn instruction_event<'a, 'program>(builder: &mut CfgBuilder<'a, 'program>, i: usize, j: usize)
    requires
        old(builder).split_inv(i as int, j as int),
        i < old(builder).function.instructions@.len(),
        j < old(builder).function.labels@.len() ==> old(builder).function.labels@[j as int].offset != i,
        old(builder).function.instructions@.len() + old(builder).function.labels@.len() < usize::MAX,
    ensures
        final(builder).split_inv(i + 1, j as int),
        final(builder).function == old(builder).function,
        final(builder).cfg.prototype == old(builder).cfg.prototype,
{
    let ghost f = *builder.function;
    let ghost instrs = f.instructions@;
    let ghost lvs = label_views(f);
    let ghost v0 = builder.cfg.vertices@;
    let ghost bs0 = block_views(v0);
    let ghost cs = builder.current_range.start as int;
    let ghost cl = opt_label_view(builder.current_label);
    proof {
        assert forall|k: int| j <= k < lvs.len() implies (#[trigger] lvs[k]).2 >= i + 1 by {
            assert(lvs[j as int].2 != i);
            assert(f.labels@[j as int].offset <= f.labels@[k].offset);
        }
    }
    let exit = match &builder.function.instructions[i] {
        Instruction::Jmp(l) => LabeledExit::Unconditional(*l),
        Instruction::Br(_, t, e) => LabeledExit::Conditional { if_true: *t, if_false: *e },
        Instruction::Ret(_) => LabeledExit::Return,
        _ => LabeledExit::Fallthrough,
    };
    proof {
        assert(exit == exit_of(instrs[i as int]));
    }
    builder.add_to_current();
    match exit {
        LabeledExit::Fallthrough => {
            proof {
                assert(!is_terminator(instrs[i as int]));
            }
        },
        _ => {
            builder.set_current_exit(exit);
            builder.finish_current_and_start_new_block();
            proof {
                let v1 = builder.cfg.vertices@;
                let b = v1[v0.len() as int];
                assert(v1 =~= v0.push(b));
                lemma_block_views_push(v0, b);
                lemma_labels_of_push(bs0, b@);
                lemma_label_map_push(bs0, b@);
                let bs1 = block_views(v1);
                assert(b@.label == cl);
                assert(b@.start == cs && b@.end == i + 1);
                assert(is_terminator(instrs[i as int]));
                assert(b@.exit == block_exit(instrs, cs, i + 1));
                assert(bs1.last() == b@);
                assert forall|k: int| 0 <= k < v1.len() implies (#[trigger] v1[k]).instructions@ == instrs.subrange(bs1[k].start, bs1[k].end) by {
                    if k < v0.len() {
                        assert(v1[k] == v0[k]);
                    }
                }
                assert forall|k: int, x: int| 0 <= k < bs1.len() && (#[trigger] bs1[k]).start <= x < bs1[k].end - 1 implies !is_terminator(#[trigger] instrs[x]) by {
                    if k < bs0.len() {
                        assert(bs1[k] == bs0[k]);
                    }
                }
                assert forall|k: int| 0 <= k < bs1.len() - 1 implies ends_with_terminator(instrs, (#[trigger] bs1[k]).start, bs1[k].end) || bs1[k + 1].label is Some by {
                    if k < bs0.len() - 1 {
                        assert(bs1[k] == bs0[k] && bs1[k + 1] == bs0[k + 1]);
                    }
                }
                assert(opt_seq::<(LabelIdx, Seq<char>, int)>(None) =~= Seq::empty());
                assert(labels_of(bs1) =~= labels_of(bs1) + opt_seq::<(LabelIdx, Seq<char>, int)>(None));
            }
        },
    }
}

/// A label that block `k`'s exit names labels some block.
proof fn lemma_exit_label_resolvable(f: Function, bs: Seq<BlockView>, k: int, t: int)
    requires
        labels_of(bs) == label_views(f),
        targets_known(f),
        0 <= k < bs.len(),
        0 <= bs[k].start <= bs[k].end <= f.instructions@.len(),
        bs[k].exit == block_exit(f.instructions@, bs[k].start, bs[k].end),
        0 <= t < exit_labels(bs[k].exit).len(),
    ensures
        label_map_of(bs).contains_key(exit_labels(bs[k].exit)[t].0),
{
    let instrs = f.instructions@;
    let lvs = label_views(f);
    let e = bs[k].end;
    assert(ends_with_terminator(instrs, bs[k].start, e));
    let l = exit_labels(exit_of(instrs[e - 1]))[t];
    let jj = choose|jj: int| 0 <= jj < f.labels@.len() && (#[trigger] f.labels@[jj]).idx == #[trigger] exit_labels(
        exit_of(instrs[e - 1]),
    )[t];
    assert(lvs[jj].0 == l);
    assert(labels_of(bs)[jj] == lvs[jj]);
    lemma_labels_of_member(bs, jj);
    let kk = choose|kk: int| 0 <= kk < bs.len() && bs[kk].label == Some(#[trigger] labels_of(bs)[jj]);
    lemma_last_labeled_some(bs, kk, lvs[jj]);
    assert(LabelIdx(l.0) == l);
}

/// Every label that a block's exit names labels some block.
proof fn lemma_exits_resolvable(f: Function, bs: Seq<BlockView>)
    requires
        is_block_split(f.instructions@, label_views(f), bs),
        targets_known(f),
    ensures
        forall|k: int, t: int|
            0 <= k < bs.len() && 0 <= t < exit_labels(bs[k].exit).len() ==> label_map_of(bs).contains_key(
                (#[trigger] exit_labels(bs[k].exit)[t]).0,
            ),
        forall|l: u32| #[trigger] label_map_of(bs).contains_key(l) ==> label_map_of(bs)[l] < bs.len(),
{
    assert forall|k: int, t: int| 0 <= k < bs.len() && 0 <= t < exit_labels(bs[k].exit).len() implies label_map_of(
        bs,
    ).contains_key((#[trigger] exit_labels(bs[k].exit)[t]).0) by {
        lemma_blocks_within(f.instructions@, bs, k);
        lemma_exit_label_resolvable(f, bs, k, t);
    }
    assert forall|l: u32| #[trigger] label_map_of(bs).contains_key(l) implies label_map_of(bs)[l] < bs.len() by {
        lemma_last_labeled_range(bs, LabelIdx(l));
    }
}

/// The blocks of a split lie within the instructions.
proof fn lemma_blocks_within(instrs: Seq<Instruction>, bs: Seq<BlockView>, k: int)
    requires
        0 <= k < bs.len(),
        bs[0].start == 0,
        bs.last().end == instrs.len(),
        forall|x: int| 0 <= x < bs.len() - 1 ==> (#[trigger] bs[x]).end == bs[x + 1].start,
        forall|x: int| 0 <= x < bs.len() ==> (#[trigger] bs[x]).start <= bs[x].end,
    ensures
        0 <= bs[k].start <= bs[k].end <= instrs.len(),
    decreases bs.len() - k,
{
    lemma_blocks_start(bs, k);
    if k < bs.len() - 1 {
        lemma_blocks_within(instrs, bs, k + 1);
    }
}

proof fn lemma_blocks_start(bs: Seq<BlockView>, k: int)
    requires
        0 <= k < bs.len(),
        bs[0].start == 0,
        forall|x: int| 0 <= x < bs.len() - 1 ==> (#[trigger] bs[x]).end == bs[x + 1].start,
        forall|x: int| 0 <= x < bs.len() ==> (#[trigger] bs[x]).start <= bs[x].end,
    ensures
        0 <= bs[k].start,
    decreases k,
{
    if k > 0 {
        lemma_blocks_start(bs, k - 1);
    }
}

/// The control flow graph of a function: its basic blocks, numbered in the
/// order in which they stand, the first one the entry; each block's edges,
/// jumps and branches resolved to the last block of the label they name and
/// falling through to the next block (or returning, from the last); and
/// each block's predecessors.
pub fn build_cfg<'program>(function: &Function<'program>) -> (r: Cfg<'program>)
    requires
        function.wf(),
        targets_known(*function),
        function.instructions@.len() + function.labels@.len() < usize::MAX,
    ensures
        is_block_split(function.instructions@, label_views(*function), block_views(r.vertices@)),
        forall|k: int|
            0 <= k < r.vertices@.len() ==> (#[trigger] r.vertices@[k]).instructions@ == function.instructions@.subrange(
                block_views(r.vertices@)[k].start,
                block_views(r.vertices@)[k].end,
            ),
        r.edges@ == Seq::new(
            r.vertices@.len(),
            |k: int|
                resolve_exit(
                    label_map_of(block_views(r.vertices@)),
                    r.vertices@[k].exit,
                    k,
                    r.vertices@.len() as int,
                ),
        ),
        r.entry == BasicBlockIdx(0),
        r.wf(),
        r.prototype.name@ == function.name@,
        r.prototype.parameters@ == function.parameters@,
        r.prototype.return_type == function.return_type,
{
    let mut builder = CfgBuilder::new(function);
    let ghost proto = builder.cfg.prototype;
    let n = function.instructions.len();
    let nl = function.labels.len();
    proof {
        let lvs = label_views(*function);
        assert(block_views(builder.cfg.vertices@) =~= Seq::<BlockView>::empty());
        assert(labels_of(Seq::<BlockView>::empty()) == Seq::<(LabelIdx, Seq<char>, int)>::empty());
        assert(lvs.take(0) =~= Seq::<(LabelIdx, Seq<char>, int)>::empty());
        assert(label_map_of(Seq::<BlockView>::empty()) =~= Map::<u32, usize>::empty());
        assert(opt_seq::<(LabelIdx, Seq<char>, int)>(None) =~= Seq::empty());
        assert(labels_of(Seq::<BlockView>::empty()) + opt_seq::<(LabelIdx, Seq<char>, int)>(None) =~= lvs.take(0));
    }
    let mut j = label_events(&mut builder, 0, 0);
    let mut i: usize = 0;
    while i < n
        invariant
            builder.split_inv(i as int, j as int),
            builder.function == function,
            j < nl ==> function.labels@[j as int].offset != i,
            builder.cfg.prototype == proto,
            n == function.instructions@.len(),
            nl == function.labels@.len(),
            function.instructions@.len() + function.labels@.len() < usize::MAX,
        decreases n - i,
    {
        instruction_event(&mut builder, i, j);
        i = i + 1;
        j = label_events(&mut builder, i, j);
    }
    proof {
        if j < nl {
            assert(label_views(*function)[j as int].2 >= n);
            assert(function.labels@[j as int].offset <= n);
        }
    }
    close_open_block(&mut builder, n, j);
    proof {
        let bs = block_views(builder.cfg.vertices@);
        let lvs = label_views(*function);
        assert(lvs.take(nl as int) =~= lvs);
        assert(is_block_split(function.instructions@, lvs, bs));
        lemma_exits_resolvable(*function, bs);
        let v = builder.cfg.vertices@;
        assert forall|k: int, t: int|
            0 <= k < v.len() && 0 <= t < exit_labels((v[k]).exit).len() implies builder.labels_to_blocks@.contains_key(
                (#[trigger] exit_labels(v[k].exit)[t]).0,
            ) by {
            assert(bs[k].exit == v[k].exit);
        }
    }
    builder.finish()
}

} // verus!
