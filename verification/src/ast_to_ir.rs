//! Lowering structured programs to the flattened representation.
use vstd::prelude::*;

use crate::ast::{ast_cost, children_cost, children_loop_free, loop_free, Ast, AstIdx};
use crate::builder::{
    blocks_total, find_block_label, label_name_of, label_patches_resolvable, lemma_find_block_label_found, patch_views,
    shift_patches, BasicBlockBuilder, FunctionBuilder, PatchTarget, ProgramBuilder,
};
use crate::ir::{Instruction, InstructionView, LabelIdx, ProgramView};
use crate::text::{decimal, push_decimal};

verus! {

/// Every label patch of `ps` names only labels of `s`.
pub open spec fn label_names_in(ps: Seq<(int, PatchTarget)>, s: Set<Seq<char>>) -> bool {
    forall|k: int|
        0 <= k < ps.len() ==> match (#[trigger] ps[k]).1 {
            PatchTarget::Labels(ns) => forall|j: int| 0 <= j < ns.len() ==> s.contains(#[trigger] ns[j]),
            PatchTarget::Function(_) => true,
        }
}

/// Every patch of `ps` waits for labels: a jump for one, a branch for two.
pub open spec fn label_patches_fit(ps: Seq<(int, PatchTarget)>, instrs: Seq<Instruction>) -> bool {
    forall|k: int|
        0 <= k < ps.len() ==> match (#[trigger] ps[k]).1 {
            PatchTarget::Labels(ns) => {
                &&& instrs[ps[k].0] is Jmp ==> ns.len() >= 1
                &&& instrs[ps[k].0] is Br ==> ns.len() >= 2
            },
            PatchTarget::Function(_) => false,
        }
}

/// The names of the blocks sealed so far.
pub open spec fn sealed_names(p: ProgramView, names: Seq<LabelIdx>) -> Set<Seq<char>> {
    Set::new(|x: Seq<char>| exists|c: int| 0 <= c < names.len() && label_name_of(p, #[trigger] names[c]) == x)
}

/// The label of a block under construction, as a set.
pub open spec fn open_label(bb: BasicBlockBuilder) -> Set<Seq<char>> {
    match bb.label_name() {
        Some(l) => set![l],
        None => Set::empty(),
    }
}

/// The label `if.else.<k><suffix>`.
pub open spec fn if_label(k: nat, suffix: Seq<char>) -> Seq<char> {
    "if.else."@ + decimal(k) + suffix
}

fn if_else_label(k: usize, suffix: &str) -> (r: String)
    ensures
        r@ == if_label(k as nat, suffix@),
{
    let mut s = String::new();
    s.append("if.else.");
    push_decimal(&mut s, k as u64);
    s.append(suffix);
    proof {
        assert(s@ =~= if_label(k as nat, suffix@));
    }
    s
}

/// The state of a lowering: the function so far and the open block, every
/// patch waiting for labels of sealed blocks, of the open block, or of
/// `pending`, which are still to come.
pub open spec fn lowering_inv(fb: FunctionBuilder, bb: BasicBlockBuilder, pending: Set<Seq<char>>) -> bool {
    let p = fb.program_builder.program;
    &&& fb.wf()
    &&& bb.wf()
    &&& label_patches_fit(patch_views(fb.patches@), p.instructions@)
    &&& label_patches_fit(patch_views(bb.patches@), bb.instrs@)
    &&& label_names_in(
        patch_views(fb.patches@),
        sealed_names(p@, fb.block_names@).union(open_label(bb)).union(pending),
    )
    &&& label_names_in(
        patch_views(bb.patches@),
        sealed_names(p@, fb.block_names@).union(open_label(bb)).union(pending),
    )
}

/// What lowering a tree produces, counted from where it starts: its lines,
/// each an instruction and, for a jump or branch it adds, the names of the
/// labels it goes to; the labels of the blocks it opens, each with the
/// line it starts at; and the number of the next branch.
pub struct Lowered {
    pub lines: Seq<(InstructionView, Option<Seq<Seq<char>>>)>,
    pub labels: Seq<(int, Seq<char>)>,
    pub next: nat,
}

/// Labels moved `d` lines on.
pub open spec fn shift_labels(ls: Seq<(int, Seq<char>)>, d: int) -> Seq<(int, Seq<char>)> {
    ls.map_values(|e: (int, Seq<char>)| (e.0 + d, e.1))
}

/// Nothing lowered, the branch counter at `k`.
pub open spec fn lowered_nothing(k: nat) -> Lowered {
    Lowered { lines: Seq::empty(), labels: Seq::empty(), next: k }
}

/// `a` followed by `b`.
pub open spec fn lowered_then(a: Lowered, b: Lowered) -> Lowered {
    Lowered { lines: a.lines + b.lines, labels: a.labels + shift_labels(b.labels, a.lines.len() as int), next: b.next }
}

/// The lowering of the tree below node `i`, its branches numbered from `k`:
/// an instruction is itself; a branch on `c` is a branch to
/// `if.else.<k>.true` and `if.else.<k>.false`, then the block of each arm
/// under that label, each ending with a jump to `if.else.<k>.exit`, which
/// opens the block after them; a sequence is its children one after the
/// other.
pub open spec fn lower(ast: Seq<Ast>, i: int, k: nat) -> Lowered
    decreases i, 1int, 0int,
{
    if 0 <= i < ast.len() {
        match ast[i] {
            Ast::Instruction(ins) => Lowered { lines: seq![(ins@, None)], labels: Seq::empty(), next: k },
            Ast::If(c, t, f) => if t.0 < i && f.0 < i {
                let tl = lower(ast, t.0 as int, k + 1);
                let fl = lower(ast, f.0 as int, tl.next);
                let a: int = 1 + tl.lines.len() as int;
                let jump_exit = (InstructionView::Jmp(LabelIdx(0)), Some(seq![if_label(k, ".exit"@)]));
                Lowered {
                    lines: seq![
                        (
                            InstructionView::Br(c, LabelIdx(0), LabelIdx(0)),
                            Some(seq![if_label(k, ".true"@), if_label(k, ".false"@)]),
                        ),
                    ] + tl.lines + seq![jump_exit] + fl.lines + seq![jump_exit],
                    labels: seq![(1int, if_label(k, ".true"@))] + shift_labels(tl.labels, 1) + seq![
                        (a + 1, if_label(k, ".false"@)),
                    ] + shift_labels(fl.labels, a + 1) + seq![(a + 2 + fl.lines.len() as int, if_label(k, ".exit"@))],
                    next: fl.next,
                }
            } else {
                lowered_nothing(k)
            },
            Ast::Sequence(children) => lower_children(ast, i, children@, children@.len() as int, k),
            Ast::Loop(_, _) => lowered_nothing(k),
        }
    } else {
        lowered_nothing(k)
    }
}

/// The lowering of the first `c` children of node `i`, one after the other.
pub open spec fn lower_children(ast: Seq<Ast>, i: int, children: Seq<AstIdx>, c: int, k: nat) -> Lowered
    decreases i, 0int, c,
{
    if c <= 0 || c > children.len() {
        lowered_nothing(k)
    } else {
        let prev = lower_children(ast, i, children, c - 1, k);
        if children[c - 1].0 < i {
            lowered_then(prev, lower(ast, children[c - 1].0 as int, prev.next))
        } else {
            prev
        }
    }
}

/// The instructions and label patches `instrs` and `pv` carry the lines
/// `lines`: each instruction is that of its line, and a line waits for the
/// labels it names exactly where a patch says so.
pub open spec fn carries(
    lines: Seq<(InstructionView, Option<Seq<Seq<char>>>)>,
    instrs: Seq<Instruction>,
    pv: Seq<(int, PatchTarget)>,
) -> bool {
    &&& instrs.len() == lines.len()
    &&& forall|o: int| 0 <= o < lines.len() ==> (#[trigger] instrs[o])@ == lines[o].0
    &&& forall|m: int|
        0 <= m < pv.len() ==> ((#[trigger] pv[m]).1 matches PatchTarget::Labels(n) && 0 <= pv[m].0 < lines.len()
            && lines[pv[m].0].1 == Some(n))
    &&& forall|o: int|
        0 <= o < lines.len() ==> ((#[trigger] lines[o]).1 matches Some(n) ==> exists|m: int|
            0 <= m < pv.len() && pv[m] == (o, PatchTarget::Labels(n)))
}

/// The instructions of a function under construction and of its open block.
pub open spec fn all_instrs(fb: FunctionBuilder, bb: BasicBlockBuilder) -> Seq<Instruction> {
    fb.program_builder.program.instructions@ + bb.instrs@
}

/// The patches of a function under construction and of its open block.
pub open spec fn all_patches(fb: FunctionBuilder, bb: BasicBlockBuilder) -> Seq<(int, PatchTarget)> {
    patch_views(fb.patches@) + shift_patches(
        patch_views(bb.patches@),
        fb.program_builder.program.instructions@.len() as int,
    )
}

/// The name the open block gets when it is sealed.
pub open spec fn open_name(fb: FunctionBuilder, bb: BasicBlockBuilder) -> Seq<char> {
    match bb.label_name() {
        Some(l) => l,
        None => seq!['L'] + decimal(fb.block_name_id as nat),
    }
}

/// The sealed blocks' labels, in order, are `ls`: where each stands and its
/// name.
pub open spec fn sealed_labels_are(ls: Seq<(int, Seq<char>)>, fb: FunctionBuilder) -> bool {
    let p = fb.program_builder.program;
    let bn = fb.block_names@;
    &&& ls.len() == bn.len()
    &&& forall|c: int| 0 <= c < bn.len() ==> #[trigger] ls[c] == (p@.labels[bn[c].0 as int].0 as int, label_name_of(p@, bn[c]))
}

/// The labels of the sealed blocks and then of the open block, which starts
/// where the sealed code ends, are `ls`.
pub open spec fn labels_carried(ls: Seq<(int, Seq<char>)>, fb: FunctionBuilder, bb: BasicBlockBuilder) -> bool {
    &&& ls.len() >= 1
    &&& sealed_labels_are(ls.drop_last(), fb)
    &&& ls.last() == (fb.program_builder.program.instructions@.len() as int, open_name(fb, bb))
}

/// A lowered line once its jump or branch goes to the first label of
/// `labels` with each name it gives.
pub open spec fn resolve_line(
    line: (InstructionView, Option<Seq<Seq<char>>>),
    p: ProgramView,
    labels: Seq<LabelIdx>,
) -> InstructionView {
    match line.1 {
        Some(n) => match line.0 {
            InstructionView::Jmp(_) => InstructionView::Jmp(find_block_label(p, labels, n[0])->0),
            InstructionView::Br(c, _, _) => InstructionView::Br(
                c,
                find_block_label(p, labels, n[0])->0,
                find_block_label(p, labels, n[1])->0,
            ),
            _ => line.0,
        },
        None => line.0,
    }
}

/// Moving labels distributes over concatenation and adds up.
proof fn lemma_shift_labels(a: Seq<(int, Seq<char>)>, b: Seq<(int, Seq<char>)>, d: int, e: int)
    ensures
        shift_labels(a + b, d) == shift_labels(a, d) + shift_labels(b, d),
        shift_labels(shift_labels(a, e), d) == shift_labels(a, e + d),
        shift_labels(a, 0) == a,
{
    assert(shift_labels(a + b, d) =~= shift_labels(a, d) + shift_labels(b, d));
    assert(shift_labels(shift_labels(a, e), d) =~= shift_labels(a, e + d));
    assert(shift_labels(a, 0) =~= a);
}

/// A fresh open block adds nothing to the code of a function.
proof fn lemma_fresh_block(fb: FunctionBuilder, bb: BasicBlockBuilder)
    requires
        bb.instrs@.len() == 0,
        bb.patches@.len() == 0,
    ensures
        all_instrs(fb, bb) == sealed_instrs(fb),
        all_patches(fb, bb) == patch_views(fb.patches@),
{
    assert(all_instrs(fb, bb) =~= sealed_instrs(fb));
    assert(patch_views(bb.patches@) =~= Seq::<(int, PatchTarget)>::empty());
    assert(all_patches(fb, bb) =~= patch_views(fb.patches@));
}

/// The instructions of the sealed blocks of a function under construction
/// (and of what came before it).
pub open spec fn sealed_instrs(fb: FunctionBuilder) -> Seq<Instruction> {
    fb.program_builder.program.instructions@
}

/// One more plain line.
proof fn lemma_carries_push(
    lines: Seq<(InstructionView, Option<Seq<Seq<char>>>)>,
    instrs: Seq<Instruction>,
    pv: Seq<(int, PatchTarget)>,
    i: Instruction,
)
    requires
        carries(lines, instrs, pv),
    ensures
        carries(lines.push((i@, None)), instrs.push(i), pv),
{
    let l2 = lines.push((i@, None));
    assert forall|m: int| 0 <= m < pv.len() implies ((#[trigger] pv[m]).1 matches PatchTarget::Labels(n) && 0 <= pv[m].0
        < l2.len() && l2[pv[m].0].1 == Some(n)) by {
        assert(l2[pv[m].0] == lines[pv[m].0]);
    }
    assert forall|o: int| 0 <= o < l2.len() implies ((#[trigger] l2[o]).1 matches Some(n) ==> exists|m: int|
        0 <= m < pv.len() && pv[m] == (o, PatchTarget::Labels(n))) by {
        if o < lines.len() {
            assert(l2[o] == lines[o]);
        }
    }
}

/// One more line that waits for the labels `n`.
proof fn lemma_carries_push_patched(
    lines: Seq<(InstructionView, Option<Seq<Seq<char>>>)>,
    instrs: Seq<Instruction>,
    pv: Seq<(int, PatchTarget)>,
    i: Instruction,
    n: Seq<Seq<char>>,
)
    requires
        carries(lines, instrs, pv),
    ensures
        carries(
            lines.push((i@, Some(n))),
            instrs.push(i),
            pv.push((lines.len() as int, PatchTarget::Labels(n))),
        ),
{
    let l2 = lines.push((i@, Some(n)));
    let pv2 = pv.push((lines.len() as int, PatchTarget::Labels(n)));
    assert forall|m: int| 0 <= m < pv2.len() implies ((#[trigger] pv2[m]).1 matches PatchTarget::Labels(nm) && 0 <= pv2[m].0
        < l2.len() && l2[pv2[m].0].1 == Some(nm)) by {
        if m < pv.len() {
            assert(pv2[m] == pv[m]);
            assert(l2[pv[m].0] == lines[pv[m].0]);
        }
    }
    assert forall|o: int| 0 <= o < l2.len() implies ((#[trigger] l2[o]).1 matches Some(nm) ==> exists|m: int|
        0 <= m < pv2.len() && pv2[m] == (o, PatchTarget::Labels(nm))) by {
        if o < lines.len() {
            assert(l2[o] == lines[o]);
            if let Some(nm) = lines[o].1 {
                let m = choose|m: int| 0 <= m < pv.len() && pv[m] == (o, PatchTarget::Labels(nm));
                assert(pv2[m] == pv[m]);
            }
        } else {
            assert(pv2[pv.len() as int] == (o, PatchTarget::Labels(n)));
        }
    }
}

/// The resources a function under construction uses: strings, labels,
/// instructions, and the counter of unnamed blocks.
pub open spec fn function_size(fb: FunctionBuilder) -> int {
    let p = fb.program_builder.program;
    p@.strings.len() + p@.labels.len() + p.instructions@.len() + fb.block_name_id
}

/// The resources a lowering uses: those of the function, the open block's
/// instructions, and the counter of branches.
pub open spec fn lowering_size(fb: FunctionBuilder, bb: BasicBlockBuilder, idx: usize) -> int {
    function_size(fb) + bb.instrs@.len() + idx
}

} // verus!

verus! {

proof fn lemma_names_mono(ps: Seq<(int, PatchTarget)>, s1: Set<Seq<char>>, s2: Set<Seq<char>>)
    requires
        label_names_in(ps, s1),
        s1.subset_of(s2),
    ensures
        label_names_in(ps, s2),
{
    assert forall|k: int| 0 <= k < ps.len() implies match (#[trigger] ps[k]).1 {
        PatchTarget::Labels(ns) => forall|j: int| 0 <= j < ns.len() ==> s2.contains(#[trigger] ns[j]),
        PatchTarget::Function(_) => true,
    } by {
        match ps[k].1 {
            PatchTarget::Labels(ns) => {
                assert forall|j: int| 0 <= j < ns.len() implies s2.contains(#[trigger] ns[j]) by {
                    assert(s1.contains(ns[j]));
                }
            },
            _ => {},
        }
    }
}

proof fn lemma_names_concat(a: Seq<(int, PatchTarget)>, b: Seq<(int, PatchTarget)>, s: Set<Seq<char>>)
    requires
        label_names_in(a, s),
        label_names_in(b, s),
    ensures
        label_names_in(a + b, s),
{
    assert forall|k: int| 0 <= k < (a + b).len() implies match (#[trigger] (a + b)[k]).1 {
        PatchTarget::Labels(ns) => forall|j: int| 0 <= j < ns.len() ==> s.contains(#[trigger] ns[j]),
        PatchTarget::Function(_) => true,
    } by {
        if k < a.len() {
            assert((a + b)[k] == a[k]);
        } else {
            assert((a + b)[k] == b[k - a.len()]);
        }
    }
}

/// Sealing a block names it.
proof fn lemma_seal_names(
    p0: ProgramView,
    p1: ProgramView,
    bn0: Seq<LabelIdx>,
    bn1: Seq<LabelIdx>,
    name: Seq<char>,
    start: usize,
)
    requires
        forall|c: int| 0 <= c < bn0.len() ==> (#[trigger] bn0[c]).0 < p0.labels.len(),
        forall|l: int| 0 <= l < p0.labels.len() ==> (#[trigger] p0.labels[l]).1.0 < p0.strings.len(),
        p1.strings == p0.strings.push(name),
        p1.labels == p0.labels.push((start, crate::ir::StringIdx(p0.strings.len() as u32))),
        bn1 == bn0.push(LabelIdx(p0.labels.len() as u32)),
        p0.strings.len() < u32::MAX,
        p0.labels.len() < u32::MAX,
    ensures
        sealed_names(p1, bn1) == sealed_names(p0, bn0).insert(name),
{
    assert forall|x: Seq<char>| sealed_names(p1, bn1).contains(x) <==> sealed_names(p0, bn0).insert(name).contains(x) by {
        if sealed_names(p1, bn1).contains(x) {
            let c = choose|c: int| 0 <= c < bn1.len() && label_name_of(p1, #[trigger] bn1[c]) == x;
            if c < bn0.len() {
                assert(bn1[c] == bn0[c]);
                assert(p1.labels[bn0[c].0 as int] == p0.labels[bn0[c].0 as int]);
                assert(label_name_of(p0, bn0[c]) == x);
            }
        }
        if sealed_names(p0, bn0).contains(x) {
            let c = choose|c: int| 0 <= c < bn0.len() && label_name_of(p0, #[trigger] bn0[c]) == x;
            assert(bn1[c] == bn0[c]);
            assert(p1.labels[bn0[c].0 as int] == p0.labels[bn0[c].0 as int]);
            assert(label_name_of(p1, bn1[c]) == x);
        }
        if x == name {
            assert(label_name_of(p1, bn1[bn0.len() as int]) == name);
        }
    }
    assert(sealed_names(p1, bn1) =~= sealed_names(p0, bn0).insert(name));
}

/// Seals the open block: its label, and the labels that patches wait for,
/// are now those of sealed blocks or of `pending`.
#[verifier::rlimit(40)]
fn seal_open(
    fn_builder: &mut FunctionBuilder,
    bb: BasicBlockBuilder,
    Ghost(pending): Ghost<Set<Seq<char>>>,
    Ghost(lines): Ghost<Seq<(InstructionView, Option<Seq<Seq<char>>>)>>,
    Ghost(sealed): Ghost<Seq<(int, Seq<char>)>>,
)
    requires
        lowering_inv(*old(fn_builder), bb, pending),
        lowering_size(*old(fn_builder), bb, 0) + 3 < u32::MAX,
        carries(lines, all_instrs(*old(fn_builder), bb), all_patches(*old(fn_builder), bb)),
        sealed_labels_are(sealed, *old(fn_builder)),
        blocks_total(old(fn_builder).blocks@) == old(fn_builder).program_builder.program.instructions@.len(),
    ensures
        carries(lines, final(fn_builder).program_builder.program.instructions@, patch_views(final(fn_builder).patches@)),
        sealed_labels_are(
            sealed.push((old(fn_builder).program_builder.program.instructions@.len() as int, open_name(*old(fn_builder), bb))),
            *final(fn_builder),
        ),
        blocks_total(final(fn_builder).blocks@) == final(fn_builder).program_builder.program.instructions@.len(),
        final(fn_builder).wf(),
        label_patches_fit(patch_views(final(fn_builder).patches@), final(fn_builder).program_builder.program.instructions@),
        label_names_in(
            patch_views(final(fn_builder).patches@),
            sealed_names(final(fn_builder).program_builder.program@, final(fn_builder).block_names@).union(pending),
        ),
        sealed_names(old(fn_builder).program_builder.program@, old(fn_builder).block_names@).union(open_label(bb)).subset_of(
            sealed_names(final(fn_builder).program_builder.program@, final(fn_builder).block_names@),
        ),
        function_size(*final(fn_builder)) <= lowering_size(*old(fn_builder), bb, 0) + 3,
        final(fn_builder).program_builder.program@.functions == old(fn_builder).program_builder.program@.functions,
        final(fn_builder).program_builder.patches == old(fn_builder).program_builder.patches,
        final(fn_builder).parameters == old(fn_builder).parameters,
        final(fn_builder).name == old(fn_builder).name,
        final(fn_builder).return_type == old(fn_builder).return_type,
        *final(final(fn_builder).program_builder) == *final(old(fn_builder).program_builder),
{
    let ghost p0 = fn_builder.program_builder.program;
    let ghost bn0 = fn_builder.block_names@;
    let ghost pv0 = patch_views(fn_builder.patches@);
    let ghost bbp = patch_views(bb.patches@);
    let ghost bb_instrs = bb.instrs@;
    let ghost bb_label = bb.label;
    let ghost id0 = fn_builder.block_name_id;
    let ghost s0 = sealed_names(p0@, bn0).union(open_label(bb)).union(pending);
    let ghost fb0 = *fn_builder;
    let ghost blocks0 = fn_builder.blocks@;
    fn_builder.seal_block(bb);
    proof {
        let p1 = fn_builder.program_builder.program;
        let start = p0.instructions@.len();
        assert(fn_builder.blocks@.drop_last() =~= blocks0);
        assert(all_instrs(fb0, bb) == p1.instructions@);
        assert(all_patches(fb0, bb) == patch_views(fn_builder.patches@));
        let bn1 = fn_builder.block_names@;
        let sealed1 = sealed.push((start as int, open_name(fb0, bb)));
        assert forall|c: int| 0 <= c < bn1.len() implies #[trigger] sealed1[c] == (
            p1@.labels[bn1[c].0 as int].0 as int,
            label_name_of(p1@, bn1[c]),
        ) by {
            if c < bn0.len() {
                assert(bn1[c] == bn0[c]);
                assert(bn0[c].0 < p0@.labels.len());
                assert(p1@.labels[bn0[c].0 as int] == p0@.labels[bn0[c].0 as int]);
                assert(p0@.labels[bn0[c].0 as int].1.0 < p0@.strings.len());
            }
        }
        let name = match bb_label {
            Some(l) => l@,
            None => seq!['L'] + decimal(id0 as nat),
        };
        assert forall|l: int| 0 <= l < p0@.labels.len() implies (#[trigger] p0@.labels[l]).1.0 < p0@.strings.len() by {}
        lemma_seal_names(p0@, p1@, bn0, fn_builder.block_names@, name, start as usize);
        let s1 = sealed_names(p1@, fn_builder.block_names@).union(pending);
        assert(s0.subset_of(s1));
        lemma_names_mono(pv0, s0, s1);
        lemma_names_mono(bbp, s0, s1);
        let shifted = crate::builder::shift_patches(bbp, start as int);
        assert(label_names_in(shifted, s1)) by {
            assert forall|k: int| 0 <= k < shifted.len() implies match (#[trigger] shifted[k]).1 {
                PatchTarget::Labels(ns) => forall|j: int| 0 <= j < ns.len() ==> s1.contains(#[trigger] ns[j]),
                PatchTarget::Function(_) => true,
            } by {
                assert(shifted[k].1 == bbp[k].1);
            }
        }
        lemma_names_concat(pv0, shifted, s1);
        assert(label_patches_fit(patch_views(fn_builder.patches@), p1.instructions@)) by {
            let all = patch_views(fn_builder.patches@);
            assert forall|k: int| 0 <= k < all.len() implies match (#[trigger] all[k]).1 {
                PatchTarget::Labels(ns) => {
                    &&& p1.instructions@[all[k].0] is Jmp ==> ns.len() >= 1
                    &&& p1.instructions@[all[k].0] is Br ==> ns.len() >= 2
                },
                PatchTarget::Function(_) => false,
            } by {
                if k < pv0.len() {
                    assert(all[k] == pv0[k]);
                    assert(crate::builder::patch_fits(pv0[k], p0.instructions@));
                    assert(p1.instructions@[pv0[k].0] == p0.instructions@[pv0[k].0]);
                } else {
                    let m = k - pv0.len();
                    assert(all[k] == shifted[m]);
                    assert(shifted[m] == (bbp[m].0 + start, bbp[m].1));
                    assert(crate::builder::patch_fits(bbp[m], bb_instrs));
                    assert(p1.instructions@[bbp[m].0 + start] == bb_instrs[bbp[m].0]);
                }
            }
        }
    }
}

} // verus!

verus! {

/// Appends a jump or branch waiting for the labels `names`.
fn add_label_patch(bb: &mut BasicBlockBuilder, instr: Instruction, names: Vec<String>, Ghost(s): Ghost<Set<Seq<char>>>)
    requires
        instr is Jmp || instr is Br,
        instr is Jmp ==> names@.len() >= 1,
        instr is Br ==> names@.len() >= 2,
        old(bb).wf(),
        label_patches_fit(patch_views(old(bb).patches@), old(bb).instrs@),
        label_names_in(patch_views(old(bb).patches@), s),
        forall|j: int| 0 <= j < names@.len() ==> s.contains(#[trigger] names@[j]@),
    ensures
        final(bb).wf(),
        final(bb).instrs@ == old(bb).instrs@.push(instr),
        patch_views(final(bb).patches@) == patch_views(old(bb).patches@).push(
            (old(bb).instrs@.len() as int, PatchTarget::Labels(names@.map_values(|x: String| x@))),
        ),
        final(bb).label_name() == old(bb).label_name(),
        label_patches_fit(patch_views(final(bb).patches@), final(bb).instrs@),
        label_names_in(patch_views(final(bb).patches@), s),
{
    let ghost pv0 = patch_views(bb.patches@);
    let ghost i0 = bb.instrs@;
    let ghost ns = names@.map_values(|x: String| x@);
    bb.add_patched_instr(instr, names);
    proof {
        let pv = patch_views(bb.patches@);
        assert(pv == pv0.push((i0.len() as int, PatchTarget::Labels(ns))));
        assert forall|k: int| 0 <= k < pv.len() implies match (#[trigger] pv[k]).1 {
            PatchTarget::Labels(n) => forall|j: int| 0 <= j < n.len() ==> s.contains(#[trigger] n[j]),
            PatchTarget::Function(_) => true,
        } by {
            if k < pv0.len() {
                assert(pv[k] == pv0[k]);
            } else {
                assert forall|j: int| 0 <= j < ns.len() implies s.contains(#[trigger] ns[j]) by {
                    assert(ns[j] == names@[j]@);
                }
            }
        }
        assert forall|k: int| 0 <= k < pv.len() implies match (#[trigger] pv[k]).1 {
            PatchTarget::Labels(n) => {
                &&& bb.instrs@[pv[k].0] is Jmp ==> n.len() >= 1
                &&& bb.instrs@[pv[k].0] is Br ==> n.len() >= 2
            },
            PatchTarget::Function(_) => false,
        } by {
            if k < pv0.len() {
                assert(pv[k] == pv0[k]);
                assert(crate::builder::patch_fits(pv0[k], i0));
                assert(bb.instrs@[pv0[k].0] == i0[pv0[k].0]);
            }
        }
    }
}

/// Lowers the tree below `ast_root` into the function, the open block
/// first; returns the block left open. The code so far, sealed and open,
/// carries `lines`, and its labels are `ls`; afterwards it carries them
/// followed by the lowering of the tree.
#[verifier::rlimit(100)]
fn recursed_ast_to_ir(
    ast: &Vec<Ast>,
    ast_root: AstIdx,
    fn_builder: &mut FunctionBuilder,
    cur_if_else_idx: &mut usize,
    block_builder: BasicBlockBuilder,
    Ghost(pending): Ghost<Set<Seq<char>>>,
    Ghost(lines): Ghost<Seq<(InstructionView, Option<Seq<Seq<char>>>)>>,
    Ghost(ls): Ghost<Seq<(int, Seq<char>)>>,
) -> (r: BasicBlockBuilder)
    requires
        loop_free(ast@, ast_root.0 as int),
        lowering_inv(*old(fn_builder), block_builder, pending),
        lowering_size(*old(fn_builder), block_builder, *old(cur_if_else_idx)) + ast_cost(ast@, ast_root.0 as int) + 4
            < u32::MAX,
        carries(lines, all_instrs(*old(fn_builder), block_builder), all_patches(*old(fn_builder), block_builder)),
        labels_carried(ls, *old(fn_builder), block_builder),
        blocks_total(old(fn_builder).blocks@) == old(fn_builder).program_builder.program.instructions@.len(),
    ensures
        lowering_inv(*final(fn_builder), r, pending),
        lowering_size(*final(fn_builder), r, *final(cur_if_else_idx)) <= lowering_size(
            *old(fn_builder),
            block_builder,
            *old(cur_if_else_idx),
        ) + ast_cost(ast@, ast_root.0 as int),
        ({
            let lw = lower(ast@, ast_root.0 as int, *old(cur_if_else_idx) as nat);
            &&& carries(lines + lw.lines, all_instrs(*final(fn_builder), r), all_patches(*final(fn_builder), r))
            &&& labels_carried(ls + shift_labels(lw.labels, lines.len() as int), *final(fn_builder), r)
            &&& *final(cur_if_else_idx) == lw.next
            &&& lw.labels.len() > 0 ==> r.label_name() is Some
            &&& lw.labels.len() == 0 ==> r.label_name() == block_builder.label_name()
        }),
        blocks_total(final(fn_builder).blocks@) == final(fn_builder).program_builder.program.instructions@.len(),
        final(fn_builder).program_builder.program@.functions == old(fn_builder).program_builder.program@.functions,
        final(fn_builder).program_builder.patches == old(fn_builder).program_builder.patches,
        final(fn_builder).parameters == old(fn_builder).parameters,
        final(fn_builder).name == old(fn_builder).name,
        final(fn_builder).return_type == old(fn_builder).return_type,
        *final(final(fn_builder).program_builder) == *final(old(fn_builder).program_builder),
    decreases ast_root.0, 1int,
{
    let mut block_builder = block_builder;
    let ghost bb0 = block_builder;
    let ghost fb0 = *fn_builder;
    let ghost k0 = *cur_if_else_idx as nat;
    match &ast[ast_root.0] {
        Ast::Instruction(instr) => {
            let ghost pv = patch_views(block_builder.patches@);
            let dup = instr.duplicate();
            block_builder.add_instr(dup);
            proof {
                let i0 = old(fn_builder).program_builder.program.instructions@;
                assert(label_patches_fit(patch_views(block_builder.patches@), block_builder.instrs@)) by {
                    assert forall|k: int| 0 <= k < pv.len() implies match (#[trigger] pv[k]).1 {
                        PatchTarget::Labels(n) => {
                            &&& block_builder.instrs@[pv[k].0] is Jmp ==> n.len() >= 1
                            &&& block_builder.instrs@[pv[k].0] is Br ==> n.len() >= 2
                        },
                        PatchTarget::Function(_) => false,
                    } by {
                        assert(crate::builder::patch_fits(pv[k], block_builder.instrs@));
                    }
                }
                let lw = lower(ast@, ast_root.0 as int, k0);
                lemma_carries_push(lines, all_instrs(fb0, bb0), all_patches(fb0, bb0), dup);
                assert(all_instrs(fb0, block_builder) =~= all_instrs(fb0, bb0).push(dup));
                assert(all_patches(fb0, block_builder) == all_patches(fb0, bb0));
                assert(lines + lw.lines =~= lines.push((dup@, None)));
                assert(shift_labels(lw.labels, lines.len() as int) =~= Seq::<(int, Seq<char>)>::empty());
                assert(ls + shift_labels(lw.labels, lines.len() as int) =~= ls);
            }
            block_builder
        },
        Ast::If(_, _, _) => {
            lower_if(ast, ast_root, fn_builder, cur_if_else_idx, block_builder, Ghost(pending), Ghost(lines), Ghost(ls))
        },
        Ast::Sequence(children) => {
            let ghost size0 = lowering_size(*fn_builder, block_builder, *cur_if_else_idx);
            let mut c: usize = 0;
            proof {
                assert(lines + lower_children(ast@, ast_root.0 as int, children@, 0, k0).lines =~= lines);
                assert(ls + shift_labels(lower_children(ast@, ast_root.0 as int, children@, 0, k0).labels, lines.len() as int) =~= ls);
            }
            while c < children.len()
                invariant
                    loop_free(ast@, ast_root.0 as int),
                    ast@[ast_root.0 as int] is Sequence,
                    children@ == ast@[ast_root.0 as int]->Sequence_0@,
                    c <= children@.len(),
                    lowering_inv(*fn_builder, block_builder, pending),
                    lowering_size(*fn_builder, block_builder, *cur_if_else_idx) <= size0 + crate::ast::children_cost(
                        ast@,
                        ast_root.0 as int,
                        children@,
                        c as int,
                    ),
                    size0 + ast_cost(ast@, ast_root.0 as int) + 4 < u32::MAX,
                    ({
                        let lc = lower_children(ast@, ast_root.0 as int, children@, c as int, k0);
                        &&& carries(lines + lc.lines, all_instrs(*fn_builder, block_builder), all_patches(*fn_builder, block_builder))
                        &&& labels_carried(ls + shift_labels(lc.labels, lines.len() as int), *fn_builder, block_builder)
                        &&& *cur_if_else_idx == lc.next
                        &&& lc.labels.len() > 0 ==> block_builder.label_name() is Some
                        &&& lc.labels.len() == 0 ==> block_builder.label_name() == bb0.label_name()
                    }),
                    blocks_total(fn_builder.blocks@) == fn_builder.program_builder.program.instructions@.len(),
                    fn_builder.program_builder.program@.functions == old(fn_builder).program_builder.program@.functions,
                    fn_builder.program_builder.patches == old(fn_builder).program_builder.patches,
                    fn_builder.parameters == old(fn_builder).parameters,
                    fn_builder.name == old(fn_builder).name,
                    fn_builder.return_type == old(fn_builder).return_type,
                    *final(fn_builder.program_builder) == *final(old(fn_builder).program_builder),
                decreases children.len() - c,
            {
                proof {
                    lemma_children(ast@, ast_root.0 as int, children@, c as int);
                }
                let ghost lc = lower_children(ast@, ast_root.0 as int, children@, c as int, k0);
                block_builder = recursed_ast_to_ir(
                    ast,
                    children[c],
                    fn_builder,
                    cur_if_else_idx,
                    block_builder,
                    Ghost(pending),
                    Ghost(lines + lc.lines),
                    Ghost(ls + shift_labels(lc.labels, lines.len() as int)),
                );
                proof {
                    let l = lower(ast@, children@[c as int].0 as int, lc.next);
                    let lc1 = lower_children(ast@, ast_root.0 as int, children@, c + 1, k0);
                    assert(lc1 == lowered_then(lc, l));
                    assert(lines + lc.lines + l.lines =~= lines + lc1.lines);
                    lemma_shift_labels(lc.labels, shift_labels(l.labels, lc.lines.len() as int), lines.len() as int, lc.lines.len() as int);
                    lemma_shift_labels(l.labels, lc.labels, lines.len() as int, lc.lines.len() as int);
                    assert(ls + shift_labels(lc.labels, lines.len() as int) + shift_labels(l.labels, (lines + lc.lines).len() as int)
                        =~= ls + shift_labels(lc1.labels, lines.len() as int));
                }
                c = c + 1;
            }
            block_builder
        },
        Ast::Loop(_, _) => {
            proof {
                let lw = lower(ast@, ast_root.0 as int, k0);
                assert(lines + lw.lines =~= lines);
                assert(ls + shift_labels(lw.labels, lines.len() as int) =~= ls);
            }
            block_builder
        },
    }
}

/// Lowers a branch node: seals the open block with the branch, lowers
/// each arm into a block of its own ending with a jump to the exit block,
/// and returns the exit block, open.
#[verifier::rlimit(100)]
fn lower_if(
    ast: &Vec<Ast>,
    ast_root: AstIdx,
    fn_builder: &mut FunctionBuilder,
    cur_if_else_idx: &mut usize,
    block_builder: BasicBlockBuilder,
    Ghost(pending): Ghost<Set<Seq<char>>>,
    Ghost(lines): Ghost<Seq<(InstructionView, Option<Seq<Seq<char>>>)>>,
    Ghost(ls): Ghost<Seq<(int, Seq<char>)>>,
) -> (r: BasicBlockBuilder)
    requires
        ast@[ast_root.0 as int] is If,
        loop_free(ast@, ast_root.0 as int),
        lowering_inv(*old(fn_builder), block_builder, pending),
        lowering_size(*old(fn_builder), block_builder, *old(cur_if_else_idx)) + ast_cost(ast@, ast_root.0 as int) + 4
            < u32::MAX,
        carries(lines, all_instrs(*old(fn_builder), block_builder), all_patches(*old(fn_builder), block_builder)),
        labels_carried(ls, *old(fn_builder), block_builder),
        blocks_total(old(fn_builder).blocks@) == old(fn_builder).program_builder.program.instructions@.len(),
    ensures
        lowering_inv(*final(fn_builder), r, pending),
        lowering_size(*final(fn_builder), r, *final(cur_if_else_idx)) <= lowering_size(
            *old(fn_builder),
            block_builder,
            *old(cur_if_else_idx),
        ) + ast_cost(ast@, ast_root.0 as int),
        ({
            let lw = lower(ast@, ast_root.0 as int, *old(cur_if_else_idx) as nat);
            &&& carries(lines + lw.lines, all_instrs(*final(fn_builder), r), all_patches(*final(fn_builder), r))
            &&& labels_carried(ls + shift_labels(lw.labels, lines.len() as int), *final(fn_builder), r)
            &&& *final(cur_if_else_idx) == lw.next
            &&& lw.labels.len() > 0 ==> r.label_name() is Some
            &&& lw.labels.len() == 0 ==> r.label_name() == block_builder.label_name()
        }),
        blocks_total(final(fn_builder).blocks@) == final(fn_builder).program_builder.program.instructions@.len(),
        final(fn_builder).program_builder.program@.functions == old(fn_builder).program_builder.program@.functions,
        final(fn_builder).program_builder.patches == old(fn_builder).program_builder.patches,
        final(fn_builder).parameters == old(fn_builder).parameters,
        final(fn_builder).name == old(fn_builder).name,
        final(fn_builder).return_type == old(fn_builder).return_type,
        *final(final(fn_builder).program_builder) == *final(old(fn_builder).program_builder),
    decreases ast_root.0, 0int,
{
    let mut block_builder = block_builder;
    let ghost bb0 = block_builder;
    let ghost fb0 = *fn_builder;
    let ghost k0 = *cur_if_else_idx as nat;
    match &ast[ast_root.0] {
        Ast::If(condition, if_true, if_false) => {
            let k = *cur_if_else_idx;
            let true_block_label = if_else_label(k, ".true");
            let false_block_label = if_else_label(k, ".false");
            let exit_label = if_else_label(k, ".exit");
            let ghost t = true_block_label@;
            let ghost f = false_block_label@;
            let ghost e = exit_label@;
            proof {
                reveal_strlit(".true");
                reveal_strlit(".false");
                reveal_strlit(".exit");
            }
            *cur_if_else_idx = k + 1;
            let ghost s_all = pending.insert(t).insert(f);
            proof {
                let p = fn_builder.program_builder.program;
                let sealed = sealed_names(p@, fn_builder.block_names@);
                let s0 = sealed.union(open_label(block_builder)).union(pending);
                let s1 = sealed.union(open_label(block_builder)).union(s_all);
                assert(s0.subset_of(s1));
                lemma_names_mono(patch_views(fn_builder.patches@), s0, s1);
                lemma_names_mono(patch_views(block_builder.patches@), s0, s1);
            }
            let ghost s_block_builder = sealed_names(fn_builder.program_builder.program@, fn_builder.block_names@).union(open_label(block_builder)).union(s_all);
            let br = Instruction::Br(*condition, LabelIdx(0), LabelIdx(0));
            let ghost br_v = br;
            let br_names = vec![true_block_label.clone(), false_block_label.clone()];
            proof {
                assert(br_names@.map_values(|x: String| x@) =~= seq![t, f]);
            }
            add_label_patch(&mut block_builder, br, br_names, Ghost(s_block_builder));
            let ghost lines1 = lines.push((br_v@, Some(seq![t, f])));
            proof {
                let bbp = patch_views(bb0.patches@);
                let n0 = fb0.program_builder.program.instructions@.len() as int;
                assert(shift_patches(bbp.push((bb0.instrs@.len() as int, PatchTarget::Labels(seq![t, f]))), n0)
                    =~= shift_patches(bbp, n0).push((lines.len() as int, PatchTarget::Labels(seq![t, f]))));
                lemma_carries_push_patched(lines, all_instrs(fb0, bb0), all_patches(fb0, bb0), br_v, seq![t, f]);
                assert(all_instrs(fb0, block_builder) =~= all_instrs(fb0, bb0).push(br_v));
                assert(all_patches(fb0, block_builder) =~= all_patches(fb0, bb0).push(
                    (lines.len() as int, PatchTarget::Labels(seq![t, f])),
                ));
                assert(open_name(fb0, block_builder) == open_name(fb0, bb0));
            }
            seal_open(fn_builder, block_builder, Ghost(s_all), Ghost(lines1), Ghost(ls.drop_last()));
            let ghost p_true = pending.insert(f).insert(e);
            let true_start = BasicBlockBuilder::with_label(true_block_label);
            let ghost ls1 = ls.push((lines1.len() as int, t));
            proof {
                let p = fn_builder.program_builder.program;
                let sealed = sealed_names(p@, fn_builder.block_names@);
                let s_a = sealed.union(s_all);
                let s_b = sealed.union(open_label(true_start)).union(p_true);
                assert(open_label(true_start) =~= set![t]);
                assert(s_a.subset_of(s_b));
                lemma_names_mono(patch_views(fn_builder.patches@), s_a, s_b);
                assert(patch_views(true_start.patches@) =~= Seq::<(int, PatchTarget)>::empty());
                assert(ast@[ast_root.0 as int] is If);
                assert(ls.drop_last().push(ls.last()) =~= ls);
                assert(ls1.drop_last() =~= ls);
                lemma_fresh_block(*fn_builder, true_start);
            }
            let mut true_block_builder = recursed_ast_to_ir(
                ast,
                *if_true,
                fn_builder,
                cur_if_else_idx,
                true_start,
                Ghost(p_true),
                Ghost(lines1),
                Ghost(ls1),
            );
            let ghost tl = lower(ast@, if_true.0 as int, (k0 + 1) as nat);
            let ghost fb2 = *fn_builder;
            let ghost tbb = true_block_builder;
            proof {
                let p = fn_builder.program_builder.program;
                let s_c = sealed_names(p@, fn_builder.block_names@).union(open_label(true_block_builder)).union(p_true);
                assert(s_c.contains(e));
            }
            let ghost s_true_block_builder = sealed_names(fn_builder.program_builder.program@, fn_builder.block_names@).union(open_label(true_block_builder)).union(p_true);
            let jmp_t = Instruction::Jmp(LabelIdx(0));
            let ghost jmp_v = jmp_t;
            let jt_names = vec![exit_label.clone()];
            proof {
                assert(jt_names@.map_values(|x: String| x@) =~= seq![e]);
            }
            add_label_patch(&mut true_block_builder, jmp_t, jt_names, Ghost(s_true_block_builder));
            let ghost lines2 = (lines1 + tl.lines).push((jmp_v@, Some(seq![e])));
            let ghost ls2 = ls1 + shift_labels(tl.labels, lines1.len() as int);
            proof {
                let bbp = patch_views(tbb.patches@);
                let n0 = fb2.program_builder.program.instructions@.len() as int;
                assert(shift_patches(bbp.push((tbb.instrs@.len() as int, PatchTarget::Labels(seq![e]))), n0)
                    =~= shift_patches(bbp, n0).push(((lines1 + tl.lines).len() as int, PatchTarget::Labels(seq![e]))));
                lemma_carries_push_patched(lines1 + tl.lines, all_instrs(fb2, tbb), all_patches(fb2, tbb), jmp_v, seq![e]);
                assert(all_instrs(fb2, true_block_builder) =~= all_instrs(fb2, tbb).push(jmp_v));
                assert(all_patches(fb2, true_block_builder) =~= all_patches(fb2, tbb).push(
                    ((lines1 + tl.lines).len() as int, PatchTarget::Labels(seq![e])),
                ));
                assert(open_name(fb2, true_block_builder) == open_name(fb2, tbb));
            }
            seal_open(fn_builder, true_block_builder, Ghost(p_true), Ghost(lines2), Ghost(ls2.drop_last()));
            let ghost p_false = pending.insert(e);
            let false_start = BasicBlockBuilder::with_label(false_block_label);
            let ghost ls3 = ls2.push((lines2.len() as int, f));
            proof {
                let p = fn_builder.program_builder.program;
                let sealed = sealed_names(p@, fn_builder.block_names@);
                let s_a = sealed.union(p_true);
                let s_b = sealed.union(open_label(false_start)).union(p_false);
                assert(open_label(false_start) =~= set![f]);
                assert(s_a.subset_of(s_b));
                lemma_names_mono(patch_views(fn_builder.patches@), s_a, s_b);
                assert(patch_views(false_start.patches@) =~= Seq::<(int, PatchTarget)>::empty());
                assert(ls2.drop_last().push(ls2.last()) =~= ls2);
                assert(ls3.drop_last() =~= ls2);
                lemma_fresh_block(*fn_builder, false_start);
            }
            let mut false_block_builder = recursed_ast_to_ir(
                ast,
                *if_false,
                fn_builder,
                cur_if_else_idx,
                false_start,
                Ghost(p_false),
                Ghost(lines2),
                Ghost(ls3),
            );
            let ghost fl = lower(ast@, if_false.0 as int, tl.next);
            let ghost fb4 = *fn_builder;
            let ghost fbb = false_block_builder;
            let ghost s_false_block_builder = sealed_names(fn_builder.program_builder.program@, fn_builder.block_names@).union(open_label(false_block_builder)).union(p_false);
            let jmp_f = Instruction::Jmp(LabelIdx(0));
            let jf_names = vec![exit_label.clone()];
            proof {
                assert(jf_names@.map_values(|x: String| x@) =~= seq![e]);
            }
            add_label_patch(&mut false_block_builder, jmp_f, jf_names, Ghost(s_false_block_builder));
            let ghost lines3 = (lines2 + fl.lines).push((jmp_v@, Some(seq![e])));
            let ghost ls4 = ls3 + shift_labels(fl.labels, lines2.len() as int);
            proof {
                let bbp = patch_views(fbb.patches@);
                let n0 = fb4.program_builder.program.instructions@.len() as int;
                assert(shift_patches(bbp.push((fbb.instrs@.len() as int, PatchTarget::Labels(seq![e]))), n0)
                    =~= shift_patches(bbp, n0).push(((lines2 + fl.lines).len() as int, PatchTarget::Labels(seq![e]))));
                lemma_carries_push_patched(lines2 + fl.lines, all_instrs(fb4, fbb), all_patches(fb4, fbb), jmp_v, seq![e]);
                assert(all_instrs(fb4, false_block_builder) =~= all_instrs(fb4, fbb).push(jmp_v));
                assert(all_patches(fb4, false_block_builder) =~= all_patches(fb4, fbb).push(
                    ((lines2 + fl.lines).len() as int, PatchTarget::Labels(seq![e])),
                ));
                assert(open_name(fb4, false_block_builder) == open_name(fb4, fbb));
            }
            seal_open(fn_builder, false_block_builder, Ghost(p_false), Ghost(lines3), Ghost(ls4.drop_last()));
            let exit_block = BasicBlockBuilder::with_label(exit_label);
            proof {
                let p = fn_builder.program_builder.program;
                let sealed = sealed_names(p@, fn_builder.block_names@);
                let s_a = sealed.union(p_false);
                let s_b = sealed.union(open_label(exit_block)).union(pending);
                assert(open_label(exit_block) =~= set![e]);
                assert(s_a.subset_of(s_b));
                lemma_names_mono(patch_views(fn_builder.patches@), s_a, s_b);
                assert(patch_views(exit_block.patches@) =~= Seq::<(int, PatchTarget)>::empty());
                assert(ls4.drop_last().push(ls4.last()) =~= ls4);
                lemma_fresh_block(*fn_builder, exit_block);
                let lw = lower(ast@, ast_root.0 as int, k0);
                assert(t == if_label(k0, ".true"@));
                assert(f == if_label(k0, ".false"@));
                assert(e == if_label(k0, ".exit"@));
                assert(lines3 =~= lines + lw.lines);
                let la: int = 1 + tl.lines.len() as int;
                let ll = lines.len() as int;
                lemma_shift_labels(tl.labels, fl.labels, ll, 1);
                lemma_shift_labels(fl.labels, tl.labels, ll, la + 1);
                let x1 = seq![(1int, t)];
                let x2 = shift_labels(tl.labels, 1);
                let x3 = seq![(la + 1, f)];
                let x4 = shift_labels(fl.labels, la + 1);
                let x5 = seq![(la + 2 + fl.lines.len() as int, e)];
                assert(lw.labels == x1 + x2 + x3 + x4 + x5);
                lemma_shift_labels(x1 + x2 + x3 + x4, x5, ll, 0);
                lemma_shift_labels(x1 + x2 + x3, x4, ll, 0);
                lemma_shift_labels(x1 + x2, x3, ll, 0);
                lemma_shift_labels(x1, x2, ll, 0);
                lemma_shift_labels(x2, x1, ll, 1);
                lemma_shift_labels(x4, x1, ll, la + 1);
                assert(shift_labels(x1, ll) =~= seq![(ll + 1, t)]);
                assert(shift_labels(x3, ll) =~= seq![(ll + la + 1, f)]);
                assert(shift_labels(x5, ll) =~= seq![(ll + la + 2 + fl.lines.len() as int, e)]);
                assert(ls4.push((lines3.len() as int, e)) =~= ls + shift_labels(lw.labels, ll));
            }
            exit_block
        },
        _ => {
            proof {
                assert(false);
            }
            block_builder
        },
    }
}

/// Child `c` of a loop-free sequence node comes before it, is loop free,
/// and costs what the children up to it add.
proof fn lemma_children(ast: Seq<Ast>, i: int, children: Seq<AstIdx>, c: int)
    requires
        0 <= c < children.len(),
        children_loop_free(ast, i, children, children.len() as int),
    ensures
        children[c].0 < i,
        loop_free(ast, children[c].0 as int),
        children_cost(ast, i, children, c + 1) == children_cost(ast, i, children, c) + ast_cost(ast, children[c].0 as int),
        children_cost(ast, i, children, c + 1) <= children_cost(ast, i, children, children.len() as int),
    decreases children.len() - c,
{
    if c + 1 < children.len() {
        lemma_children_prefix(ast, i, children, children.len() as int, c + 1);
        lemma_children_cost_mono(ast, i, children, c + 1, children.len() as int);
    }
}

proof fn lemma_children_prefix(ast: Seq<Ast>, i: int, children: Seq<AstIdx>, k: int, m: int)
    requires
        0 <= m <= k <= children.len(),
        children_loop_free(ast, i, children, k),
    ensures
        children_loop_free(ast, i, children, m),
    decreases k - m,
{
    if m < k {
        lemma_children_prefix(ast, i, children, k - 1, m);
    }
}

proof fn lemma_children_cost_mono(ast: Seq<Ast>, i: int, children: Seq<AstIdx>, m: int, k: int)
    requires
        0 <= m <= k <= children.len(),
    ensures
        children_cost(ast, i, children, m) <= children_cost(ast, i, children, k),
    decreases k - m,
{
    if m < k {
        lemma_children_cost_mono(ast, i, children, m, k - 1);
    }
}

} // verus!

verus! {

/// The cost of a lowering capped at the largest index of a table.
pub open spec fn capped(c: nat) -> nat {
    if c < u32::MAX {
        c
    } else {
        u32::MAX as nat
    }
}

/// The cost of lowering the tree below node `i`, capped at `u32::MAX`, if
/// the tree refers only to earlier nodes and holds no loop.
fn capped_cost(ast: &Vec<Ast>, i: usize) -> (r: Option<u64>)
    ensures
        r is Some <==> loop_free(ast@, i as int),
        r matches Some(c) ==> c == capped(ast_cost(ast@, i as int)),
    decreases i,
{
    if i >= ast.len() {
        return None;
    }
    match &ast[i] {
        Ast::Instruction(_) => Some(1),
        Ast::If(_, t, f) => {
            if t.0 >= i || f.0 >= i {
                return None;
            }
            let a = match capped_cost(ast, t.0) {
                Some(a) => a,
                None => {
                    return None;
                },
            };
            let b = match capped_cost(ast, f.0) {
                Some(b) => b,
                None => {
                    return None;
                },
            };
            let sum = 16 + a + b;
            if sum < 0xffff_ffffu64 {
                Some(sum)
            } else {
                Some(0xffff_ffffu64)
            }
        },
        Ast::Sequence(children) => {
            let mut acc: u64 = 0;
            let mut k: usize = 0;
            while k < children.len()
                invariant
                    i < ast@.len(),
                    ast@[i as int] is Sequence,
                    children@ == ast@[i as int]->Sequence_0@,
                    k <= children@.len(),
                    children_loop_free(ast@, i as int, children@, k as int),
                    acc == capped(children_cost(ast@, i as int, children@, k as int)),
                decreases children.len() - k,
            {
                let c = children[k].0;
                if c >= i {
                    proof {
                        if loop_free(ast@, i as int) {
                            lemma_children_loop_free_needs(ast@, i as int, children@, k as int);
                        }
                    }
                    return None;
                }
                let x = match capped_cost(ast, c) {
                    Some(x) => x,
                    None => {
                        proof {
                            if loop_free(ast@, i as int) {
                                lemma_children_loop_free_needs(ast@, i as int, children@, k as int);
                            }
                        }
                        return None;
                    },
                };
                let sum = acc + x;
                acc = if sum < 0xffff_ffffu64 {
                    sum
                } else {
                    0xffff_ffffu64
                };
                k = k + 1;
            }
            Some(acc)
        },
        Ast::Loop(_, _) => None,
    }
}

/// A sequence whose children up to `k` are fine is loop free only if child
/// `k` comes before it and is loop free.
proof fn lemma_children_loop_free_needs(ast: Seq<Ast>, i: int, children: Seq<AstIdx>, k: int)
    requires
        0 <= k < children.len(),
        children_loop_free(ast, i, children, children.len() as int),
    ensures
        children[k].0 < i,
        loop_free(ast, children[k].0 as int),
{
    lemma_children_prefix(ast, i, children, children.len() as int, k + 1);
}

/// Whether the tree below `root` can be lowered by `ast_to_ir`: it refers
/// only to earlier nodes, holds no loop, and is small enough for the tables
/// of a program.
pub fn lowerable(ast: &Vec<Ast>, root: AstIdx) -> (r: bool)
    ensures
        r == (loop_free(ast@, root.0 as int) && ast_cost(ast@, root.0 as int) + 8 < u32::MAX),
{
    match capped_cost(ast, root.0) {
        Some(c) => c + 8 < 0xffff_ffffu64,
        None => false,
    }
}

/// The labels of a function of a program: where each stands and its name.
pub open spec fn function_labels(p: ProgramView, labels: Seq<LabelIdx>) -> Seq<(int, Seq<char>)> {
    Seq::new(labels.len(), |c: int| (p.labels[labels[c].0 as int].0 as int, label_name_of(p, labels[c])))
}

/// Lowers a structured program into a program of one function, `main`,
/// whose instructions are the lines of the lowering of the tree, each jump
/// or branch sent to the label it names. The function's labels are `L0` at
/// its start and then the labels the lowering opens, unless there is no
/// code at all.
pub fn ast_to_ir(ast: &Vec<Ast>, ast_root: AstIdx) -> (r: crate::ir::Program)
    requires
        loop_free(ast@, ast_root.0 as int),
        ast_cost(ast@, ast_root.0 as int) + 8 < u32::MAX,
    ensures
        r.wf(),
        r@.functions.len() == 1,
        r@.strings[r@.functions[0].name.0 as int] == "main"@,
        ({
            let lw = lower(ast@, ast_root.0 as int, 0);
            let fv = r@.functions[0];
            &&& fv.start == 0
            &&& fv.end == lw.lines.len()
            &&& r.instructions@.len() == lw.lines.len()
            &&& forall|x: int|
                0 <= x < lw.lines.len() ==> (#[trigger] r.instructions@[x])@ == resolve_line(lw.lines[x], r@, fv.labels)
            &&& function_labels(r@, fv.labels) == if lw.lines.len() == 0 && lw.labels.len() == 0 {
                Seq::<(int, Seq<char>)>::empty()
            } else {
                seq![(0int, "L0"@)] + lw.labels
            }
        }),
{
    let mut program_builder = ProgramBuilder::new();
    let mut fn_builder = program_builder.new_function("main".to_owned());
    let mut cur_if_else_idx: usize = 0;
    let first = BasicBlockBuilder::new();
    let ghost lw = lower(ast@, ast_root.0 as int, 0);
    let ghost ls0 = seq![(0int, seq!['L'] + decimal(0))];
    proof {
        assert(patch_views(fn_builder.patches@) =~= Seq::<(int, PatchTarget)>::empty());
        assert(patch_views(first.patches@) =~= Seq::<(int, PatchTarget)>::empty());
        assert(lowering_size(fn_builder, first, 0) == 0);
        lemma_fresh_block(fn_builder, first);
        assert(carries(Seq::empty(), all_instrs(fn_builder, first), all_patches(fn_builder, first)));
        assert(ls0.drop_last() =~= Seq::<(int, Seq<char>)>::empty());
        assert(labels_carried(ls0, fn_builder, first));
        assert(blocks_total(fn_builder.blocks@) == 0);
    }
    let last_block_builder = recursed_ast_to_ir(
        ast,
        ast_root,
        &mut fn_builder,
        &mut cur_if_else_idx,
        first,
        Ghost(Set::empty()),
        Ghost(Seq::empty()),
        Ghost(ls0),
    );
    let ghost ls_all = ls0 + shift_labels(lw.labels, 0);
    let ghost fb_l = fn_builder;
    proof {
        lemma_shift_labels(lw.labels, lw.labels, 0, 0);
        assert(Seq::<(InstructionView, Option<Seq<Seq<char>>>)>::empty() + lw.lines =~= lw.lines);
    }
    let ghost sealed_all = if last_block_builder.instrs@.len() == 0 && last_block_builder.label_name() is None {
        ls_all.drop_last()
    } else {
        ls_all
    };
    if !last_block_builder.is_empty() {
        seal_open(&mut fn_builder, last_block_builder, Ghost(Set::empty()), Ghost(lw.lines), Ghost(ls_all.drop_last()));
        proof {
            assert(ls_all.drop_last().push(ls_all.last()) =~= ls_all);
        }
    } else {
        proof {
            assert(open_label(last_block_builder) =~= Set::<Seq<char>>::empty());
            let p = fn_builder.program_builder.program;
            let s = sealed_names(p@, fn_builder.block_names@);
            assert(s.union(open_label(last_block_builder)).union(Set::empty()) =~= s.union(Set::empty()));
            if last_block_builder.patches@.len() > 0 {
                assert(crate::builder::patch_fits(patch_views(last_block_builder.patches@)[0], last_block_builder.instrs@));
            }
            lemma_fresh_block(fb_l, last_block_builder);
        }
    }
    let ghost p0 = fn_builder.program_builder.program;
    let ghost bn = fn_builder.block_names@;
    proof {
        let p = fn_builder.program_builder.program;
        let pv = patch_views(fn_builder.patches@);
        let s = sealed_names(p@, fn_builder.block_names@);
        assert(s.union(Set::<Seq<char>>::empty()) =~= s);
        assert forall|k: int| 0 <= k < pv.len() implies match (#[trigger] pv[k]).1 {
            PatchTarget::Labels(names) => {
                &&& forall|j: int| 0 <= j < names.len() ==> crate::builder::find_block_label(p@, fn_builder.block_names@, #[trigger] names[j]) is Some
                &&& p.instructions@[pv[k].0] is Jmp ==> names.len() >= 1
                &&& p.instructions@[pv[k].0] is Br ==> names.len() >= 2
            },
            PatchTarget::Function(_) => true,
        } by {
            match pv[k].1 {
                PatchTarget::Labels(names) => {
                    assert forall|j: int| 0 <= j < names.len() implies crate::builder::find_block_label(p@, fn_builder.block_names@, #[trigger] names[j]) is Some by {
                        assert(s.contains(names[j]));
                        let c = choose|c: int| 0 <= c < fn_builder.block_names@.len() && label_name_of(p@, #[trigger] fn_builder.block_names@[c]) == names[j];
                        lemma_find_block_label_found(p@, fn_builder.block_names@, names[j], c);
                    }
                },
                _ => {},
            }
        }
        assert(label_patches_resolvable(pv, p.instructions@, p@, fn_builder.block_names@));
    }
    let ghost pv_fn = patch_views(fn_builder.patches@);
    fn_builder.finish();
    proof {
        let fp = crate::builder::function_patches(pv_fn);
        if fp.len() > 0 {
            pv_fn.lemma_filter_pred(|pt: (int, PatchTarget)| pt.1 is Function, 0);
            assert(fp.contains(fp[0]));
            pv_fn.lemma_filter_contains_rev(|pt: (int, PatchTarget)| pt.1 is Function, fp[0]);
            let y = choose|y: int| 0 <= y < pv_fn.len() && pv_fn[y] == fp[0];
            assert(pv_fn[y].1 is Labels);
        }
        assert(patch_views(program_builder.patches@) =~= Seq::<(int, PatchTarget)>::empty());
    }
    let ghost p1 = program_builder.program;
    let r = program_builder.finish();
    proof {
        reveal_strlit("L0");
        assert(decimal(0) == seq!['0']);
        assert(seq!['L'] + decimal(0) =~= "L0"@);
        assert(ls_all =~= seq![(0int, "L0"@)] + lw.labels);
        if last_block_builder.instrs@.len() == 0 && last_block_builder.label_name() is None {
            assert(lw.labels.len() == 0);
            assert(ls_all.drop_last() =~= Seq::<(int, Seq<char>)>::empty());
            assert(sealed_instrs(fb_l).len() == 0);
            assert(lw.lines.len() == 0);
        } else {
            assert(!(lw.lines.len() == 0 && lw.labels.len() == 0));
        }
        assert(carries(lw.lines, p0.instructions@, pv_fn));
        assert(sealed_labels_are(sealed_all, fb_l) || sealed_labels_are(sealed_all, fn_builder));
        lemma_lowered_program(lw, p0, bn, pv_fn, p1, r, sealed_all);
        assert(r@.functions[0].start == 0);
        assert(r@.functions[0].labels == bn);
    }
    r
}

/// The last steps of a lowering: resolving the label patches of the code
/// carrying the lines puts each line's targets in place, and the labels of
/// the sealed blocks become the function's.
proof fn lemma_lowered_program(
    lw: Lowered,
    p0: crate::ir::Program,
    bn: Seq<LabelIdx>,
    pv: Seq<(int, PatchTarget)>,
    p1: crate::ir::Program,
    r: crate::ir::Program,
    sealed: Seq<(int, Seq<char>)>,
)
    requires
        p0.wf(),
        carries(lw.lines, p0.instructions@, pv),
        crate::builder::patches_fit(pv, p0.instructions@),
        forall|c: int| 0 <= c < bn.len() ==> (#[trigger] bn[c]).0 < p0@.labels.len(),
        sealed.len() == bn.len(),
        forall|c: int| 0 <= c < bn.len() ==> #[trigger] sealed[c] == (p0@.labels[bn[c].0 as int].0 as int, label_name_of(p0@, bn[c])),
        p1.instructions@ == crate::builder::apply_label_patches(p0.instructions@, pv, p0@, bn),
        p1@.labels == p0@.labels,
        p0@.strings.len() <= p1@.strings.len(),
        forall|x: int| 0 <= x < p0@.strings.len() ==> p1@.strings[x] == p0@.strings[x],
        r.instructions@ == p1.instructions@,
        r@ == p1@,
    ensures
        r.instructions@.len() == lw.lines.len(),
        forall|x: int| 0 <= x < lw.lines.len() ==> (#[trigger] r.instructions@[x])@ == resolve_line(lw.lines[x], r@, bn),
        function_labels(r@, bn) == sealed,
{
    crate::builder::lemma_apply_label_patches_kinds(p0.instructions@, pv, p0@, bn);
    assert forall|a: int, b: int|
        0 <= a < pv.len() && 0 <= b < pv.len() && (#[trigger] pv[a]).0 == (#[trigger] pv[b]).0 implies pv[a].1
            == pv[b].1 by {}
    assert(crate::builder::patches_consistent(pv));
    assert forall|c: int| 0 <= c < bn.len() implies label_name_of(p0@, #[trigger] bn[c]) == label_name_of(r@, bn[c]) by {
        assert(p0@.labels[bn[c].0 as int].1.0 < p0@.strings.len());
    }
    assert forall|x: int| 0 <= x < lw.lines.len() implies (#[trigger] r.instructions@[x])@ == resolve_line(lw.lines[x], r@, bn) by {
        crate::builder::lemma_apply_label_patches_at(p0.instructions@, pv, p0@, bn, x);
        match lw.lines[x].1 {
            Some(n) => {
                let m = choose|m: int| 0 <= m < pv.len() && pv[m] == (x, PatchTarget::Labels(n));
                assert(r.instructions@[x] == crate::builder::patch_labels(p0.instructions@[x], n, p0@, bn));
                crate::builder::lemma_find_block_label_names(p0@, r@, bn, n[0]);
                crate::builder::lemma_find_block_label_names(p0@, r@, bn, n[1]);
            },
            None => {
                assert forall|m: int| 0 <= m < pv.len() implies (#[trigger] pv[m]).0 != x || pv[m].1 is Function by {}
            },
        }
    }
    assert(function_labels(r@, bn) =~= sealed);
}

} // verus!
