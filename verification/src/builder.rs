use vstd::prelude::*;

use crate::ir::{
    copy_variables, program_view_wf, str_eq, FunctionIdx, FunctionInternal, FunctionView, Instruction, LabelIdx, Program,
    ProgramView, StringIdx, Type, Variable,
};
use crate::text::{decimal, decimal_string};

verus! {

/// Index of a basic block of a function under construction or of a control
/// flow graph.
#[derive(Debug, PartialEq, Eq, PartialOrd, Ord, Hash, Clone, Copy, Structural, Default)]
pub struct BasicBlockIdx(pub usize);

/// What an instruction waits for: the labels it jumps to, or the function it
/// calls, by name.
pub enum PatchType {
    Label(Vec<String>),
    Func(String),
}

/// An instruction whose targets are resolved once the names are known.
pub struct Patch {
    pub offset: usize,
    pub ty: PatchType,
}

/// The model of a patch's target names.
pub enum PatchTarget {
    Labels(Seq<Seq<char>>),
    Function(Seq<char>),
}

pub open spec fn patch_target(ty: PatchType) -> PatchTarget {
    match ty {
        PatchType::Label(names) => PatchTarget::Labels(names@.map_values(|s: String| s@)),
        PatchType::Func(name) => PatchTarget::Function(name@),
    }
}

/// The model of a patch.
pub open spec fn patch_view(p: Patch) -> (int, PatchTarget) {
    (p.offset as int, patch_target(p.ty))
}

pub open spec fn patch_views(ps: Seq<Patch>) -> Seq<(int, PatchTarget)> {
    ps.map_values(|p: Patch| patch_view(p))
}

/// The patch points at an instruction of the kind it resolves.
pub open spec fn patch_fits(p: (int, PatchTarget), instrs: Seq<Instruction>) -> bool {
    &&& 0 <= p.0 < instrs.len()
    &&& match p.1 {
        PatchTarget::Labels(_) => instrs[p.0] is Jmp || instrs[p.0] is Br,
        PatchTarget::Function(_) => instrs[p.0] is Call,
    }
}

pub open spec fn patches_fit(ps: Seq<(int, PatchTarget)>, instrs: Seq<Instruction>) -> bool {
    forall|k: int| 0 <= k < ps.len() ==> patch_fits(#[trigger] ps[k], instrs)
}

/// Patches moved by `delta` positions.
pub open spec fn shift_patches(ps: Seq<(int, PatchTarget)>, delta: int) -> Seq<(int, PatchTarget)> {
    ps.map_values(|p: (int, PatchTarget)| (p.0 + delta, p.1))
}

/// The instructions of a basic block under construction.
pub struct BasicBlockBuilder {
    pub instrs: Vec<Instruction>,
    pub label: Option<String>,
    pub patches: Vec<Patch>,
}

impl BasicBlockBuilder {
    /// Every patch points at an instruction of its kind.
    pub open spec fn wf(&self) -> bool {
        patches_fit(patch_views(self.patches@), self.instrs@)
    }

    /// The block's label name, if it has one.
    pub open spec fn label_name(&self) -> Option<Seq<char>> {
        match self.label {
            Some(l) => Some(l@),
            None => None,
        }
    }

    /// A block with no instructions and no label.
    pub fn new() -> (r: Self)
        ensures
            r.instrs@ == Seq::<Instruction>::empty(),
            r.label_name() == None::<Seq<char>>,
            r.patches@ == Seq::<Patch>::empty(),
            r.wf(),
    {
        Self { instrs: vec![], label: None, patches: vec![] }
    }

    /// A block with no instructions and the given label.
    pub fn with_label(label: String) -> (r: Self)
        ensures
            r.instrs@ == Seq::<Instruction>::empty(),
            r.label_name() == Some(label@),
            r.patches@ == Seq::<Patch>::empty(),
            r.wf(),
    {
        Self { instrs: vec![], label: Some(label), patches: vec![] }
    }

    /// Appends an instruction.
    pub fn add_instr(&mut self, instr: Instruction)
        ensures
            final(self).instrs@ == old(self).instrs@.push(instr),
            final(self).label_name() == old(self).label_name(),
            patch_views(final(self).patches@) == patch_views(old(self).patches@),
            old(self).wf() ==> final(self).wf(),
    {
        self.instrs.push(instr);
        proof {
            assert forall|k: int| 0 <= k < patch_views(self.patches@).len() && old(self).wf() implies patch_fits(
                #[trigger] patch_views(self.patches@)[k],
                self.instrs@,
            ) by {
                assert(patch_fits(patch_views(old(self).patches@)[k], old(self).instrs@));
            }
        }
    }

    /// Appends a jump, branch or call whose targets are given by name: the
    /// labels of a jump or branch, the function of a call (the first name).
    pub fn add_patched_instr(&mut self, instr: Instruction, symbols: Vec<String>)
        requires
            instr is Br || instr is Jmp || instr is Call,
            instr is Call ==> symbols@.len() >= 1,
        ensures
            final(self).instrs@ == old(self).instrs@.push(instr),
            final(self).label_name() == old(self).label_name(),
            patch_views(final(self).patches@) == patch_views(old(self).patches@).push(
                (
                    old(self).instrs@.len() as int,
                    if instr is Call {
                        PatchTarget::Function(symbols@[0]@)
                    } else {
                        PatchTarget::Labels(symbols@.map_values(|s: String| s@))
                    },
                ),
            ),
            old(self).wf() ==> final(self).wf(),
    {
        let offset = self.instrs.len();
        match &instr {
            Instruction::Call(_, _, _) => {
                let name = symbols[0].clone();
                self.patches.push(Patch { offset, ty: PatchType::Func(name) });
            },
            _ => {
                self.patches.push(Patch { offset, ty: PatchType::Label(symbols) });
            },
        }
        self.instrs.push(instr);
        proof {
            assert(patch_views(self.patches@) =~= patch_views(old(self).patches@).push(
                patch_view(self.patches@[self.patches@.len() - 1]),
            ));
            assert forall|k: int| 0 <= k < patch_views(self.patches@).len() && old(self).wf() implies patch_fits(
                #[trigger] patch_views(self.patches@)[k],
                self.instrs@,
            ) by {
                if k < old(self).patches@.len() {
                    assert(patch_fits(patch_views(old(self).patches@)[k], old(self).instrs@));
                }
            }
        }
    }

    /// Names the block.
    pub fn label(&mut self, name: String)
        ensures
            final(self).instrs@ == old(self).instrs@,
            final(self).label_name() == Some(name@),
            patch_views(final(self).patches@) == patch_views(old(self).patches@),
            old(self).wf() ==> final(self).wf(),
    {
        self.label = Some(name)
    }

    /// The block has neither instructions nor a label.
    pub fn is_empty(&self) -> (r: bool)
        ensures
            r == (self.instrs@.len() == 0 && self.label_name() is None),
    {
        self.instrs.len() == 0 && self.label.is_none()
    }
}

/// Total number of instructions of a list of blocks.
pub open spec fn blocks_total(blocks: Seq<core::ops::Range<usize>>) -> int
    decreases blocks.len(),
{
    if blocks.len() == 0 {
        0
    } else {
        blocks_total(blocks.drop_last()) + (blocks.last().end - blocks.last().start)
    }
}

/// The name of a label of a program.
pub open spec fn label_name_of(p: ProgramView, l: LabelIdx) -> Seq<char> {
    p.strings[p.labels[l.0 as int].1.0 as int]
}

/// The first label of `names` named `name`.
pub open spec fn find_block_label(p: ProgramView, names: Seq<LabelIdx>, name: Seq<char>) -> Option<
    LabelIdx,
>
    decreases names.len(),
{
    if names.len() == 0 {
        None
    } else {
        match find_block_label(p, names.drop_last(), name) {
            Some(l) => Some(l),
            None => if label_name_of(p, names.last()) == name {
                Some(names.last())
            } else {
                None
            },
        }
    }
}

/// A jump or branch with its targets replaced by the labels named `names`.
pub open spec fn patch_labels(
    instr: Instruction,
    names: Seq<Seq<char>>,
    p: ProgramView,
    block_names: Seq<LabelIdx>,
) -> Instruction {
    match instr {
        Instruction::Jmp(_) => Instruction::Jmp(find_block_label(p, block_names, names[0])->0),
        Instruction::Br(c, _, _) => Instruction::Br(
            c,
            find_block_label(p, block_names, names[0])->0,
            find_block_label(p, block_names, names[1])->0,
        ),
        _ => instr,
    }
}

/// The instructions after resolving every label patch, in order.
pub open spec fn apply_label_patches(
    instrs: Seq<Instruction>,
    patches: Seq<(int, PatchTarget)>,
    p: ProgramView,
    block_names: Seq<LabelIdx>,
) -> Seq<Instruction>
    decreases patches.len(),
{
    if patches.len() == 0 {
        instrs
    } else {
        let prev = apply_label_patches(instrs, patches.drop_last(), p, block_names);
        let last = patches.last();
        match last.1 {
            PatchTarget::Labels(names) => prev.update(last.0, patch_labels(prev[last.0], names, p, block_names)),
            PatchTarget::Function(_) => prev,
        }
    }
}

/// The function patches among `patches`, in order.
pub open spec fn function_patches(patches: Seq<(int, PatchTarget)>) -> Seq<(int, PatchTarget)> {
    patches.filter(|pt: (int, PatchTarget)| pt.1 is Function)
}

/// Every label patch names labels of the function's blocks, enough of them
/// for its instruction.
pub open spec fn label_patches_resolvable(
    patches: Seq<(int, PatchTarget)>,
    instrs: Seq<Instruction>,
    p: ProgramView,
    block_names: Seq<LabelIdx>,
) -> bool {
    forall|k: int|
        0 <= k < patches.len() ==> match (#[trigger] patches[k]).1 {
            PatchTarget::Labels(names) => {
                &&& forall|j: int| 0 <= j < names.len() ==> find_block_label(p, block_names, #[trigger] names[j]) is Some
                &&& instrs[patches[k].0] is Jmp ==> names.len() >= 1
                &&& instrs[patches[k].0] is Br ==> names.len() >= 2
            },
            PatchTarget::Function(_) => true,
        }
}

proof fn lemma_blocks_total_prefix(bl: Seq<core::ops::Range<usize>>, k: int)
    requires
        0 <= k <= bl.len(),
        forall|j: int| 0 <= j < bl.len() ==> (#[trigger] bl[j]).start <= bl[j].end,
    ensures
        0 <= blocks_total(bl.take(k)) <= blocks_total(bl),
    decreases bl.len() - k,
{
    if k < bl.len() {
        lemma_blocks_total_prefix(bl, k + 1);
        assert(bl.take(k + 1).drop_last() =~= bl.take(k));
    } else {
        assert(bl.take(k) =~= bl);
    }
    lemma_blocks_total_nonneg(bl.take(k));
}

proof fn lemma_blocks_total_nonneg(bl: Seq<core::ops::Range<usize>>)
    requires
        forall|j: int| 0 <= j < bl.len() ==> (#[trigger] bl[j]).start <= bl[j].end,
    ensures
        blocks_total(bl) >= 0,
    decreases bl.len(),
{
    if bl.len() > 0 {
        lemma_blocks_total_nonneg(bl.drop_last());
    }
}

proof fn lemma_find_block_label_extend(p: ProgramView, s: Seq<LabelIdx>, name: Seq<char>, m: int)
    requires
        0 <= m < s.len(),
    ensures
        find_block_label(p, s.take(m + 1), name) == match find_block_label(p, s.take(m), name) {
            Some(l) => Some(l),
            None => if label_name_of(p, s[m]) == name {
                Some(s[m])
            } else {
                None
            },
        },
{
    assert(s.take(m + 1).drop_last() =~= s.take(m));
}

proof fn lemma_find_block_label_prefix(p: ProgramView, s: Seq<LabelIdx>, name: Seq<char>, k: int)
    requires
        0 <= k <= s.len(),
        find_block_label(p, s.take(k), name) is Some,
    ensures
        find_block_label(p, s, name) == find_block_label(p, s.take(k), name),
    decreases s.len() - k,
{
    if k < s.len() {
        lemma_find_block_label_extend(p, s, name, k);
        lemma_find_block_label_prefix(p, s, name, k + 1);
    } else {
        assert(s.take(k) =~= s);
    }
}

/// A block named `name` makes the search for that name succeed.
pub proof fn lemma_find_block_label_found(p: ProgramView, names: Seq<LabelIdx>, name: Seq<char>, c: int)
    requires
        0 <= c < names.len(),
        label_name_of(p, names[c]) == name,
    ensures
        find_block_label(p, names, name) is Some,
    decreases names.len(),
{
    if c < names.len() - 1 {
        lemma_find_block_label_found(p, names.drop_last(), name, c);
    }
}

/// The search for a name among labels depends only on the labels' names.
pub proof fn lemma_find_block_label_names(p0: ProgramView, p1: ProgramView, s: Seq<LabelIdx>, name: Seq<char>)
    requires
        forall|k: int| 0 <= k < s.len() ==> label_name_of(p0, #[trigger] s[k]) == label_name_of(p1, s[k]),
    ensures
        find_block_label(p0, s, name) == find_block_label(p1, s, name),
    decreases s.len(),
{
    if s.len() > 0 {
        lemma_find_block_label_names(p0, p1, s.drop_last(), name);
        assert(label_name_of(p0, s[s.len() - 1]) == label_name_of(p1, s[s.len() - 1]));
    }
}

/// The first label of `names` named `name`.
fn find_label(program: &Program, names: &Vec<LabelIdx>, name: &str) -> (r: Option<LabelIdx>)
    requires
        program.wf(),
        forall|k: int| 0 <= k < names@.len() ==> (#[trigger] names@[k]).0 < program@.labels.len(),
    ensures
        r == find_block_label(program@, names@, name@),
{
    let mut m: usize = 0;
    while m < names.len()
        invariant
            program.wf(),
            forall|k: int| 0 <= k < names@.len() ==> (#[trigger] names@[k]).0 < program@.labels.len(),
            m <= names@.len(),
            find_block_label(program@, names@.take(m as int), name@) is None,
        decreases names.len() - m,
    {
        proof {
            lemma_find_block_label_extend(program@, names@, name@, m as int);
        }
        if str_eq(program.get_label_name(names[m]), name) {
            proof {
                lemma_find_block_label_prefix(program@, names@, name@, m + 1);
            }
            return Some(names[m]);
        }
        m = m + 1;
    }
    proof {
        assert(names@.take(names@.len() as int) =~= names@);
    }
    None
}

/// Contiguous blocks start no earlier than the first and end no later than
/// the last.
proof fn lemma_blocks_between(bl: Seq<core::ops::Range<usize>>, k: int)
    requires
        0 <= k < bl.len(),
        forall|j: int| 0 <= j < bl.len() ==> (#[trigger] bl[j]).start <= bl[j].end,
        forall|j: int| 0 <= j < bl.len() - 1 ==> (#[trigger] bl[j]).end == bl[j + 1].start,
    ensures
        bl[0].start <= bl[k].start <= bl.last().end,
    decreases bl.len() - k,
{
    lemma_blocks_before(bl, k);
    if k < bl.len() - 1 {
        lemma_blocks_between(bl, k + 1);
    }
}

proof fn lemma_blocks_before(bl: Seq<core::ops::Range<usize>>, k: int)
    requires
        0 <= k < bl.len(),
        forall|j: int| 0 <= j < bl.len() ==> (#[trigger] bl[j]).start <= bl[j].end,
        forall|j: int| 0 <= j < bl.len() - 1 ==> (#[trigger] bl[j]).end == bl[j + 1].start,
    ensures
        bl[0].start <= bl[k].start,
    decreases k,
{
    if k > 0 {
        lemma_blocks_before(bl, k - 1);
        assert(bl[k - 1].end == bl[k].start);
    }
}

/// Resolving label patches keeps the instruction count and the kind of
/// every instruction.
pub proof fn lemma_apply_label_patches_kinds(
    instrs: Seq<Instruction>,
    patches: Seq<(int, PatchTarget)>,
    p: ProgramView,
    block_names: Seq<LabelIdx>,
)
    requires
        patches_fit(patches, instrs),
    ensures
        apply_label_patches(instrs, patches, p, block_names).len() == instrs.len(),
        forall|k: int| 0 <= k < instrs.len() ==> {
            let r = #[trigger] apply_label_patches(instrs, patches, p, block_names)[k];
            &&& (r is Call <==> instrs[k] is Call)
            &&& (r is Jmp <==> instrs[k] is Jmp)
            &&& (r is Br <==> instrs[k] is Br)
            &&& (!(instrs[k] is Jmp) && !(instrs[k] is Br) ==> r == instrs[k])
        },
    decreases patches.len(),
{
    if patches.len() > 0 {
        assert(patches_fit(patches.drop_last(), instrs)) by {
            assert forall|k: int| 0 <= k < patches.drop_last().len() implies patch_fits(#[trigger] patches.drop_last()[k], instrs) by {
                assert(patches.drop_last()[k] == patches[k]);
            }
        }
        lemma_apply_label_patches_kinds(instrs, patches.drop_last(), p, block_names);
        assert(patch_fits(patches[patches.len() - 1], instrs));
    }
}

/// Patches at one offset all resolve the same thing.
pub open spec fn patches_consistent(ps: Seq<(int, PatchTarget)>) -> bool {
    forall|a: int, b: int|
        0 <= a < ps.len() && 0 <= b < ps.len() && (#[trigger] ps[a]).0 == (#[trigger] ps[b]).0 ==> ps[a].1 == ps[b].1
}

proof fn lemma_patches_drop_last(ps: Seq<(int, PatchTarget)>, instrs: Seq<Instruction>)
    requires
        ps.len() > 0,
        patches_fit(ps, instrs),
        patches_consistent(ps),
    ensures
        patches_fit(ps.drop_last(), instrs),
        patches_consistent(ps.drop_last()),
        patch_fits(ps.last(), instrs),
{
    let q = ps.drop_last();
    assert forall|k: int| 0 <= k < q.len() implies patch_fits(#[trigger] q[k], instrs) by {
        assert(q[k] == ps[k]);
    }
    assert forall|a: int, b: int|
        0 <= a < q.len() && 0 <= b < q.len() && (#[trigger] q[a]).0 == (#[trigger] q[b]).0 implies q[a].1 == q[b].1 by {
        assert(q[a] == ps[a]);
        assert(q[b] == ps[b]);
    }
    assert(patch_fits(ps[ps.len() - 1], instrs));
}

/// Resolving label patches changes an instruction only where a label patch
/// points, and there as that patch says.
pub proof fn lemma_apply_label_patches_at(
    instrs: Seq<Instruction>,
    ps: Seq<(int, PatchTarget)>,
    p: ProgramView,
    bn: Seq<LabelIdx>,
    o: int,
)
    requires
        patches_fit(ps, instrs),
        patches_consistent(ps),
        0 <= o < instrs.len(),
    ensures
        (forall|m: int| 0 <= m < ps.len() ==> (#[trigger] ps[m]).0 != o || ps[m].1 is Function)
            ==> apply_label_patches(instrs, ps, p, bn)[o] == instrs[o],
        forall|m: int|
            0 <= m < ps.len() && (#[trigger] ps[m]).0 == o ==> (ps[m].1 matches PatchTarget::Labels(n)
                ==> apply_label_patches(instrs, ps, p, bn)[o] == patch_labels(instrs[o], n, p, bn)),
    decreases ps.len(),
{
    if ps.len() > 0 {
        let q = ps.drop_last();
        lemma_patches_drop_last(ps, instrs);
        lemma_apply_label_patches_at(instrs, q, p, bn, o);
        lemma_apply_label_patches_kinds(instrs, q, p, bn);
        let prev = apply_label_patches(instrs, q, p, bn);
        let r = apply_label_patches(instrs, ps, p, bn);
        let last = ps.last();
        let z = ps.len() - 1;
        assert(ps[z] == last);
        assert forall|m: int| 0 <= m < q.len() implies #[trigger] q[m] == ps[m] by {}
        if last.0 != o {
            assert(r[o] == prev[o]);
            assert forall|m: int|
                0 <= m < ps.len() && (#[trigger] ps[m]).0 == o implies (ps[m].1 matches PatchTarget::Labels(n)
                    ==> r[o] == patch_labels(instrs[o], n, p, bn)) by {
                assert(m < z);
                assert(q[m] == ps[m]);
            }
            if forall|m: int| 0 <= m < ps.len() ==> (#[trigger] ps[m]).0 != o || ps[m].1 is Function {
                assert forall|m: int| 0 <= m < q.len() implies (#[trigger] q[m]).0 != o || q[m].1 is Function by {
                    assert(q[m] == ps[m]);
                }
            }
        } else {
            match last.1 {
                PatchTarget::Labels(n) => {
                    assert(r[o] == patch_labels(prev[o], n, p, bn));
                    if exists|m: int| 0 <= m < q.len() && (#[trigger] q[m]).0 == o && q[m].1 is Labels {
                        let m = choose|m: int| 0 <= m < q.len() && (#[trigger] q[m]).0 == o && q[m].1 is Labels;
                        assert(ps[m].1 == last.1);
                        assert(prev[o] == patch_labels(instrs[o], n, p, bn));
                    } else {
                        assert(prev[o] == instrs[o]);
                    }
                    assert(r[o] == patch_labels(instrs[o], n, p, bn));
                    assert forall|m: int|
                        0 <= m < ps.len() && (#[trigger] ps[m]).0 == o implies (ps[m].1 matches PatchTarget::Labels(nm)
                            ==> r[o] == patch_labels(instrs[o], nm, p, bn)) by {
                        assert(ps[m].1 == ps[z].1);
                    }
                },
                PatchTarget::Function(_) => {
                    assert(r[o] == prev[o]);
                    assert forall|m: int| 0 <= m < q.len() implies (#[trigger] q[m]).0 != o || q[m].1 is Function by {
                        if q[m].0 == o {
                            assert(ps[m].1 == ps[z].1);
                        }
                    }
                    assert(prev[o] == instrs[o]);
                    assert forall|m: int|
                        0 <= m < ps.len() && (#[trigger] ps[m]).0 == o implies (ps[m].1 matches PatchTarget::Labels(nm)
                            ==> r[o] == patch_labels(instrs[o], nm, p, bn)) by {
                        assert(ps[m].1 == ps[z].1);
                    }
                },
            }
        }
    }
}

/// Resolving function patches changes only calls, each as a patch at its
/// offset says.
pub proof fn lemma_apply_function_patches_at(
    instrs: Seq<Instruction>,
    ps: Seq<(int, PatchTarget)>,
    p: ProgramView,
    o: int,
)
    requires
        patches_fit(ps, instrs),
        patches_consistent(ps),
        0 <= o < instrs.len(),
    ensures
        apply_function_patches(instrs, ps, p).len() == instrs.len(),
        (forall|m: int| 0 <= m < ps.len() ==> (#[trigger] ps[m]).0 != o || ps[m].1 is Labels)
            ==> apply_function_patches(instrs, ps, p)[o] == instrs[o],
        !(instrs[o] is Call) ==> apply_function_patches(instrs, ps, p)[o] == instrs[o],
        forall|m: int|
            0 <= m < ps.len() && (#[trigger] ps[m]).0 == o ==> (ps[m].1 matches PatchTarget::Function(name)
                ==> apply_function_patches(instrs, ps, p)[o] == set_callee(
                instrs[o],
                FunctionIdx(first_function_named(p, name) as u32),
            )),
    decreases ps.len(),
{
    if ps.len() > 0 {
        let q = ps.drop_last();
        lemma_patches_drop_last(ps, instrs);
        lemma_apply_function_patches_at(instrs, q, p, o);
        let prev = apply_function_patches(instrs, q, p);
        let r = apply_function_patches(instrs, ps, p);
        let last = ps.last();
        let z = ps.len() - 1;
        assert(ps[z] == last);
        assert forall|m: int| 0 <= m < q.len() implies #[trigger] q[m] == ps[m] by {}
        if !(instrs[o] is Call) {
            assert forall|m: int| 0 <= m < q.len() implies (#[trigger] q[m]).0 != o || q[m].1 is Labels by {
                assert(patch_fits(q[m], instrs));
            }
        }
        if last.0 != o {
            lemma_apply_function_patches_at(instrs, q, p, last.0);
            assert(r[o] == prev[o]);
            assert forall|m: int|
                0 <= m < ps.len() && (#[trigger] ps[m]).0 == o implies (ps[m].1 matches PatchTarget::Function(name)
                    ==> r[o] == set_callee(instrs[o], FunctionIdx(first_function_named(p, name) as u32))) by {
                assert(m < z);
                assert(q[m] == ps[m]);
            }
            if forall|m: int| 0 <= m < ps.len() ==> (#[trigger] ps[m]).0 != o || ps[m].1 is Labels {
                assert forall|m: int| 0 <= m < q.len() implies (#[trigger] q[m]).0 != o || q[m].1 is Labels by {
                    assert(q[m] == ps[m]);
                }
            }
        } else {
            match last.1 {
                PatchTarget::Function(name) => {
                    let f = FunctionIdx(first_function_named(p, name) as u32);
                    assert(r[o] == set_callee(prev[o], f));
                    if exists|m: int| 0 <= m < q.len() && (#[trigger] q[m]).0 == o && q[m].1 is Function {
                        let m = choose|m: int| 0 <= m < q.len() && (#[trigger] q[m]).0 == o && q[m].1 is Function;
                        assert(ps[m].1 == last.1);
                        assert(prev[o] == set_callee(instrs[o], f));
                    } else {
                        assert(prev[o] == instrs[o]);
                    }
                    assert(r[o] == set_callee(instrs[o], f));
                    assert(patch_fits(ps[z], instrs));
                    assert forall|m: int|
                        0 <= m < ps.len() && (#[trigger] ps[m]).0 == o implies (ps[m].1 matches PatchTarget::Function(nm)
                            ==> r[o] == set_callee(instrs[o], FunctionIdx(first_function_named(p, nm) as u32))) by {
                        assert(ps[m].1 == ps[z].1);
                    }
                },
                PatchTarget::Labels(_) => {
                    assert(r[o] == prev[o]);
                    assert forall|m: int| 0 <= m < q.len() implies (#[trigger] q[m]).0 != o || q[m].1 is Labels by {
                        if q[m].0 == o {
                            assert(ps[m].1 == ps[z].1);
                        }
                    }
                    assert(prev[o] == instrs[o]);
                    assert forall|m: int|
                        0 <= m < ps.len() && (#[trigger] ps[m]).0 == o implies (ps[m].1 matches PatchTarget::Function(nm)
                            ==> r[o] == set_callee(instrs[o], FunctionIdx(first_function_named(p, nm) as u32))) by {
                        assert(ps[m].1 == ps[z].1);
                    }
                },
            }
        }
    }
}

/// `i` is a function of the program named `name`.
pub open spec fn function_named(p: ProgramView, name: Seq<char>, i: int) -> bool {
    0 <= i < p.functions.len() && p.strings[p.functions[i].name.0 as int] == name
}

/// The first function of the program named `name`.
pub open spec fn first_function_named(p: ProgramView, name: Seq<char>) -> int {
    choose|i: int| function_named(p, name, i) && forall|j: int| 0 <= j < i ==> !function_named(p, name, j)
}

/// A call with its callee replaced.
pub open spec fn set_callee(instr: Instruction, f: FunctionIdx) -> Instruction {
    match instr {
        Instruction::Call(dest, _, args) => Instruction::Call(dest, f, args),
        _ => instr,
    }
}

/// The instructions after resolving every function patch, in order, to the
/// first function of its name.
pub open spec fn apply_function_patches(
    instrs: Seq<Instruction>,
    patches: Seq<(int, PatchTarget)>,
    p: ProgramView,
) -> Seq<Instruction>
    decreases patches.len(),
{
    if patches.len() == 0 {
        instrs
    } else {
        let prev = apply_function_patches(instrs, patches.drop_last(), p);
        let last = patches.last();
        match last.1 {
            PatchTarget::Function(name) => prev.update(
                last.0,
                set_callee(prev[last.0], FunctionIdx(first_function_named(p, name) as u32)),
            ),
            PatchTarget::Labels(_) => prev,
        }
    }
}

/// The first function of a name is the one before which no function has it.
proof fn lemma_first_function_named(p: ProgramView, name: Seq<char>, f: int)
    requires
        function_named(p, name, f),
        forall|j: int| 0 <= j < f ==> !function_named(p, name, j),
    ensures
        first_function_named(p, name) == f,
{
    let g = first_function_named(p, name);
    assert(function_named(p, name, g) && forall|j: int| 0 <= j < g ==> !function_named(p, name, j));
    if g < f {
        assert(!function_named(p, name, g));
    }
    if f < g {
        assert(!function_named(p, name, f));
    }
}

/// The first function of the program with the given name.
fn resolve_function(program: &Program, name: &str) -> (r: FunctionIdx)
    requires
        program.wf(),
        exists|i: int| function_named(program@, name@, i),
    ensures
        r.0 == first_function_named(program@, name@),
{
    let found = program.find_function_symbol(name);
    proof {
        let w = choose|i: int| function_named(program@, name@, i);
        if found is None {
            assert(program@.strings[(program@.functions[w]).name.0 as int] != name@);
        }
    }
    let callee = found.unwrap();
    proof {
        lemma_first_function_named(program@, name@, callee.0 as int);
    }
    callee
}

/// Every function patch names a function of the program.
pub open spec fn function_patches_resolvable(patches: Seq<(int, PatchTarget)>, p: ProgramView) -> bool {
    forall|k: int|
        0 <= k < patches.len() ==> match (#[trigger] patches[k]).1 {
            PatchTarget::Function(name) => exists|i: int| function_named(p, name, i),
            PatchTarget::Labels(_) => true,
        }
}

/// Resolving function patches keeps the instruction count and the kind of
/// every instruction.
pub proof fn lemma_apply_function_patches_len(
    instrs: Seq<Instruction>,
    patches: Seq<(int, PatchTarget)>,
    p: ProgramView,
)
    requires
        patches_fit(patches, instrs),
    ensures
        apply_function_patches(instrs, patches, p).len() == instrs.len(),
    decreases patches.len(),
{
    if patches.len() > 0 {
        assert(patches_fit(patches.drop_last(), instrs)) by {
            assert forall|k: int| 0 <= k < patches.drop_last().len() implies patch_fits(#[trigger] patches.drop_last()[k], instrs) by {
                assert(patches.drop_last()[k] == patches[k]);
            }
        }
        lemma_apply_function_patches_len(instrs, patches.drop_last(), p);
        assert(patch_fits(patches[patches.len() - 1], instrs));
    }
}

/// Builds a program function by function.
pub struct ProgramBuilder {
    pub program: Program,
    pub patches: Vec<Patch>,
}

/// Builds one function out of basic blocks.
pub struct FunctionBuilder<'program> {
    pub name: String,
    pub blocks: Vec<core::ops::Range<usize>>,
    pub block_names: Vec<LabelIdx>,
    pub block_name_id: usize,
    pub program_builder: &'program mut ProgramBuilder,
    pub patches: Vec<Patch>,
    pub parameters: Vec<Variable>,
    pub return_type: Option<Type>,
}

impl ProgramBuilder {
    /// The program is well formed and every pending patch points at a call.
    pub open spec fn wf(&self) -> bool {
        &&& self.program.wf()
        &&& patches_fit(patch_views(self.patches@), self.program.instructions@)
        &&& forall|k: int| 0 <= k < self.patches@.len() ==> (#[trigger] patch_views(self.patches@)[k]).1 is Function
    }

    /// A builder of an empty program.
    pub fn new() -> (r: Self)
        ensures
            r.program.instructions@ == Seq::<Instruction>::empty(),
            r.program@.functions == Seq::<FunctionView>::empty(),
            r.program@.strings == Seq::<Seq<char>>::empty(),
            r.program@.labels == Seq::<(usize, StringIdx)>::empty(),
            r.patches@ == Seq::<Patch>::empty(),
            r.wf(),
    {
        ProgramBuilder { program: Program::new(), patches: Vec::new() }
    }

    /// Starts a function with the given name.
    pub fn new_function(&mut self, name: String) -> (r: FunctionBuilder<'_>)
        ensures
            r.name@ == name@,
            r.blocks@ == Seq::<core::ops::Range<usize>>::empty(),
            r.block_names@ == Seq::<LabelIdx>::empty(),
            r.block_name_id == 0,
            *r.program_builder == *old(self),
            *final(self) == *final(r.program_builder),
            r.patches@ == Seq::<Patch>::empty(),
            r.parameters@ == Seq::<Variable>::empty(),
            r.return_type is None,
            old(self).wf() ==> r.wf(),
    {
        let r = FunctionBuilder {
            name,
            blocks: Vec::new(),
            block_names: Vec::new(),
            block_name_id: 0,
            program_builder: self,
            patches: vec![],
            parameters: vec![],
            return_type: None,
        };
        proof {
            assert(blocks_total(r.blocks@) == 0);
        }
        r
    }

    /// Resolves every call to the first function of its name and hands out
    /// the program.
    #[verifier::rlimit(40)]
    pub fn finish(self) -> (r: Program)
        requires
            self.wf(),
            function_patches_resolvable(patch_views(self.patches@), self.program@),
        ensures
            r.instructions@ == apply_function_patches(
                self.program.instructions@,
                patch_views(self.patches@),
                self.program@,
            ),
            r@ == self.program@,
            r.wf(),
    {
        let ProgramBuilder { program: mut program, patches } = self;
        let ghost p0 = program;
        let ghost pv = patch_views(patches@);
        let mut q: usize = 0;
        proof {
            assert(pv.take(0) =~= Seq::<(int, PatchTarget)>::empty());
        }
        while q < patches.len()
            invariant
                q <= patches@.len(),
                pv == patch_views(patches@),
                patches_fit(pv, p0.instructions@),
                forall|k: int| 0 <= k < pv.len() ==> (#[trigger] pv[k]).1 is Function,
                function_patches_resolvable(pv, p0@),
                p0.wf(),
                program.functions == p0.functions,
                program.strings == p0.strings,
                program.labels == p0.labels,
                program.instructions@.len() == p0.instructions@.len(),
                program.instructions@ == apply_function_patches(p0.instructions@, pv.take(q as int), p0@),
            decreases patches.len() - q,
        {
            let offset = patches[q].offset;
            proof {
                assert(pv[q as int] == patch_view(patches@[q as int]));
                assert(patch_fits(pv[q as int], p0.instructions@));
                assert(patches_fit(pv.take(q as int), p0.instructions@)) by {
                    assert forall|k: int| 0 <= k < pv.take(q as int).len() implies patch_fits(#[trigger] pv.take(q as int)[k], p0.instructions@) by {
                        assert(pv.take(q as int)[k] == pv[k]);
                    }
                }
                lemma_apply_function_patches_len(p0.instructions@, pv.take(q as int), p0@);
                assert(pv.take(q + 1).drop_last() =~= pv.take(q as int));
                assert(pv.take(q + 1).last() == pv[q as int]);
            }
            match &patches[q].ty {
                PatchType::Func(name) => {
                    proof {
                        assert(program@ == p0@);
                        assert(program.wf());
                    }
                    let callee = resolve_function(&program, name.as_str());
                    let ghost cur = program.instructions@;
                    let mut taken = Instruction::Nop;
                    std::mem::swap(&mut taken, &mut program.instructions[offset]);
                    let resolved = match taken {
                        Instruction::Call(dest, _, args) => Instruction::Call(dest, callee, args),
                        other => other,
                    };
                    program.instructions[offset] = resolved;
                    proof {
                        assert(program.instructions@ =~= cur.update(offset as int, set_callee(cur[offset as int], callee)));
                    }
                },
                PatchType::Label(_) => {},
            }
            q = q + 1;
        }
        proof {
            assert(pv.take(patches@.len() as int) =~= pv);
            assert(program@ == p0@);
        }
        program
    }
}

impl<'program> FunctionBuilder<'program> {
    /// The blocks sealed so far are the last instructions of the program,
    /// each behind its label, and the patches point at instructions of their
    /// kind.
    pub open spec fn wf(&self) -> bool {
        let p = self.program_builder.program;
        let n = p.instructions@.len() as int;
        let bl = self.blocks@;
        &&& self.program_builder.wf()
        &&& bl.len() == self.block_names@.len()
        &&& 0 <= blocks_total(bl) <= n
        &&& forall|k: int| 0 <= k < bl.len() ==> (#[trigger] bl[k]).start <= bl[k].end
        &&& forall|k: int| 0 <= k < bl.len() - 1 ==> (#[trigger] bl[k]).end == bl[k + 1].start
        &&& bl.len() > 0 ==> bl.last().end == n
        &&& bl.len() > 0 ==> bl[0].start == n - blocks_total(bl)
        &&& forall|k: int|
            0 <= k < bl.len() ==> (#[trigger] self.block_names@[k]).0 < p@.labels.len()
                && p@.labels[self.block_names@[k].0 as int].0 == bl[k].start
        &&& patches_fit(patch_views(self.patches@), p.instructions@)
    }

    /// Appends parameters.
    pub fn parameters(&mut self, parameters: &[Variable])
        ensures
            final(self).parameters@ == old(self).parameters@ + parameters@,
            final(self).name == old(self).name,
            final(self).blocks == old(self).blocks,
            final(self).block_names == old(self).block_names,
            final(self).block_name_id == old(self).block_name_id,
            *final(self).program_builder == *old(self).program_builder,
            *final(final(self).program_builder) == *final(old(self).program_builder),
            final(self).patches == old(self).patches,
            final(self).return_type == old(self).return_type,
    {
        let mut i: usize = 0;
        let ghost p0 = self.parameters@;
        while i < parameters.len()
            invariant
                i <= parameters@.len(),
                self.parameters@ == p0 + parameters@.subrange(0, i as int),
                self.name == old(self).name,
                self.blocks == old(self).blocks,
                self.block_names == old(self).block_names,
                self.block_name_id == old(self).block_name_id,
                *self.program_builder == *old(self).program_builder,
                *final(self.program_builder) == *final(old(self).program_builder),
                self.patches == old(self).patches,
                self.return_type == old(self).return_type,
            decreases parameters.len() - i,
        {
            self.parameters.push(parameters[i]);
            proof {
                assert(p0 + parameters@.subrange(0, i + 1) =~= (p0 + parameters@.subrange(0, i as int)).push(parameters@[i as int]));
            }
            i = i + 1;
        }
        proof {
            assert(parameters@.subrange(0, parameters@.len() as int) =~= parameters@);
        }
    }

    /// Sets the return type.
    pub fn return_type(&mut self, ty: Type)
        ensures
            final(self).return_type == Some(ty),
            final(self).parameters == old(self).parameters,
            final(self).name == old(self).name,
            final(self).blocks == old(self).blocks,
            final(self).block_names == old(self).block_names,
            final(self).block_name_id == old(self).block_name_id,
            *final(self).program_builder == *old(self).program_builder,
            *final(final(self).program_builder) == *final(old(self).program_builder),
            final(self).patches == old(self).patches,
    {
        self.return_type = Some(ty);
    }

    /// The instructions of a sealed block, to change in place.
    pub fn block_mut(&mut self, idx: BasicBlockIdx) -> (r: &mut [Instruction])
        requires
            idx.0 < old(self).blocks@.len(),
            old(self).blocks@[idx.0 as int].start <= old(self).blocks@[idx.0 as int].end
                <= old(self).program_builder.program.instructions@.len(),
        ensures
            ({
                let i0 = old(self).program_builder.program.instructions@;
                let b = old(self).blocks@[idx.0 as int];
                &&& r@ == i0.subrange(b.start as int, b.end as int)
                &&& final(self).program_builder.program.instructions@ == i0.subrange(0, b.start as int) + final(r)@
                    + i0.subrange(b.end as int, i0.len() as int)
            }),
            final(self).program_builder.program@ == old(self).program_builder.program@,
            final(self).program_builder.patches == old(self).program_builder.patches,
            final(self).name == old(self).name,
            final(self).blocks == old(self).blocks,
            final(self).block_names == old(self).block_names,
            final(self).block_name_id == old(self).block_name_id,
            final(self).patches == old(self).patches,
            final(self).parameters == old(self).parameters,
            final(self).return_type == old(self).return_type,
            *final(final(self).program_builder) == *final(old(self).program_builder),
    {
        let start = self.blocks[idx.0].start;
        let end = self.blocks[idx.0].end;
        let all = self.program_builder.program.instructions.as_mut_slice();
        let (_before, rest) = all.split_at_mut(start);
        let (block, _after) = rest.split_at_mut(end - start);
        block
    }

    /// The last instruction of a sealed block, to change in place.
    pub fn block_tail_mut(&mut self, idx: BasicBlockIdx) -> (r: &mut Instruction)
        requires
            idx.0 < old(self).blocks@.len(),
            old(self).blocks@[idx.0 as int].start < old(self).blocks@[idx.0 as int].end
                <= old(self).program_builder.program.instructions@.len(),
        ensures
            ({
                let i0 = old(self).program_builder.program.instructions@;
                let last = old(self).blocks@[idx.0 as int].end - 1;
                &&& *r == i0[last]
                &&& final(self).program_builder.program.instructions@ == i0.update(last, *final(r))
            }),
            final(self).program_builder.program@ == old(self).program_builder.program@,
            final(self).program_builder.patches == old(self).program_builder.patches,
            final(self).name == old(self).name,
            final(self).blocks == old(self).blocks,
            final(self).block_names == old(self).block_names,
            final(self).block_name_id == old(self).block_name_id,
            final(self).patches == old(self).patches,
            final(self).parameters == old(self).parameters,
            final(self).return_type == old(self).return_type,
            *final(final(self).program_builder) == *final(old(self).program_builder),
    {
        self.block_mut(idx).last_mut().unwrap()
    }

    /// The label of a sealed block.
    pub fn block_label(&self, idx: BasicBlockIdx) -> (r: LabelIdx)
        requires
            idx.0 < self.block_names@.len(),
        ensures
            r == self.block_names@[idx.0 as int],
    {
        self.block_names[idx.0]
    }

    /// Gives a sealed block its label (the given one, or a fresh `L<n>`),
    /// appends its instructions to the program and records its patches.
    #[verifier::loop_isolation(false)]
    pub fn seal_block(&mut self, block_builder: BasicBlockBuilder) -> (r: BasicBlockIdx)
        requires
            old(self).program_builder.program@.strings.len() < u32::MAX,
            old(self).program_builder.program@.labels.len() < u32::MAX,
            old(self).program_builder.program.instructions@.len() + block_builder.instrs@.len() <= usize::MAX,
            block_builder.label is None ==> old(self).block_name_id < usize::MAX,
            block_builder.wf(),
        ensures
            r.0 == old(self).blocks@.len(),
            ({
                let p0 = old(self).program_builder.program;
                let p1 = final(self).program_builder.program;
                let start = p0.instructions@.len();
                &&& p1.instructions@ == p0.instructions@ + block_builder.instrs@
                &&& p1@.functions == p0@.functions
                &&& p1@.strings == p0@.strings.push(
                    match block_builder.label {
                        Some(l) => l@,
                        None => seq!['L'] + decimal(old(self).block_name_id as nat),
                    },
                )
                &&& p1@.labels == p0@.labels.push((start as usize, StringIdx(p0@.strings.len() as u32)))
                &&& final(self).blocks@ == old(self).blocks@.push(start as usize..(start + block_builder.instrs@.len()) as usize)
                &&& final(self).block_names@ == old(self).block_names@.push(LabelIdx(p0@.labels.len() as u32))
                &&& patch_views(final(self).patches@) == patch_views(old(self).patches@) + shift_patches(
                    patch_views(block_builder.patches@),
                    start as int,
                )
            }),
            final(self).block_name_id == old(self).block_name_id + if block_builder.label is None {
                1int
            } else {
                0int
            },
            final(self).program_builder.patches == old(self).program_builder.patches,
            final(self).parameters == old(self).parameters,
            final(self).name == old(self).name,
            final(self).return_type == old(self).return_type,
            *final(final(self).program_builder) == *final(old(self).program_builder),
            old(self).wf() ==> final(self).wf(),
    {
        let BasicBlockBuilder { instrs: mut instrs, label, patches: mut bb_patches } = block_builder;
        let label_name = match label {
            Some(l) => l,
            None => {
                proof {
                    reveal_strlit("L");
                }
                let mut default_label_name = "L".to_owned();
                let digits = decimal_string(self.block_name_id as u64);
                default_label_name.append(digits.as_str());
                self.block_name_id = self.block_name_id + 1;
                default_label_name
            },
        };
        let ghost p0 = self.program_builder.program;
        let ghost fb0 = *self;
        let label_idx = self.program_builder.program.add_label(label_name);
        let start = self.program_builder.program.instructions.len();
        let len = instrs.len();
        self.blocks.push(start..start + len);
        let block_idx = BasicBlockIdx(self.blocks.len() - 1);
        self.block_names.push(label_idx);
        self.program_builder.program.instructions.append(&mut instrs);
        let ghost bp = patch_views(block_builder.patches@);
        let ghost pv0 = patch_views(old(self).patches@);
        let mut consumed: usize = 0;
        let n_patches = bb_patches.len();
        let ghost fb_mid = *self;
        proof {
            assert(bp.skip(0) =~= bp);
            assert(bp.take(0) =~= Seq::<(int, PatchTarget)>::empty());
            assert(pv0 + shift_patches(bp.take(0), start as int) =~= pv0);
        }
        while bb_patches.len() > 0
            invariant
                self.name == fb_mid.name,
                self.blocks == fb_mid.blocks,
                self.block_names == fb_mid.block_names,
                self.block_name_id == fb_mid.block_name_id,
                *self.program_builder == *fb_mid.program_builder,
                *final(self.program_builder) == *final(fb_mid.program_builder),
                self.parameters == fb_mid.parameters,
                self.return_type == fb_mid.return_type,
                consumed <= bp.len(),
                bp.len() == block_builder.patches@.len(),
                block_builder.patches@.len() == n_patches,
                patch_views(bb_patches@) == bp.skip(consumed as int),
                patch_views(self.patches@) == pv0 + shift_patches(bp.take(consumed as int), start as int),
                forall|k: int| 0 <= k < bp.len() ==> 0 <= (#[trigger] bp[k]).0 < len,
                start + len <= usize::MAX,
            decreases bb_patches.len(),
        {
            proof {
                assert(patch_views(bb_patches@).len() == bb_patches@.len());
                assert(consumed < bp.len());
                assert(patch_views(bb_patches@)[0] == patch_view(bb_patches@[0]));
            }
            let ghost old_bb = bb_patches@;
            let mut patch = bb_patches.remove(0);
            proof {
                assert(bp.skip(consumed as int)[0] == patch_view(patch));
                assert(patch_view(patch) == bp[consumed as int]);
            }
            let ghost pv_before = patch_views(self.patches@);
            patch.offset = patch.offset + start;
            self.patches.push(patch);
            proof {
                assert(patch_views(self.patches@) =~= pv_before.push((bp[consumed as int].0 + start, bp[consumed as int].1)));
                assert forall|k: int| 0 <= k < bp.len() - consumed - 1 implies patch_views(bb_patches@)[k] == bp.skip(consumed + 1)[k] by {
                    assert(bb_patches@[k] == old_bb[k + 1]);
                    assert(patch_views(old_bb)[k + 1] == bp.skip(consumed as int)[k + 1]);
                }
                assert(patch_views(bb_patches@) =~= bp.skip(consumed + 1));
                assert(shift_patches(bp.take(consumed + 1), start as int) =~= shift_patches(bp.take(consumed as int), start as int).push((bp[consumed as int].0 + start, bp[consumed as int].1)));
                assert(patch_views(self.patches@) =~= pv0 + shift_patches(bp.take(consumed + 1), start as int));
            }
            consumed = consumed + 1;
        }
        proof {
            assert(consumed == bp.len());
            assert(bp.take(bp.len() as int) =~= bp);
            assert(self.program_builder.program.instructions@ == p0.instructions@ + block_builder.instrs@);
            assert(self.program_builder.program@.functions == p0@.functions);
            assert(label_name@ == match block_builder.label {
                Some(l) => l@,
                None => seq!['L'] + decimal(old(self).block_name_id as nat),
            });
            assert(self.program_builder.program@.strings == p0@.strings.push(label_name@));
            assert(self.program_builder.program@.labels == p0@.labels.push((start, StringIdx(p0@.strings.len() as u32))));
            assert(self.blocks@ == old(self).blocks@.push(start..(start + len) as usize));
            assert(self.block_names@ == old(self).block_names@.push(LabelIdx(p0@.labels.len() as u32)));
            let p1 = self.program_builder.program;
            let n0 = p0.instructions@.len() as int;
            assert(p1.instructions@ == p0.instructions@ + block_builder.instrs@);
            assert(forall|k: int| 0 <= k < n0 ==> p1.instructions@[k] == p0.instructions@[k]);
            assert(self.blocks@.drop_last() == old(self).blocks@);
            if old(self).wf() {
                let bl = self.blocks@;
                assert(blocks_total(bl) == blocks_total(old(self).blocks@) + len);
                assert(program_view_wf(p1@, p1.instructions@.len())) by {
                    assert forall|k: int| 0 <= k < p1@.labels.len() implies (#[trigger] p1@.labels[k]).1.0 < p1@.strings.len() && p1@.labels[k].0 <= p1.instructions@.len() by {
                        if k < p0@.labels.len() {
                            assert(p1@.labels[k] == p0@.labels[k]);
                        }
                    }
                    assert forall|k: int| 0 <= k < p1@.functions.len() implies {
                        let f = #[trigger] p1@.functions[k];
                        &&& 0 <= f.start <= f.end <= p1.instructions@.len()
                        &&& f.name.0 < p1@.strings.len()
                        &&& forall|j: int|
                            0 <= j < f.labels.len() ==> {
                                let l = #[trigger] f.labels[j];
                                &&& l.0 < p1@.labels.len()
                                &&& f.start <= p1@.labels[l.0 as int].0 <= f.end
                            }
                    } by {
                        let f = p1@.functions[k];
                        assert(f == p0@.functions[k]);
                        assert forall|j: int| 0 <= j < f.labels.len() implies {
                                let l = #[trigger] f.labels[j];
                                &&& l.0 < p1@.labels.len()
                                &&& f.start <= p1@.labels[l.0 as int].0 <= f.end
                            } by {
                            let l = f.labels[j];
                            assert(p1@.labels[l.0 as int] == p0@.labels[l.0 as int]);
                        }
                    }
                }
                assert(patches_fit(patch_views(self.program_builder.patches@), p1.instructions@)) by {
                    assert forall|k: int| 0 <= k < patch_views(self.program_builder.patches@).len() implies patch_fits(#[trigger] patch_views(self.program_builder.patches@)[k], p1.instructions@) by {
                        assert(patch_fits(patch_views(old(self).program_builder.patches@)[k], p0.instructions@));
                    }
                }
                assert forall|k: int| 0 <= k < bl.len() implies (#[trigger] self.block_names@[k]).0 < p1@.labels.len()
                    && p1@.labels[self.block_names@[k].0 as int].0 == bl[k].start by {
                    if k < bl.len() - 1 {
                        assert(self.block_names@[k] == old(self).block_names@[k]);
                        assert(p1@.labels[self.block_names@[k].0 as int] == p0@.labels[self.block_names@[k].0 as int]);
                    }
                }
                assert forall|k: int| 0 <= k < bl.len() - 1 implies (#[trigger] bl[k]).end == bl[k + 1].start by {
                    if k < bl.len() - 2 {
                        assert(old(self).blocks@[k].end == old(self).blocks@[k + 1].start);
                    }
                }
                assert(patches_fit(patch_views(self.patches@), p1.instructions@)) by {
                    assert forall|k: int| 0 <= k < patch_views(self.patches@).len() implies patch_fits(#[trigger] patch_views(self.patches@)[k], p1.instructions@) by {
                        if k < pv0.len() {
                            assert(patch_fits(pv0[k], p0.instructions@));
                        } else {
                            let m = k - pv0.len();
                            assert(patch_fits(bp[m], block_builder.instrs@));
                            assert(p1.instructions@[bp[m].0 + start] == block_builder.instrs@[bp[m].0]);
                        }
                    }
                }
            }
        }
        block_idx
    }

    /// Ends the function: records it in the program (its instructions are
    /// those of its blocks, its labels those of its blocks), resolves the
    /// jumps and branches of its blocks to the labels of its blocks by name
    /// (the first block with the name), and hands the calls to the program
    /// builder.
    #[verifier::loop_isolation(false)]
    pub fn finish(self)
        requires
            self.wf(),
            old(self.program_builder).program@.strings.len() < u32::MAX,
            old(self.program_builder).program@.functions.len() < u32::MAX,
            label_patches_resolvable(
                patch_views(self.patches@),
                old(self.program_builder).program.instructions@,
                old(self.program_builder).program@,
                self.block_names@,
            ),
        ensures
            ({
                let p0 = old(self.program_builder).program;
                let p1 = final(self.program_builder).program;
                let n = p0.instructions@.len() as int;
                &&& p1.instructions@ == apply_label_patches(
                    p0.instructions@,
                    patch_views(self.patches@),
                    p0@,
                    self.block_names@,
                )
                &&& p1@.strings == p0@.strings.push(self.name@)
                &&& p1@.labels == p0@.labels
                &&& p1@.functions == p0@.functions.push(
                    FunctionView {
                        start: n - blocks_total(self.blocks@),
                        end: n,
                        name: StringIdx(p0@.strings.len() as u32),
                        parameters: self.parameters@,
                        labels: self.block_names@,
                        return_type: self.return_type,
                    },
                )
                &&& patch_views(final(self.program_builder).patches@) == patch_views(
                    old(self.program_builder).patches@,
                ) + function_patches(patch_views(self.patches@))
            }),
            final(self.program_builder).wf(),
    {
        let ghost p0 = self.program_builder.program;
        let ghost pv = patch_views(self.patches@);
        let ghost pb_patches0 = patch_views(self.program_builder.patches@);
        let ghost total = blocks_total(self.blocks@);
        let FunctionBuilder { name, blocks, block_names, block_name_id: _, program_builder, patches, parameters, return_type } = self;
        let mut num_instrs: usize = 0;
        let mut k: usize = 0;
        while k < blocks.len()
            invariant
                k <= blocks@.len(),
                num_instrs == blocks_total(blocks@.take(k as int)),
                blocks_total(blocks@) == total,
                0 <= total <= p0.instructions@.len(),
                forall|j: int| 0 <= j < blocks@.len() ==> (#[trigger] blocks@[j]).start <= blocks@[j].end,
            decreases blocks.len() - k,
        {
            proof {
                assert(blocks@.take(k + 1).drop_last() =~= blocks@.take(k as int));
                lemma_blocks_total_prefix(blocks@, k as int + 1);
            }
            num_instrs = num_instrs + (blocks[k].end - blocks[k].start);
            k = k + 1;
        }
        proof {
            assert(blocks@.take(blocks@.len() as int) =~= blocks@);
        }
        let end = program_builder.program.instructions.len();
        let start = end - num_instrs;
        let name_idx = program_builder.program.add_string(name);
        let mut labels: Vec<LabelIdx> = Vec::new();
        let mut m: usize = 0;
        while m < block_names.len()
            invariant
                m <= block_names@.len(),
                labels@ == block_names@.take(m as int),
            decreases block_names.len() - m,
        {
            labels.push(block_names[m]);
            proof {
                assert(block_names@.take(m + 1) =~= block_names@.take(m as int).push(block_names@[m as int]));
            }
            m = m + 1;
        }
        proof {
            assert(block_names@.take(block_names@.len() as int) =~= block_names@);
        }
        program_builder.program.add_function(
            FunctionInternal { name: name_idx, range: start..end, parameters, labels, return_type },
        );
        let ghost p_mid = program_builder.program;
        proof {
            let n = p0.instructions@.len() as int;
            let bl = blocks@;
            assert forall|j: int| 0 <= j < block_names@.len() implies label_name_of(p0@, #[trigger] block_names@[j])
                == label_name_of(p_mid@, block_names@[j]) by {
                assert(p_mid@.labels[block_names@[j].0 as int] == p0@.labels[block_names@[j].0 as int]);
                assert(p_mid@.strings[p0@.labels[block_names@[j].0 as int].1.0 as int] == p0@.strings[p0@.labels[block_names@[j].0 as int].1.0 as int]);
            }
            assert(program_view_wf(p_mid@, p_mid.instructions@.len())) by {
                assert forall|k: int| 0 <= k < p_mid@.labels.len() implies (#[trigger] p_mid@.labels[k]).1.0 < p_mid@.strings.len()
                    && p_mid@.labels[k].0 <= p_mid.instructions@.len() by {
                    assert(p_mid@.labels[k] == p0@.labels[k]);
                }
                assert forall|k: int| 0 <= k < p_mid@.functions.len() implies {
                    let f = #[trigger] p_mid@.functions[k];
                    &&& 0 <= f.start <= f.end <= p_mid.instructions@.len()
                    &&& f.name.0 < p_mid@.strings.len()
                    &&& forall|j: int|
                        0 <= j < f.labels.len() ==> {
                            let l = #[trigger] f.labels[j];
                            &&& l.0 < p_mid@.labels.len()
                            &&& f.start <= p_mid@.labels[l.0 as int].0 <= f.end
                        }
                } by {
                    let f = p_mid@.functions[k];
                    if k < p0@.functions.len() {
                        assert(f == p0@.functions[k]);
                        assert forall|j: int| 0 <= j < f.labels.len() implies {
                            let l = #[trigger] f.labels[j];
                            &&& l.0 < p_mid@.labels.len()
                            &&& f.start <= p_mid@.labels[l.0 as int].0 <= f.end
                        } by {
                            let l = f.labels[j];
                            assert(p_mid@.labels[l.0 as int] == p0@.labels[l.0 as int]);
                        }
                    } else {
                        assert(f.start == n - total);
                        assert(f.labels == block_names@);
                        assert forall|j: int| 0 <= j < f.labels.len() implies {
                            let l = #[trigger] f.labels[j];
                            &&& l.0 < p_mid@.labels.len()
                            &&& f.start <= p_mid@.labels[l.0 as int].0 <= f.end
                        } by {
                            lemma_blocks_between(bl, j);
                            assert(p_mid@.labels[block_names@[j].0 as int] == p0@.labels[block_names@[j].0 as int]);
                        }
                    }
                }
            }
            assert(pv.take(0) =~= Seq::<(int, PatchTarget)>::empty());
            assert(function_patches(pv.take(0)) =~= Seq::<(int, PatchTarget)>::empty()) by {
                reveal(Seq::filter);
            }
            assert(pb_patches0 + function_patches(pv.take(0)) =~= pb_patches0);
        }
        let mut q: usize = 0;
        while q < patches.len()
            invariant
                q <= patches@.len(),
                pv == patch_views(patches@),
                program_builder.program@.functions == p_mid@.functions,
                program_builder.program@.strings == p_mid@.strings,
                program_builder.program@.labels == p_mid@.labels,
                program_builder.program.instructions@ == apply_label_patches(p0.instructions@, pv.take(q as int), p0@, block_names@),
                program_builder.program.wf(),
                patch_views(program_builder.patches@) == pb_patches0 + function_patches(pv.take(q as int)),
                forall|k: int| 0 <= k < program_builder.patches@.len() ==> patch_fits(#[trigger] patch_views(program_builder.patches@)[k], p0.instructions@)
                    && patch_views(program_builder.patches@)[k].1 is Function,
            decreases patches.len() - q,
        {
            let offset = patches[q].offset;
            let ghost cur = program_builder.program.instructions@;
            proof {
                assert(pv[q as int] == patch_view(patches@[q as int]));
                assert(patch_fits(pv[q as int], p0.instructions@));
                assert(patches_fit(pv.take(q as int), p0.instructions@)) by {
                    assert forall|k: int| 0 <= k < pv.take(q as int).len() implies patch_fits(#[trigger] pv.take(q as int)[k], p0.instructions@) by {
                        assert(pv.take(q as int)[k] == pv[k]);
                    }
                }
                lemma_apply_label_patches_kinds(p0.instructions@, pv.take(q as int), p0@, block_names@);
                assert(pv.take(q + 1).drop_last() =~= pv.take(q as int));
                assert(pv.take(q + 1).last() == pv[q as int]);
                assert(pv.take(q + 1) =~= pv.take(q as int).push(pv[q as int]));
                pv.take(q as int).lemma_filter_push(pv[q as int], |pt: (int, PatchTarget)| pt.1 is Function);
            }
            match &patches[q].ty {
                PatchType::Label(names) => {
                    let new_instr: Option<Instruction> = match &program_builder.program.instructions[offset] {
                        Instruction::Jmp(_) => {
                            proof {
                                lemma_find_block_label_names(p0@, p_mid@, block_names@, names@[0]@);
                            }
                            let l = find_label(&program_builder.program, &block_names, names[0].as_str());
                            Some(Instruction::Jmp(l.unwrap()))
                        },
                        Instruction::Br(c, _, _) => {
                            let c = *c;
                            proof {
                                lemma_find_block_label_names(p0@, p_mid@, block_names@, names@[0]@);
                                lemma_find_block_label_names(p0@, p_mid@, block_names@, names@[1]@);
                            }
                            let l0 = find_label(&program_builder.program, &block_names, names[0].as_str());
                            let l1 = find_label(&program_builder.program, &block_names, names[1].as_str());
                            Some(Instruction::Br(c, l0.unwrap(), l1.unwrap()))
                        },
                        _ => None,
                    };
                    if let Some(i) = new_instr {
                        program_builder.program.instructions[offset] = i;
                    }
                    proof {
                        assert(program_builder.program.instructions@ =~= cur.update(
                            offset as int,
                            patch_labels(cur[offset as int], names@.map_values(|s: String| s@), p0@, block_names@),
                        ));
                    }
                },
                PatchType::Func(name) => {
                    let ghost before = patch_views(program_builder.patches@);
                    program_builder.patches.push(Patch { offset, ty: PatchType::Func(name.clone()) });
                    proof {
                        assert(patch_views(program_builder.patches@) =~= before.push(pv[q as int]));
                    }
                },
            }
            q = q + 1;
        }
        proof {
            assert(pv.take(patches@.len() as int) =~= pv);
            lemma_apply_label_patches_kinds(p0.instructions@, pv, p0@, block_names@);
            let p1 = program_builder.program;
            assert(patches_fit(patch_views(program_builder.patches@), p1.instructions@)) by {
                assert forall|k: int| 0 <= k < patch_views(program_builder.patches@).len() implies patch_fits(#[trigger] patch_views(program_builder.patches@)[k], p1.instructions@) by {
                    assert(patch_fits(patch_views(program_builder.patches@)[k], p0.instructions@));
                }
            }
        }
    }
}

} // verus!
