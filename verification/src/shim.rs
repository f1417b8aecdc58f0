//! Translation of Bril programs as written (`source`) into the flattened
//! representation (`ir`).
use vstd::prelude::*;

use crate::builder::{
    apply_function_patches, apply_label_patches, blocks_total, lemma_apply_function_patches_len, find_block_label, first_function_named, lemma_apply_function_patches_at, lemma_apply_label_patches_at,
    lemma_apply_label_patches_kinds, lemma_find_block_label_found, lemma_find_block_label_names, function_named,
    function_patches, label_name_of, patch_fits, patch_labels, patch_views, patches_consistent, patches_fit, set_callee,
    shift_patches, BasicBlockBuilder, FunctionBuilder, PatchTarget, ProgramBuilder,
};
use crate::ir::{
    named_args, named_dest, opcode, FunctionIdx, Instruction, InstructionView, LabelIdx, Program, ProgramView, StringIdx, Type, Variable,
    NO_INDEX,
};
use crate::source;
use crate::text::{decimal, decimal_string};

verus! {

/// The variables named so far, by name; a later entry hides an earlier one
/// of the same name.
pub open spec fn name_entries(vm: Seq<(String, Variable)>) -> Seq<(Seq<char>, Variable)> {
    vm.map_values(|e: (String, Variable)| (e.0@, e.1))
}

/// The variable a name stands for: that of its last entry.
pub open spec fn lookup_var(es: Seq<(Seq<char>, Variable)>, name: Seq<char>) -> Option<Variable>
    decreases es.len(),
{
    if es.len() == 0 {
        None
    } else if es.last().0 == name {
        Some(es.last().1)
    } else {
        lookup_var(es.drop_last(), name)
    }
}

/// The state of a translation: the variables named so far and the number of
/// the next fresh variable.
pub type NameState = (Seq<(Seq<char>, Variable)>, u32);

/// The variable for `lit` of type `ty`: the one it names if that has type
/// `ty`, else a fresh one, which `lit` names from then on.
pub open spec fn var_or_next(st: NameState, lit: Seq<char>, ty: Type) -> (Variable, NameState) {
    match lookup_var(st.0, lit) {
        Some(v) if v.1 == ty => (v, st),
        _ => {
            let v = Variable(st.1, ty);
            (v, (st.0.push((lit, v)), (st.1 + 1) as u32))
        },
    }
}

/// Every name of `args` names a variable.
pub open spec fn args_defined(st: NameState, args: Seq<String>) -> bool {
    forall|k: int| 0 <= k < args.len() ==> (#[trigger] lookup_var(st.0, args[k]@)) is Some
}

/// The variables that `args` name.
pub open spec fn arg_vars(st: NameState, args: Seq<String>) -> Seq<Variable> {
    Seq::new(args.len(), |k: int| lookup_var(st.0, args[k]@)->0)
}

/// The names of a list of strings.
pub open spec fn names(v: Seq<String>) -> Seq<Seq<char>> {
    v.map_values(|s: String| s@)
}

/// The translation of an instruction: complete, or waiting for the labels
/// or the function it names to be resolved.
pub enum Translated {
    Complete(Instruction),
    ToResolve(Instruction, Vec<String>),
}

/// The model of a translation.
pub enum TranslatedView {
    Complete(InstructionView),
    ToResolve(InstructionView, Seq<Seq<char>>),
}

pub open spec fn translated_view(t: Translated) -> TranslatedView {
    match t {
        Translated::Complete(i) => TranslatedView::Complete(i@),
        Translated::ToResolve(i, n) => TranslatedView::ToResolve(i@, names(n@)),
    }
}

/// The instruction computing `op` of `a` into `d`, for operations other
/// than calls.
pub open spec fn value_instr(op: source::ValueOps, d: Variable, a: Seq<Variable>) -> InstructionView {
    match op {
        source::ValueOps::Add => InstructionView::Add(d, a[0], a[1]),
        source::ValueOps::Sub => InstructionView::Sub(d, a[0], a[1]),
        source::ValueOps::Mul => InstructionView::Mul(d, a[0], a[1]),
        source::ValueOps::Div => InstructionView::Div(d, a[0], a[1]),
        source::ValueOps::Eq => InstructionView::Eq(d, a[0], a[1]),
        source::ValueOps::Lt => InstructionView::Lt(d, a[0], a[1]),
        source::ValueOps::Gt => InstructionView::Gt(d, a[0], a[1]),
        source::ValueOps::Le => InstructionView::Le(d, a[0], a[1]),
        source::ValueOps::Ge => InstructionView::Ge(d, a[0], a[1]),
        source::ValueOps::And => InstructionView::And(d, a[0], a[1]),
        source::ValueOps::Or => InstructionView::Or(d, a[0], a[1]),
        source::ValueOps::Not => InstructionView::Not(d, a[0]),
        source::ValueOps::Id => InstructionView::Id(d, a[0]),
        source::ValueOps::Call => InstructionView::Call(Some(d), FunctionIdx(NO_INDEX), a),
    }
}

/// The word Bril writes for each operation of source programs.
pub open spec fn source_op_name(op: source::ValueOps) -> Seq<char> {
    match op {
        source::ValueOps::Add => "add"@,
        source::ValueOps::Mul => "mul"@,
        source::ValueOps::Sub => "sub"@,
        source::ValueOps::Div => "div"@,
        source::ValueOps::Eq => "eq"@,
        source::ValueOps::Lt => "lt"@,
        source::ValueOps::Gt => "gt"@,
        source::ValueOps::Le => "le"@,
        source::ValueOps::Ge => "ge"@,
        source::ValueOps::Not => "not"@,
        source::ValueOps::And => "and"@,
        source::ValueOps::Or => "or"@,
        source::ValueOps::Call => "call"@,
        source::ValueOps::Id => "id"@,
    }
}

/// Translation keeps the operation: a value instruction becomes the
/// flattened instruction of the same Bril operation, defining the same
/// destination and reading the same arguments in the same order.
pub proof fn lemma_translation_keeps_operation(op: source::ValueOps, d: Variable, a: Seq<Variable>)
    requires
        a.len() >= value_arity(op),
    ensures
        opcode(value_instr(op, d, a)) == source_op_name(op),
        named_dest(value_instr(op, d, a)) == Some(d),
        named_args(value_instr(op, d, a)) == if op is Call {
            a
        } else {
            a.take(value_arity(op) as int)
        },
{
    if !(op is Call) {
        if value_arity(op) == 2 {
            assert(a.take(2) =~= seq![a[0], a[1]]);
        } else {
            assert(a.take(1) =~= seq![a[0]]);
        }
    }
}

/// Number of arguments an operation reads at least.
pub open spec fn value_arity(op: source::ValueOps) -> nat {
    match op {
        source::ValueOps::Not | source::ValueOps::Id | source::ValueOps::Call => if op is Call {
            0
        } else {
            1
        },
        _ => 2,
    }
}

/// The instruction can be translated in state `st`: its arguments are
/// named, it has as many as its operation reads, a call names a function, a
/// jump one label and a branch two, it is no `nop`, and a fresh variable is
/// left if it needs one.
pub open spec fn translatable(st: NameState, instr: source::Instruction) -> bool {
    match instr {
        source::Instruction::Constant { dest, value, const_type } => st.1 < u32::MAX,
        source::Instruction::Value { args, dest, funcs, labels, op, op_type } => {
            &&& st.1 < u32::MAX
            &&& args_defined(st, args@)
            &&& args@.len() >= value_arity(op)
            &&& op is Call ==> funcs@.len() >= 1
        },
        source::Instruction::Effect { args, funcs, labels, op } => {
            &&& args_defined(st, args@)
            &&& !(op is Nop)
            &&& op is Branch ==> args@.len() >= 1 && labels@.len() >= 2
            &&& op is Jump ==> labels@.len() >= 1
            &&& op is Call ==> funcs@.len() >= 1
        },
    }
}

/// The translation of an instruction in state `st`, and the state after it.
/// Arguments are read before the destination is named.
pub open spec fn translate_spec(st: NameState, instr: source::Instruction) -> (TranslatedView, NameState) {
    match instr {
        source::Instruction::Constant { dest, value, const_type } => {
            let (d, st1) = var_or_next(st, dest@, const_type);
            (TranslatedView::Complete(InstructionView::Const(d, value)), st1)
        },
        source::Instruction::Value { args, dest, funcs, labels, op, op_type } => {
            let a = arg_vars(st, args@);
            let (d, st1) = var_or_next(st, dest@, op_type);
            if op is Call {
                (TranslatedView::ToResolve(value_instr(op, d, a), names(funcs@)), st1)
            } else {
                (TranslatedView::Complete(value_instr(op, d, a)), st1)
            }
        },
        source::Instruction::Effect { args, funcs, labels, op } => {
            let a = arg_vars(st, args@);
            let undef = LabelIdx(NO_INDEX);
            (
                match op {
                    source::EffectOps::Jump => TranslatedView::ToResolve(InstructionView::Jmp(undef), names(labels@)),
                    source::EffectOps::Branch => TranslatedView::ToResolve(
                        InstructionView::Br(a[0], undef, undef),
                        names(labels@),
                    ),
                    source::EffectOps::Print => TranslatedView::Complete(InstructionView::Print(a)),
                    source::EffectOps::Return => TranslatedView::Complete(
                        InstructionView::Ret(
                            if a.len() > 0 {
                                Some(a[0])
                            } else {
                                None
                            },
                        ),
                    ),
                    source::EffectOps::Call => TranslatedView::ToResolve(
                        InstructionView::Call(None, FunctionIdx(NO_INDEX), a),
                        names(funcs@),
                    ),
                    source::EffectOps::Nop => TranslatedView::Complete(InstructionView::Nop),
                },
                st,
            )
        },
    }
}

/// The Bril word of a source instruction's operation.
pub open spec fn source_instr_name(instr: source::Instruction) -> Seq<char> {
    match instr {
        source::Instruction::Constant { .. } => "const"@,
        source::Instruction::Value { op, .. } => source_op_name(op),
        source::Instruction::Effect { op, .. } => match op {
            source::EffectOps::Jump => "jmp"@,
            source::EffectOps::Branch => "br"@,
            source::EffectOps::Call => "call"@,
            source::EffectOps::Return => "ret"@,
            source::EffectOps::Print => "print"@,
            source::EffectOps::Nop => "nop"@,
        },
    }
}

/// The instruction a translation holds, resolved or not.
pub open spec fn translated_instr(t: TranslatedView) -> InstructionView {
    match t {
        TranslatedView::Complete(i) => i,
        TranslatedView::ToResolve(i, _) => i,
    }
}

/// Translating an instruction keeps its operation; a constant or value
/// instruction defines the variable its destination names; a value
/// operation reads the variables its arguments name, in order, and so do
/// a print and a call made for its effect.
pub proof fn lemma_translate_keeps_operation(st: NameState, instr: source::Instruction)
    requires
        translatable(st, instr),
    ensures
        opcode(translated_instr(translate_spec(st, instr).0)) == source_instr_name(instr),
        ({
            let i = translated_instr(translate_spec(st, instr).0);
            match instr {
                source::Instruction::Constant { dest, value, const_type } => named_dest(i) == Some(
                    var_or_next(st, dest@, const_type).0,
                ),
                source::Instruction::Value { args, dest, funcs, labels, op, op_type } => {
                    &&& named_dest(i) == Some(var_or_next(st, dest@, op_type).0)
                    &&& named_args(i) == if op is Call {
                        arg_vars(st, args@)
                    } else {
                        arg_vars(st, args@).take(value_arity(op) as int)
                    }
                },
                source::Instruction::Effect { args, funcs, labels, op } => (op is Print || op is Call) ==> named_args(i)
                    == arg_vars(st, args@),
            }
        }),
{
    match instr {
        source::Instruction::Value { args, dest, funcs, labels, op, op_type } => {
            let a = arg_vars(st, args@);
            let d = var_or_next(st, dest@, op_type).0;
            lemma_translation_keeps_operation(op, d, a);
        },
        _ => {},
    }
}

/// The state after naming a function's parameters: parameter `k` is
/// variable `k`.
pub open spec fn args_state(args: Seq<source::Argument>) -> NameState {
    (Seq::new(args.len(), |k: int| (args[k].name@, Variable(k as u32, args[k].arg_type))), args.len() as u32)
}

/// Names variables while a function is translated.
pub struct InstrBuilder {
    pub var_map: Vec<(String, Variable)>,
    pub next_var: u32,
}

/// A copy of a list of strings.
fn copy_strings(v: &Vec<String>) -> (r: Vec<String>)
    ensures
        names(r@) == names(v@),
{
    let mut r: Vec<String> = Vec::new();
    let mut i: usize = 0;
    while i < v.len()
        invariant
            i <= v@.len(),
            names(r@) == names(v@).take(i as int),
        decreases v.len() - i,
    {
        let s = v[i].clone();
        let ghost r0 = r@;
        r.push(s);
        proof {
            assert(names(r@) =~= names(r0).push(s@));
            assert(names(v@).take(i + 1) =~= names(v@).take(i as int).push(names(v@)[i as int]));
        }
        i = i + 1;
    }
    proof {
        assert(names(v@).take(v@.len() as int) =~= names(v@));
    }
    r
}

impl InstrBuilder {
    /// The model of the builder.
    pub open spec fn state(&self) -> NameState {
        (name_entries(self.var_map@), self.next_var)
    }

    /// A builder whose variables are the parameters, numbered in order.
    pub fn with_args(args: &[source::Argument]) -> (r: Self)
        requires
            args@.len() <= u32::MAX,
        ensures
            r.state() == args_state(args@),
    {
        let mut var_map: Vec<(String, Variable)> = Vec::new();
        let mut next_var: u32 = 0;
        while (next_var as usize) < args.len()
            invariant
                next_var <= args@.len(),
                args@.len() <= u32::MAX,
                name_entries(var_map@) == args_state(args@).0.take(next_var as int),
            decreases args.len() - next_var as usize,
        {
            let arg = &args[next_var as usize];
            let ty = arg.arg_type;
            let ghost vm0 = var_map@;
            let name = arg.name.clone();
            var_map.push((name, Variable(next_var, ty)));
            proof {
                let st = args_state(args@).0;
                assert(name_entries(var_map@) =~= name_entries(vm0).push((name@, Variable(next_var, ty))));
                assert(st.take(next_var + 1) =~= st.take(next_var as int).push(st[next_var as int]));
            }
            next_var = next_var + 1;
        }
        proof {
            assert(args_state(args@).0.take(args@.len() as int) =~= args_state(args@).0);
        }
        InstrBuilder { var_map, next_var }
    }

    /// The variable a name stands for, if any.
    pub fn lookup(&self, name: &str) -> (r: Option<Variable>)
        ensures
            r == lookup_var(self.state().0, name@),
    {
        let ghost es = self.state().0;
        let mut k: usize = self.var_map.len();
        proof {
            assert(es.take(k as int) =~= es);
        }
        while k > 0
            invariant
                k <= self.var_map@.len(),
                es == name_entries(self.var_map@),
                lookup_var(es, name@) == lookup_var(es.take(k as int), name@),
            decreases k,
        {
            proof {
                assert(es.take(k as int).drop_last() =~= es.take(k - 1));
            }
            if crate::ir::str_eq(self.var_map[k - 1].0.as_str(), name) {
                return Some(self.var_map[k - 1].1);
            }
            k = k - 1;
        }
        None
    }

    /// The variables that `args` name.
    fn lookup_args(&self, args: &Vec<String>) -> (r: Vec<Variable>)
        requires
            args_defined(self.state(), args@),
        ensures
            r@ == arg_vars(self.state(), args@),
    {
        let mut r: Vec<Variable> = Vec::new();
        let mut i: usize = 0;
        while i < args.len()
            invariant
                i <= args@.len(),
                args_defined(self.state(), args@),
                r@ == arg_vars(self.state(), args@).take(i as int),
            decreases args.len() - i,
        {
            let v = self.lookup(args[i].as_str());
            proof {
                assert(lookup_var(self.state().0, args@[i as int]@) is Some);
            }
            r.push(v.unwrap());
            proof {
                assert(r@ =~= arg_vars(self.state(), args@).take(i + 1));
            }
            i = i + 1;
        }
        proof {
            assert(arg_vars(self.state(), args@).take(args@.len() as int) =~= arg_vars(self.state(), args@));
        }
        r
    }

    /// The variable for `lit` of type `ty`: the one it names if that has
    /// type `ty`, else a fresh one, which `lit` names from then on.
    pub fn variable_or_next(&mut self, lit: &str, ty: Type) -> (r: Variable)
        requires
            old(self).next_var < u32::MAX,
        ensures
            (r, final(self).state()) == var_or_next(old(self).state(), lit@, ty),
    {
        if let Some(variable) = self.lookup(lit) {
            if variable.1 == ty {
                return variable;
            }
        }
        let next_var = Variable(self.next_var, ty);
        self.next_var = self.next_var + 1;
        self.var_map.push((lit.to_owned(), next_var));
        proof {
            assert(name_entries(self.var_map@) =~= name_entries(old(self).var_map@).push((lit@, next_var)));
        }
        next_var
    }

    /// Translates an instruction; jumps, branches and calls wait for their
    /// targets to be resolved by name.
    pub fn translate(&mut self, instr: &source::Instruction) -> (r: Translated)
        requires
            translatable(old(self).state(), *instr),
        ensures
            (translated_view(r), final(self).state()) == translate_spec(old(self).state(), *instr),
    {
        match instr {
            source::Instruction::Value { args, dest, funcs, labels: _, op, op_type } => {
                let a = self.lookup_args(args);
                let dest = self.variable_or_next(dest.as_str(), *op_type);
                let translated = match op {
                    source::ValueOps::Add => Instruction::Add(dest, a[0], a[1]),
                    source::ValueOps::Sub => Instruction::Sub(dest, a[0], a[1]),
                    source::ValueOps::Mul => Instruction::Mul(dest, a[0], a[1]),
                    source::ValueOps::Div => Instruction::Div(dest, a[0], a[1]),
                    source::ValueOps::Eq => Instruction::Eq(dest, a[0], a[1]),
                    source::ValueOps::Lt => Instruction::Lt(dest, a[0], a[1]),
                    source::ValueOps::Gt => Instruction::Gt(dest, a[0], a[1]),
                    source::ValueOps::Le => Instruction::Le(dest, a[0], a[1]),
                    source::ValueOps::Ge => Instruction::Ge(dest, a[0], a[1]),
                    source::ValueOps::And => Instruction::And(dest, a[0], a[1]),
                    source::ValueOps::Or => Instruction::Or(dest, a[0], a[1]),
                    source::ValueOps::Not => Instruction::Not(dest, a[0]),
                    source::ValueOps::Id => Instruction::Id(dest, a[0]),
                    source::ValueOps::Call => {
                        return Translated::ToResolve(
                            Instruction::Call(Some(dest), FunctionIdx::undef(), a),
                            copy_strings(funcs),
                        );
                    },
                };
                Translated::Complete(translated)
            },
            source::Instruction::Constant { dest, value, const_type } => {
                let dest = self.variable_or_next(dest.as_str(), *const_type);
                Translated::Complete(Instruction::Const(dest, *value))
            },
            source::Instruction::Effect { args, labels, funcs, op } => {
                let a = self.lookup_args(args);
                let unresolved = LabelIdx::undef();
                match op {
                    source::EffectOps::Jump => Translated::ToResolve(Instruction::Jmp(unresolved), copy_strings(labels)),
                    source::EffectOps::Branch => Translated::ToResolve(
                        Instruction::Br(a[0], unresolved, unresolved),
                        copy_strings(labels),
                    ),
                    source::EffectOps::Print => Translated::Complete(Instruction::Print(a)),
                    source::EffectOps::Return => {
                        let first = if a.len() > 0 {
                            Some(a[0])
                        } else {
                            None
                        };
                        Translated::Complete(Instruction::Ret(first))
                    },
                    source::EffectOps::Call => Translated::ToResolve(
                        Instruction::Call(None, FunctionIdx::undef(), a),
                        copy_strings(funcs),
                    ),
                    source::EffectOps::Nop => Translated::Complete(Instruction::Nop),
                }
            },
        }
    }
}

} // verus!

verus! {

/// Where the basic blocks of a body start, among its first `n` lines: at the
/// first line and at every label.
pub open spec fn block_starts_upto(codes: Seq<source::Code>, n: int) -> Seq<int>
    decreases n,
{
    if n <= 0 {
        Seq::empty()
    } else {
        block_starts_upto(codes, n - 1) + if n - 1 == 0 || codes[n - 1] is Label {
            seq![n - 1]
        } else {
            Seq::empty()
        }
    }
}

/// Where the basic blocks of a body start.
pub open spec fn block_starts(codes: Seq<source::Code>) -> Seq<int> {
    block_starts_upto(codes, codes.len() as int)
}

/// Where block `c` of a body ends.
pub open spec fn block_end(codes: Seq<source::Code>, c: int) -> int {
    if c + 1 < block_starts(codes).len() {
        block_starts(codes)[c + 1]
    } else {
        codes.len() as int
    }
}

proof fn lemma_block_starts_step(codes: Seq<source::Code>, n: int)
    requires
        1 <= n,
    ensures
        block_starts_upto(codes, n) == block_starts_upto(codes, n - 1) + if n - 1 == 0 || codes[n - 1] is Label {
            seq![n - 1]
        } else {
            Seq::<int>::empty()
        },
        block_starts_upto(codes, n).len() >= 1,
        block_starts_upto(codes, n)[0] == 0,
        block_starts_upto(codes, n).last() <= n - 1,
    decreases n,
{
    if n > 1 {
        lemma_block_starts_step(codes, n - 1);
    } else {
        assert(block_starts_upto(codes, 0) =~= Seq::<int>::empty());
    }
}

/// Splits a body into basic blocks: a block starts at the first line and at
/// every label, and runs to the next one.
pub fn basic_block_split(instrs: &[source::Code]) -> (r: Vec<&[source::Code]>)
    requires
        instrs@.len() > 0,
    ensures
        r@.len() == block_starts(instrs@).len(),
        forall|c: int|
            0 <= c < r@.len() ==> (#[trigger] r@[c])@ == instrs@.subrange(
                block_starts(instrs@)[c],
                block_end(instrs@, c),
            ),
{
    let ghost codes = instrs@;
    let mut r: Vec<&[source::Code]> = Vec::new();
    let mut start: usize = 0;
    let mut p: usize = 1;
    proof {
        lemma_block_starts_step(codes, 1);
        assert(block_starts_upto(codes, 0) =~= Seq::<int>::empty());
        assert(block_starts_upto(codes, 1) =~= seq![0int]);
    }
    while p < instrs.len()
        invariant
            1 <= p <= codes.len(),
            codes == instrs@,
            r@.len() + 1 == block_starts_upto(codes, p as int).len(),
            start == block_starts_upto(codes, p as int).last(),
            block_starts_upto(codes, p as int)[0] == 0,
            forall|c: int|
                0 <= c < r@.len() ==> (#[trigger] r@[c])@ == codes.subrange(
                    block_starts_upto(codes, p as int)[c],
                    block_starts_upto(codes, p as int)[c + 1],
                ),
            start < p,
        decreases codes.len() - p,
    {
        let ghost s0 = block_starts_upto(codes, p as int);
        proof {
            lemma_block_starts_step(codes, p + 1);
        }
        let is_label = match &instrs[p] {
            source::Code::Label { .. } => true,
            _ => false,
        };
        if is_label {
            r.push(vstd::slice::slice_subrange(instrs, start, p));
            start = p;
            proof {
                let s1 = block_starts_upto(codes, p + 1);
                assert(s1 == s0.push(p as int));
                assert forall|c: int| 0 <= c < r@.len() implies (#[trigger] r@[c])@ == codes.subrange(s1[c], s1[c + 1]) by {
                    if c < r@.len() - 1 {
                        assert(s1[c] == s0[c] && s1[c + 1] == s0[c + 1]);
                    }
                }
            }
        } else {
            proof {
                let s1 = block_starts_upto(codes, p + 1);
                assert(s1 =~= s0);
            }
        }
        p = p + 1;
    }
    r.push(vstd::slice::slice_subrange(instrs, start, instrs.len()));
    proof {
        let s = block_starts(codes);
        assert(s == block_starts_upto(codes, p as int));
        assert forall|c: int| 0 <= c < r@.len() implies (#[trigger] r@[c])@ == codes.subrange(s[c], block_end(codes, c)) by {
            if c < r@.len() - 1 {
                assert(block_end(codes, c) == s[c + 1]);
            }
        }
    }
    r
}

} // verus!

verus! {

/// The translations of the instructions of `codes`, in order, and the state
/// after them; labels translate to nothing.
pub open spec fn run_translate(st: NameState, codes: Seq<source::Code>) -> (Seq<TranslatedView>, NameState)
    decreases codes.len(),
{
    if codes.len() == 0 {
        (Seq::empty(), st)
    } else {
        let prev = run_translate(st, codes.drop_last());
        match codes.last() {
            source::Code::Label { .. } => prev,
            source::Code::Instruction(i) => {
                let (t, st2) = translate_spec(prev.1, i);
                (prev.0.push(t), st2)
            },
        }
    }
}

/// Each instruction of `codes` can be translated in the state it is met in.
pub open spec fn run_translatable(st: NameState, codes: Seq<source::Code>) -> bool
    decreases codes.len(),
{
    if codes.len() == 0 {
        true
    } else {
        &&& run_translatable(st, codes.drop_last())
        &&& match codes.last() {
            source::Code::Label { .. } => true,
            source::Code::Instruction(i) => translatable(run_translate(st, codes.drop_last()).1, i),
        }
    }
}

/// The instruction of a translation.
pub open spec fn tv_instr(t: TranslatedView) -> InstructionView {
    match t {
        TranslatedView::Complete(i) => i,
        TranslatedView::ToResolve(i, _) => i,
    }
}

pub open spec fn tv_instrs(ts: Seq<TranslatedView>) -> Seq<InstructionView> {
    ts.map_values(|t: TranslatedView| tv_instr(t))
}

/// What a translation at `offset` leaves to resolve, if anything.
pub open spec fn tv_patch(t: TranslatedView, offset: int) -> Seq<(int, PatchTarget)> {
    match t {
        TranslatedView::Complete(_) => Seq::empty(),
        TranslatedView::ToResolve(i, n) => seq![
            (offset, if i is Call {
                PatchTarget::Function(n[0])
            } else {
                PatchTarget::Labels(n)
            }),
        ],
    }
}

/// What translations placed from `base` on leave to resolve, in order.
pub open spec fn tv_patches(ts: Seq<TranslatedView>, base: int) -> Seq<(int, PatchTarget)>
    decreases ts.len(),
{
    if ts.len() == 0 {
        Seq::empty()
    } else {
        tv_patches(ts.drop_last(), base) + tv_patch(ts.last(), base + ts.len() - 1)
    }
}

/// The label of block `c` of a body, if it starts with one.
pub open spec fn block_label_of(codes: Seq<source::Code>, c: int) -> Option<Seq<char>> {
    match codes[block_starts(codes)[c]] {
        source::Code::Label { label } => Some(label@),
        _ => None,
    }
}

/// The names of the first `c` blocks of a body, an unlabeled block named
/// `L` and the number of unlabeled blocks before it, counted from `id`; and
/// the count after them.
pub open spec fn block_names_upto(codes: Seq<source::Code>, id: nat, c: int) -> (Seq<Seq<char>>, nat)
    decreases c,
{
    if c <= 0 {
        (Seq::empty(), id)
    } else {
        let prev = block_names_upto(codes, id, c - 1);
        match block_label_of(codes, c - 1) {
            Some(l) => (prev.0.push(l), prev.1),
            None => (prev.0.push(seq!['L'] + decimal(prev.1)), prev.1 + 1),
        }
    }
}

/// The names of the blocks of a body.
pub open spec fn block_names_of(codes: Seq<source::Code>) -> Seq<Seq<char>> {
    block_names_upto(codes, 0, block_starts(codes).len() as int).0
}

proof fn lemma_tv_patches_push(ts: Seq<TranslatedView>, t: TranslatedView, base: int)
    ensures
        tv_patches(ts.push(t), base) == tv_patches(ts, base) + tv_patch(t, base + ts.len()),
{
    assert(ts.push(t).drop_last() =~= ts);
}

/// Patches of a concatenation.
proof fn lemma_tv_patches_concat(a: Seq<TranslatedView>, b: Seq<TranslatedView>, base: int)
    ensures
        tv_patches(a + b, base) == tv_patches(a, base) + tv_patches(b, base + a.len()),
    decreases b.len(),
{
    if b.len() == 0 {
        assert(a + b =~= a);
        assert(tv_patches(a, base) + tv_patches(b, base + a.len()) =~= tv_patches(a, base));
    } else {
        lemma_tv_patches_concat(a, b.drop_last(), base);
        assert((a + b).drop_last() =~= a + b.drop_last());
        assert((a + b).last() == b.last());
        assert(tv_patches(a + b, base) == tv_patches(a + b.drop_last(), base) + tv_patch(b.last(), base + (a + b).len() - 1));
        assert(tv_patches(a, base) + tv_patches(b.drop_last(), base + a.len()) + tv_patch(b.last(), base + a.len() + b.len() - 1) =~= tv_patches(a, base) + (tv_patches(b.drop_last(), base + a.len()) + tv_patch(b.last(), base + a.len() + b.len() - 1)));
    }
}

/// Shifting patches moves their base.
proof fn lemma_tv_patches_shift(ts: Seq<TranslatedView>, base: int, d: int)
    ensures
        shift_patches(tv_patches(ts, base), d) == tv_patches(ts, base + d),
    decreases ts.len(),
{
    if ts.len() > 0 {
        lemma_tv_patches_shift(ts.drop_last(), base, d);
        assert(shift_patches(tv_patches(ts, base), d) =~= shift_patches(tv_patches(ts.drop_last(), base), d) + shift_patches(tv_patch(ts.last(), base + ts.len() - 1), d));
        assert(shift_patches(tv_patch(ts.last(), base + ts.len() - 1), d) =~= tv_patch(ts.last(), base + d + ts.len() - 1));
    } else {
        assert(shift_patches(tv_patches(ts, base), d) =~= Seq::<(int, PatchTarget)>::empty());
    }
}

} // verus!

verus! {

/// Translatability holds of every prefix.
proof fn lemma_run_translatable_prefix(st: NameState, codes: Seq<source::Code>, x: int)
    requires
        run_translatable(st, codes),
        0 <= x <= codes.len(),
    ensures
        run_translatable(st, codes.take(x)),
    decreases codes.len(),
{
    if x == codes.len() {
        assert(codes.take(x) =~= codes);
    } else {
        assert(codes.drop_last().take(x) =~= codes.take(x));
        lemma_run_translatable_prefix(st, codes.drop_last(), x);
    }
}

/// One more line of a body.
proof fn lemma_run_translate_step(st: NameState, codes: Seq<source::Code>, x: int)
    requires
        0 <= x < codes.len(),
    ensures
        run_translate(st, codes.take(x + 1)) == match codes[x] {
            source::Code::Label { .. } => run_translate(st, codes.take(x)),
            source::Code::Instruction(i) => {
                let prev = run_translate(st, codes.take(x));
                let (t, st2) = translate_spec(prev.1, i);
                (prev.0.push(t), st2)
            },
        },
        run_translatable(st, codes.take(x + 1)) ==> match codes[x] {
            source::Code::Label { .. } => true,
            source::Code::Instruction(i) => translatable(run_translate(st, codes.take(x)).1, i),
        },
{
    assert(codes.take(x + 1).drop_last() =~= codes.take(x));
}

/// What a translation waits for fits its instruction: only jumps, branches
/// and calls wait, a call for a function name, a jump for a label and a
/// branch for two.
pub open spec fn resolvable_shape(t: TranslatedView) -> bool {
    match t {
        TranslatedView::Complete(i) => !(i is Call),
        TranslatedView::ToResolve(i, n) => {
            &&& (i is Jmp || i is Br || i is Call)
            &&& i is Call ==> n.len() >= 1
            &&& i is Jmp ==> n.len() >= 1
            &&& i is Br ==> n.len() >= 2
        },
    }
}

proof fn lemma_translate_shape(st: NameState, instr: source::Instruction)
    requires
        translatable(st, instr),
    ensures
        resolvable_shape(translate_spec(st, instr).0),
{
}

/// Translates the lines of one basic block of a body: the block is
/// `codes[q..e]`, and the lines before `q` have been translated.
fn translate_block(
    ib: &mut InstrBuilder,
    chunk: &[source::Code],
    Ghost(st0): Ghost<NameState>,
    Ghost(codes): Ghost<Seq<source::Code>>,
    Ghost(q): Ghost<int>,
) -> (bb: BasicBlockBuilder)
    requires
        run_translatable(st0, codes),
        0 <= q < q + chunk@.len() <= codes.len(),
        chunk@ == codes.subrange(q, q + chunk@.len()),
        old(ib).state() == run_translate(st0, codes.take(q)).1,
    ensures
        ({
            let before = run_translate(st0, codes.take(q)).0;
            let after = run_translate(st0, codes.take(q + chunk@.len()));
            &&& final(ib).state() == after.1
            &&& before.len() <= after.0.len()
            &&& after.0.subrange(0, before.len() as int) == before
            &&& bb.instrs@.map_values(|i: Instruction| i@) == tv_instrs(after.0.skip(before.len() as int))
            &&& patch_views(bb.patches@) == tv_patches(after.0.skip(before.len() as int), 0)
            &&& bb.label_name() == match chunk@[0] {
                source::Code::Label { label } => Some(label@),
                _ => None,
            }
            &&& bb.wf()
        }),
{
    let ghost before = run_translate(st0, codes.take(q)).0;
    let mut bb = BasicBlockBuilder::new();
    let mut p: usize = 0;
    if let source::Code::Label { label } = &chunk[0] {
        bb.label(label.clone());
        p = 1;
        proof {
            lemma_run_translate_step(st0, codes, q);
            assert(codes[q] == chunk@[0]);
        }
    }
    proof {
        let cur = run_translate(st0, codes.take(q + p));
        assert(cur.0 == before);
        assert(cur.0.skip(before.len() as int) =~= Seq::<TranslatedView>::empty());
        assert(bb.instrs@.map_values(|i: Instruction| i@) =~= Seq::<InstructionView>::empty());
        assert(patch_views(bb.patches@) =~= Seq::<(int, PatchTarget)>::empty());
        assert(tv_patches(Seq::<TranslatedView>::empty(), 0) =~= Seq::<(int, PatchTarget)>::empty());
        assert(cur.0.subrange(0, before.len() as int) =~= before);
    }
    while p < chunk.len()
        invariant
            run_translatable(st0, codes),
            0 <= q < q + chunk@.len() <= codes.len(),
            chunk@ == codes.subrange(q, q + chunk@.len()),
            p <= chunk@.len(),
            before == run_translate(st0, codes.take(q)).0,
            ib.state() == run_translate(st0, codes.take(q + p)).1,
            before.len() <= run_translate(st0, codes.take(q + p)).0.len(),
            run_translate(st0, codes.take(q + p)).0.subrange(0, before.len() as int) == before,
            bb.instrs@.map_values(|i: Instruction| i@) == tv_instrs(run_translate(st0, codes.take(q + p)).0.skip(before.len() as int)),
            patch_views(bb.patches@) == tv_patches(run_translate(st0, codes.take(q + p)).0.skip(before.len() as int), 0),
            bb.label_name() == match chunk@[0] {
                source::Code::Label { label } => Some(label@),
                _ => None,
            },
            bb.wf(),
        decreases chunk.len() - p,
    {
        let ghost x = q + p;
        let ghost cur = run_translate(st0, codes.take(x));
        proof {
            lemma_run_translate_step(st0, codes, x);
            lemma_run_translatable_prefix(st0, codes, x + 1);
            assert(codes[x] == chunk@[p as int]);
        }
        if let source::Code::Instruction(instr) = &chunk[p] {
            let ghost local = cur.0.skip(before.len() as int);
            let ghost instrs0 = bb.instrs@;
            let ghost pv0 = patch_views(bb.patches@);
            let t = ib.translate(instr);
            let ghost tv = translated_view(t);
            proof {
                let next = run_translate(st0, codes.take(x + 1));
                assert(next.0 == cur.0.push(tv));
                assert(next.0.skip(before.len() as int) =~= local.push(tv));
                assert(next.0.subrange(0, before.len() as int) =~= cur.0.subrange(0, before.len() as int));
                lemma_tv_patches_push(local, tv, 0);
                assert(instrs0.map_values(|i: Instruction| i@).len() == instrs0.len());
                assert(tv_instrs(local).len() == local.len());
                assert(instrs0.len() == local.len());
                lemma_translate_shape(cur.1, *instr);
            }
            match t {
                Translated::Complete(i) => {
                    bb.add_instr(i);
                    proof {
                        assert(bb.instrs@.map_values(|i: Instruction| i@) =~= instrs0.map_values(|i: Instruction| i@).push(tv_instr(tv)));
                        assert(tv_instrs(local.push(tv)) =~= tv_instrs(local).push(tv_instr(tv)));
                        assert(tv_patch(tv, local.len() as int) =~= Seq::<(int, PatchTarget)>::empty());
                        assert(patch_views(bb.patches@) =~= pv0 + tv_patch(tv, local.len() as int));
                    }
                },
                Translated::ToResolve(i, symbols) => {
                    proof {
                        assert(names(symbols@) =~= symbols@.map_values(|s: String| s@));
                        if i is Call {
                            assert(symbols@.len() >= 1);
                        }
                    }
                    let ghost sym = symbols@;
                    bb.add_patched_instr(i, symbols);
                    proof {
                        assert(names(sym) =~= sym.map_values(|s: String| s@));
                        assert(bb.instrs@.map_values(|i: Instruction| i@) =~= instrs0.map_values(|i: Instruction| i@).push(tv_instr(tv)));
                        assert(tv_instrs(local.push(tv)) =~= tv_instrs(local).push(tv_instr(tv)));
                        assert(patch_views(bb.patches@) =~= pv0 + tv_patch(tv, local.len() as int));
                    }
                },
            }
        }
        p = p + 1;
    }
    bb
}

} // verus!

verus! {

/// The starts of the blocks of a body increase, from the first line on, and
/// lie within the body.
proof fn lemma_block_starts_props(codes: Seq<source::Code>, n: int)
    requires
        0 <= n <= codes.len(),
    ensures
        forall|i: int, j: int|
            0 <= i < j < block_starts_upto(codes, n).len() ==> block_starts_upto(codes, n)[i] < block_starts_upto(
                codes,
                n,
            )[j],
        forall|i: int|
            0 <= i < block_starts_upto(codes, n).len() ==> 0 <= #[trigger] block_starts_upto(codes, n)[i] < n,
        block_starts_upto(codes, n).len() <= n,
        n > 0 ==> block_starts_upto(codes, n).len() > 0 && block_starts_upto(codes, n)[0] == 0,
    decreases n,
{
    if n > 0 {
        lemma_block_starts_props(codes, n - 1);
        lemma_block_starts_step(codes, n);
    }
}

/// There is one name per block, and the count of unlabeled blocks grows by
/// at most one per block.
proof fn lemma_block_names_upto_len(codes: Seq<source::Code>, id: nat, c: int)
    requires
        0 <= c,
    ensures
        block_names_upto(codes, id, c).0.len() == c,
        block_names_upto(codes, id, c).1 <= id + c,
    decreases c,
{
    if c > 0 {
        lemma_block_names_upto_len(codes, id, c - 1);
    }
}

/// Translating a body yields at most one translation per line.
proof fn lemma_run_translate_len(st: NameState, codes: Seq<source::Code>)
    ensures
        run_translate(st, codes).0.len() <= codes.len(),
    decreases codes.len(),
{
    if codes.len() > 0 {
        lemma_run_translate_len(st, codes.drop_last());
    }
}

/// A name among the entries names a variable.
proof fn lemma_lookup_var_some(es: Seq<(Seq<char>, Variable)>, k: int)
    requires
        0 <= k < es.len(),
    ensures
        lookup_var(es, es[k].0) is Some,
    decreases es.len(),
{
    if k < es.len() - 1 && es.last().0 != es[k].0 {
        lemma_lookup_var_some(es.drop_last(), k);
    }
}

/// The variables of a function's parameters: each parameter's name looked
/// up once all are named.
pub open spec fn param_vars(args: Seq<source::Argument>) -> Seq<Variable> {
    Seq::new(args.len(), |k: int| lookup_var(args_state(args).0, args[k].name@)->0)
}

/// Where block `c` of a body starts, the end of the body for `c` past the
/// last block.
pub open spec fn block_start_or_end(codes: Seq<source::Code>, c: int) -> int {
    if c < block_starts(codes).len() {
        block_starts(codes)[c]
    } else {
        codes.len() as int
    }
}

/// Sealing one more block keeps the names and offsets of the labels of the
/// blocks sealed before and adds those of the new one.
proof fn lemma_seal_labels(
    pf: ProgramView,
    p1: ProgramView,
    names0: Seq<LabelIdx>,
    names1: Seq<LabelIdx>,
    wanted0: Seq<Seq<char>>,
    new_name: Seq<char>,
    off: spec_fn(int) -> int,
)
    requires
        names1 == names0.push(LabelIdx(pf.labels.len() as u32)),
        p1.labels == pf.labels.push((off(names0.len() as int) as usize, StringIdx(pf.strings.len() as u32))),
        p1.strings == pf.strings.push(new_name),
        pf.labels.len() < u32::MAX,
        pf.strings.len() < u32::MAX,
        forall|l: int| 0 <= l < pf.labels.len() ==> (#[trigger] pf.labels[l]).1.0 < pf.strings.len(),
        forall|x: int| 0 <= x < names0.len() ==> (#[trigger] names0[x]).0 < pf.labels.len(),
        names0.len() == wanted0.len(),
        0 <= off(names0.len() as int) <= usize::MAX,
        forall|x: int| 0 <= x < names0.len() ==> label_name_of(pf, #[trigger] names0[x]) == wanted0[x],
        forall|x: int| 0 <= x < names0.len() ==> pf.labels[(#[trigger] names0[x]).0 as int].0 == off(x),
    ensures
        forall|x: int| 0 <= x < names1.len() ==> label_name_of(p1, #[trigger] names1[x]) == wanted0.push(new_name)[x],
        forall|x: int| 0 <= x < names1.len() ==> p1.labels[(#[trigger] names1[x]).0 as int].0 == off(x),
{
    assert forall|x: int| 0 <= x < names1.len() implies label_name_of(p1, #[trigger] names1[x]) == wanted0.push(new_name)[x]
        && p1.labels[names1[x].0 as int].0 == off(x) by {
        if x < names0.len() {
            let l = names0[x];
            assert(names1[x] == l);
            assert(p1.labels[l.0 as int] == pf.labels[l.0 as int]);
            assert(pf.labels[l.0 as int].1.0 < pf.strings.len());
        }
    }
}

/// Builds a function from its source: parameters, return type, then its
/// basic blocks, translated in order.
#[verifier::rlimit(100)]
#[verifier::spinoff_prover]
fn build_fn(fn_builder: &mut FunctionBuilder<'_>, input: &source::Function)
    requires
        old(fn_builder).wf(),
        old(fn_builder).blocks@.len() == 0,
        old(fn_builder).patches@.len() == 0,
        old(fn_builder).block_name_id == 0,
        old(fn_builder).parameters@.len() == 0,
        old(fn_builder).return_type is None,
        input.instrs@.len() > 0,
        input.args@.len() <= u32::MAX,
        run_translatable(args_state(input.args@), input.instrs@),
        old(fn_builder).program_builder.program@.strings.len() + input.instrs@.len() < u32::MAX,
        old(fn_builder).program_builder.program@.labels.len() + input.instrs@.len() < u32::MAX,
        old(fn_builder).program_builder.program.instructions@.len() + input.instrs@.len() <= usize::MAX,
    ensures
        ({
            let codes = input.instrs@;
            let ts = run_translate(args_state(input.args@), codes).0;
            let k = block_starts(codes).len();
            let p0 = old(fn_builder).program_builder.program;
            let p1 = final(fn_builder).program_builder.program;
            &&& p1.instructions@.map_values(|i: Instruction| i@) == p0.instructions@.map_values(|i: Instruction| i@)
                + tv_instrs(ts)
            &&& p1@.functions == p0@.functions
            &&& p1@.strings.len() == p0@.strings.len() + k
            &&& p1@.labels.len() == p0@.labels.len() + k
            &&& forall|x: int| 0 <= x < p0@.strings.len() ==> p1@.strings[x] == p0@.strings[x]
            &&& forall|x: int| 0 <= x < p0@.labels.len() ==> p1@.labels[x] == p0@.labels[x]
            &&& final(fn_builder).block_names@.len() == k
            &&& forall|c: int|
                0 <= c < k ==> label_name_of(p1@, #[trigger] final(fn_builder).block_names@[c])
                    == block_names_of(codes)[c]
            &&& forall|c: int|
                0 <= c < k ==> p1@.labels[(#[trigger] final(fn_builder).block_names@[c]).0 as int].0 == p0.instructions@.len()
                    + run_translate(args_state(input.args@), codes.take(block_starts(codes)[c])).0.len()
            &&& patch_views(final(fn_builder).patches@) == tv_patches(ts, p0.instructions@.len() as int)
            &&& blocks_total(final(fn_builder).blocks@) == ts.len()
            &&& k <= codes.len()
        }),
        final(fn_builder).parameters@ == param_vars(input.args@),
        final(fn_builder).return_type == input.return_type,
        final(fn_builder).name == old(fn_builder).name,
        final(fn_builder).program_builder.patches == old(fn_builder).program_builder.patches,
        final(fn_builder).wf(),
        *final(final(fn_builder).program_builder) == *final(old(fn_builder).program_builder),
{
    let ghost codes = input.instrs@;
    let ghost st0 = args_state(input.args@);
    let ghost p0 = fn_builder.program_builder.program;
    let ghost base0 = p0.instructions@.len() as int;
    let mut instr_builder = InstrBuilder::with_args(input.args.as_slice());
    if let Some(return_type) = input.return_type {
        fn_builder.return_type(return_type);
    }
    let mut parameters: Vec<Variable> = Vec::new();
    let mut a: usize = 0;
    while a < input.args.len()
        invariant
            a <= input.args@.len(),
            instr_builder.state() == st0,
            st0 == args_state(input.args@),
            parameters@ == param_vars(input.args@).take(a as int),
        decreases input.args.len() - a,
    {
        proof {
            assert(st0.0[a as int].0 == input.args@[a as int].name@);
            lemma_lookup_var_some(st0.0, a as int);
        }
        let v = instr_builder.lookup(input.args[a].name.as_str());
        parameters.push(v.unwrap());
        proof {
            assert(parameters@ =~= param_vars(input.args@).take(a + 1));
        }
        a = a + 1;
    }
    proof {
        assert(param_vars(input.args@).take(input.args@.len() as int) =~= param_vars(input.args@));
    }
    fn_builder.parameters(parameters.as_slice());
    let chunks = basic_block_split(input.instrs.as_slice());
    let ghost starts = block_starts(codes);
    proof {
        lemma_block_starts_props(codes, codes.len() as int);
        assert(run_translate(st0, codes.take(0)) == (Seq::<TranslatedView>::empty(), st0)) by {
            assert(codes.take(0) =~= Seq::<source::Code>::empty());
        }
        assert(block_start_or_end(codes, 0) == 0);
        assert(blocks_total(fn_builder.blocks@) == 0);
        assert(p0.instructions@.map_values(|i: Instruction| i@) + tv_instrs(Seq::<TranslatedView>::empty()) =~= p0.instructions@.map_values(|i: Instruction| i@));
        assert(tv_patches(Seq::<TranslatedView>::empty(), base0) =~= Seq::<(int, PatchTarget)>::empty());
        assert(patch_views(fn_builder.patches@) =~= Seq::<(int, PatchTarget)>::empty());
    }
    let mut c: usize = 0;
    while c < chunks.len()
        invariant
            codes == input.instrs@,
            st0 == args_state(input.args@),
            starts == block_starts(codes),
            run_translatable(st0, codes),
            chunks@.len() == starts.len(),
            forall|x: int| 0 <= x < chunks@.len() ==> (#[trigger] chunks@[x])@ == codes.subrange(starts[x], block_end(codes, x)),
            forall|i: int, j: int| 0 <= i < j < starts.len() ==> starts[i] < starts[j],
            forall|i: int| 0 <= i < starts.len() ==> 0 <= #[trigger] starts[i] < codes.len(),
            starts.len() <= codes.len(),
            c <= starts.len(),
            instr_builder.state() == run_translate(st0, codes.take(block_start_or_end(codes, c as int))).1,
            ({
                let ts = run_translate(st0, codes.take(block_start_or_end(codes, c as int))).0;
                let p1 = fn_builder.program_builder.program;
                &&& p1.instructions@.map_values(|i: Instruction| i@) == p0.instructions@.map_values(|i: Instruction| i@) + tv_instrs(ts)
                &&& p1@.functions == p0@.functions
                &&& p1@.strings.len() == p0@.strings.len() + c
                &&& p1@.labels.len() == p0@.labels.len() + c
                &&& forall|x: int| 0 <= x < p0@.strings.len() ==> p1@.strings[x] == p0@.strings[x]
                &&& forall|x: int| 0 <= x < p0@.labels.len() ==> p1@.labels[x] == p0@.labels[x]
                &&& fn_builder.block_names@.len() == c
                &&& fn_builder.block_name_id == block_names_upto(codes, 0, c as int).1
                &&& forall|x: int| 0 <= x < c ==> label_name_of(p1@, #[trigger] fn_builder.block_names@[x]) == block_names_upto(codes, 0, c as int).0[x]
                &&& forall|x: int| 0 <= x < c ==> p1@.labels[(#[trigger] fn_builder.block_names@[x]).0 as int].0 == base0 + run_translate(st0, codes.take(starts[x])).0.len()
                &&& patch_views(fn_builder.patches@) == tv_patches(ts, base0)
                &&& blocks_total(fn_builder.blocks@) == ts.len()
            }),
            p0.instructions@.len() + codes.len() <= usize::MAX,
            p0@.strings.len() + codes.len() < u32::MAX,
            p0@.labels.len() + codes.len() < u32::MAX,
            base0 == p0.instructions@.len(),
            fn_builder.parameters@ == param_vars(input.args@),
            fn_builder.return_type == input.return_type,
            fn_builder.name == old(fn_builder).name,
            fn_builder.program_builder.patches == old(fn_builder).program_builder.patches,
            fn_builder.wf(),
            *final(fn_builder.program_builder) == *final(old(fn_builder).program_builder),
        decreases chunks.len() - c,
    {
        let chunk = chunks[c];
        let ghost q = starts[c as int];
        let ghost e = block_end(codes, c as int);
        let ghost before = run_translate(st0, codes.take(q)).0;
        proof {
            assert(block_start_or_end(codes, c as int) == q);
            if c + 1 < starts.len() {
                assert(e == starts[c + 1]);
            }
            assert(q < e);
            assert(chunk@ == codes.subrange(q, q + chunk@.len()));
        }
        let bb = translate_block(&mut instr_builder, chunk, Ghost(st0), Ghost(codes), Ghost(q));
        let ghost after = run_translate(st0, codes.take(e)).0;
        let ghost pf = fn_builder.program_builder.program;
        let ghost fb_names = fn_builder.block_names@;
        let ghost pv_old = patch_views(fn_builder.patches@);
        let ghost old_blocks = fn_builder.blocks@;
        proof {
            lemma_run_translate_len(st0, codes.take(e));
            assert(bb.instrs@.len() == tv_instrs(after.skip(before.len() as int)).len());
            assert(block_label_of(codes, c as int) == bb.label_name()) by {
                assert(chunk@[0] == codes[q]);
            }
            assert(pf.instructions@.len() == base0 + before.len()) by {
                assert(pf.instructions@.map_values(|i: Instruction| i@).len() == pf.instructions@.len());
            }
            assert(bb.instrs@.map_values(|i: Instruction| i@).len() == bb.instrs@.len());
            assert(after.len() <= e);
        }
        proof {
            lemma_block_names_upto_len(codes, 0, c as int);
            lemma_block_names_upto_len(codes, 0, c + 1);
        }
        let ghost id0 = fn_builder.block_name_id;
        let ghost bb_label = bb.label_name();
        fn_builder.seal_block(bb);
        proof {
            let p1 = fn_builder.program_builder.program;
            let start = pf.instructions@.len() as int;
            assert(start == base0 + before.len()) by {
                assert(pf.instructions@.map_values(|i: Instruction| i@).len() == start);
            }
            assert(after =~= before + after.skip(before.len() as int));
            assert(p1.instructions@.map_values(|i: Instruction| i@) =~= pf.instructions@.map_values(|i: Instruction| i@) + bb.instrs@.map_values(|i: Instruction| i@));
            assert(tv_instrs(after) =~= tv_instrs(before) + tv_instrs(after.skip(before.len() as int)));
            lemma_tv_patches_shift(after.skip(before.len() as int), 0, start);
            lemma_tv_patches_concat(before, after.skip(before.len() as int), base0);
            assert(block_start_or_end(codes, c + 1) == e);
            assert(fn_builder.blocks@.drop_last() == old_blocks);
            assert(tv_instrs(after).len() == after.len());
            let names0 = block_names_upto(codes, 0, c as int);
            let names1 = block_names_upto(codes, 0, c + 1);
            let new_name = match block_label_of(codes, c as int) {
                Some(l) => l,
                None => seq!['L'] + decimal(names0.1),
            };
            assert(names1.0 == names0.0.push(new_name));
            assert(p1@.strings[pf@.strings.len() as int] == new_name);
            assert(fn_builder.block_names@[c as int] == LabelIdx(pf@.labels.len() as u32));
            assert(p1@.labels[pf@.labels.len() as int].1 == StringIdx(pf@.strings.len() as u32));
            let off = |x: int| base0 + run_translate(st0, codes.take(starts[x])).0.len();
            assert(off(c as int) == start);
            lemma_seal_labels(pf@, p1@, fb_names, fn_builder.block_names@, names0.0, new_name, off);
            assert(names1.0 =~= names0.0.push(new_name));
        }
        c = c + 1;
    }
    proof {
        assert(block_start_or_end(codes, c as int) == codes.len());
        assert(codes.take(codes.len() as int) =~= codes);
    }
}

} // verus!

verus! {

/// Each patch of a list of translations comes from one of them.
proof fn lemma_tv_patches_member(ts: Seq<TranslatedView>, base: int, m: int)
    requires
        0 <= m < tv_patches(ts, base).len(),
    ensures
        exists|x: int|
            0 <= x < ts.len() && (#[trigger] ts[x]) is ToResolve && tv_patches(ts, base)[m] == tv_patch(ts[x], base + x)[0],
    decreases ts.len(),
{
    let pre = tv_patches(ts.drop_last(), base);
    if m < pre.len() {
        lemma_tv_patches_member(ts.drop_last(), base, m);
        let x = choose|x: int|
            0 <= x < ts.drop_last().len() && (#[trigger] ts.drop_last()[x]) is ToResolve && pre[m] == tv_patch(
                ts.drop_last()[x],
                base + x,
            )[0];
        assert(ts[x] == ts.drop_last()[x]);
    } else {
        let x = ts.len() - 1;
        assert(ts[x] is ToResolve);
    }
}

/// Translations of translatable lines wait only for what fits them.
proof fn lemma_run_translate_shapes(st: NameState, codes: Seq<source::Code>)
    requires
        run_translatable(st, codes),
    ensures
        forall|x: int| 0 <= x < run_translate(st, codes).0.len() ==> resolvable_shape(#[trigger] run_translate(st, codes).0[x]),
    decreases codes.len(),
{
    if codes.len() > 0 {
        lemma_run_translate_shapes(st, codes.drop_last());
        match codes.last() {
            source::Code::Label { .. } => {
                assert(run_translate(st, codes) == run_translate(st, codes.drop_last()));
            },
            source::Code::Instruction(i) => {
                let prev = run_translate(st, codes.drop_last());
                lemma_translate_shape(prev.1, i);
                assert(run_translate(st, codes).0 == prev.0.push(translate_spec(prev.1, i).0));
                assert forall|x: int| 0 <= x < prev.0.len() implies run_translate(st, codes).0[x] == prev.0[x] by {}
            },
        }
    }
}

/// Lines of the first `k` functions, one more for each function's name.
pub open spec fn sum_lines(fs: Seq<source::Function>, k: int) -> int
    decreases k,
{
    if k <= 0 {
        0
    } else {
        sum_lines(fs, k - 1) + fs[k - 1].instrs@.len() + 1
    }
}

proof fn lemma_sum_lines_mono(fs: Seq<source::Function>, k: int, m: int)
    requires
        0 <= k <= m,
    ensures
        sum_lines(fs, k) + (m - k) <= sum_lines(fs, m),
    decreases m - k,
{
    if k < m {
        lemma_sum_lines_mono(fs, k, m - 1);
    }
}

/// The translations of a function's body.
pub open spec fn body_translations(f: source::Function) -> Seq<TranslatedView> {
    run_translate(args_state(f.args@), f.instrs@).0
}

/// Function `f` can be translated: its body is not empty, each instruction
/// can be translated where it stands, each jump and branch names blocks of
/// the function, and each call names a function of `fs`.
pub open spec fn function_translatable(f: source::Function, fs: Seq<source::Function>) -> bool {
    &&& f.instrs@.len() > 0
    &&& f.args@.len() <= u32::MAX
    &&& run_translatable(args_state(f.args@), f.instrs@)
    &&& forall|x: int|
        0 <= x < body_translations(f).len() ==> match #[trigger] body_translations(f)[x] {
            TranslatedView::ToResolve(i, n) => if i is Call {
                exists|g: int| 0 <= g < fs.len() && (#[trigger] fs[g]).name@ == n[0]
            } else {
                forall|j: int| 0 <= j < n.len() ==> block_names_of(f.instrs@).contains(#[trigger] n[j])
            },
            TranslatedView::Complete(_) => true,
        }
}

/// A translation with each jump and branch sent to the first label of
/// `labels` with the name it gives.
pub open spec fn label_resolved(t: TranslatedView, p: ProgramView, labels: Seq<LabelIdx>) -> InstructionView {
    match t {
        TranslatedView::Complete(i) => i,
        TranslatedView::ToResolve(i, n) => match i {
            InstructionView::Jmp(_) => InstructionView::Jmp(find_block_label(p, labels, n[0])->0),
            InstructionView::Br(c, _, _) => InstructionView::Br(
                c,
                find_block_label(p, labels, n[0])->0,
                find_block_label(p, labels, n[1])->0,
            ),
            _ => i,
        },
    }
}

/// The instruction a translation becomes in a function with labels
/// `labels` of program `p`: a jump or branch goes to the first label of the
/// function with each name it gives, a call to the first function of the
/// program with the name it gives.
pub open spec fn resolved_translation(t: TranslatedView, p: ProgramView, labels: Seq<LabelIdx>) -> InstructionView {
    match t {
        TranslatedView::ToResolve(InstructionView::Call(d, _, a), n) => InstructionView::Call(
            d,
            FunctionIdx(first_function_named(p, n[0]) as u32),
            a,
        ),
        _ => label_resolved(t, p, labels),
    }
}

/// Instruction `j` of function `x` of a program.
pub open spec fn function_instr(p: Program, x: int, j: int) -> InstructionView {
    p.instructions@[p@.functions[x].start + j]@
}

/// The first `k` functions of `p` hold the translations of the first `k`
/// functions of `fs`, jumps and branches resolved, and each call among them
/// has a patch in `ps` that names its function.
pub open spec fn laid_out(p: Program, fs: Seq<source::Function>, k: int, ps: Seq<(int, PatchTarget)>) -> bool {
    &&& forall|x: int, j: int|
        0 <= x < k && 0 <= j < body_translations(fs[x]).len() ==> #[trigger] function_instr(p, x, j) == label_resolved(
            body_translations(fs[x])[j],
            p@,
            p@.functions[x].labels,
        )
    &&& forall|x: int, j: int|
        0 <= x < k && 0 <= j < body_translations(fs[x]).len() ==> (#[trigger] body_translations(fs[x])[j] matches TranslatedView::ToResolve(
            InstructionView::Call(_, _, _),
            n,
        ) ==> exists|m: int| 0 <= m < ps.len() && ps[m] == (p@.functions[x].start + j, PatchTarget::Function(n[0])))
}

/// Names of the labels of `names` read in `p` are the same in `q`, whose
/// tables extend those of `p`.
proof fn lemma_label_names_kept(p: ProgramView, q: ProgramView, names: Seq<LabelIdx>)
    requires
        forall|j: int|
            0 <= j < names.len() ==> (#[trigger] names[j]).0 < p.labels.len() && p.labels[names[j].0 as int].1.0
                < p.strings.len(),
        p.labels.len() <= q.labels.len(),
        p.strings.len() <= q.strings.len(),
        forall|x: int| 0 <= x < p.labels.len() ==> q.labels[x] == p.labels[x],
        forall|x: int| 0 <= x < p.strings.len() ==> q.strings[x] == p.strings[x],
    ensures
        forall|t: TranslatedView| label_resolved(t, p, names) == #[trigger] label_resolved(t, q, names),
{
    assert forall|j: int| 0 <= j < names.len() implies label_name_of(p, #[trigger] names[j]) == label_name_of(q, names[j]) by {
        let l = names[j];
        assert(q.labels[l.0 as int] == p.labels[l.0 as int]);
    }
    assert forall|n: Seq<char>| find_block_label(p, names, n) == #[trigger] find_block_label(q, names, n) by {
        lemma_find_block_label_names(p, q, names, n);
    }
}

/// Where the patches of a list of translations point: each at a translation
/// that waits, as that translation says; each waiting translation has one.
proof fn lemma_tv_patches_at(ts: Seq<TranslatedView>, base: int)
    ensures
        forall|m: int|
            0 <= m < tv_patches(ts, base).len() ==> {
                let pt = #[trigger] tv_patches(ts, base)[m];
                &&& base <= pt.0 < base + ts.len()
                &&& ts[pt.0 - base] is ToResolve
                &&& pt == tv_patch(ts[pt.0 - base], pt.0)[0]
            },
        forall|x: int|
            0 <= x < ts.len() && (#[trigger] ts[x]) is ToResolve ==> exists|m: int|
                0 <= m < tv_patches(ts, base).len() && tv_patches(ts, base)[m] == tv_patch(ts[x], base + x)[0],
        patches_consistent(tv_patches(ts, base)),
    decreases ts.len(),
{
    let pv = tv_patches(ts, base);
    if ts.len() > 0 {
        let d = ts.drop_last();
        let pre = tv_patches(d, base);
        lemma_tv_patches_at(d, base);
        assert(pv == pre + tv_patch(ts.last(), base + ts.len() - 1));
        assert forall|x: int| 0 <= x < d.len() implies #[trigger] d[x] == ts[x] by {}
        assert forall|m: int| 0 <= m < pv.len() implies {
            let pt = #[trigger] pv[m];
            &&& base <= pt.0 < base + ts.len()
            &&& ts[pt.0 - base] is ToResolve
            &&& pt == tv_patch(ts[pt.0 - base], pt.0)[0]
        } by {
            if m < pre.len() {
                assert(pv[m] == pre[m]);
                assert(d[pre[m].0 - base] == ts[pre[m].0 - base]);
            } else {
                assert(ts[ts.len() - 1] == ts.last());
            }
        }
        assert forall|x: int|
            0 <= x < ts.len() && (#[trigger] ts[x]) is ToResolve implies exists|m: int|
                0 <= m < pv.len() && pv[m] == tv_patch(ts[x], base + x)[0] by {
            if x < d.len() {
                assert(d[x] == ts[x]);
                let m = choose|m: int| 0 <= m < pre.len() && pre[m] == tv_patch(d[x], base + x)[0];
                assert(pv[m] == pre[m]);
            } else {
                assert(ts[x] == ts.last());
                assert(pv[pre.len() as int] == tv_patch(ts.last(), base + ts.len() - 1)[0]);
            }
        }
    }
    assert forall|a: int, b: int|
        0 <= a < pv.len() && 0 <= b < pv.len() && (#[trigger] pv[a]).0 == (#[trigger] pv[b]).0 implies pv[a].1
            == pv[b].1 by {}
}

/// Laying out one more function: its translations are appended and their
/// jumps and branches resolved against its own block labels; earlier
/// functions keep their instructions, and each call keeps its patch.
#[verifier::rlimit(100)]
#[verifier::spinoff_prover]
proof fn lemma_lay_out_function(
    fs: Seq<source::Function>,
    k: int,
    p0: Program,
    p1: Program,
    p2: Program,
    ps0: Seq<(int, PatchTarget)>,
    pv: Seq<(int, PatchTarget)>,
    bnames: Seq<LabelIdx>,
)
    requires
        0 <= k < fs.len(),
        p0.wf(),
        p0@.functions.len() == k,
        forall|x: int| 0 <= x < k ==> #[trigger] function_header_matches(p0@, x, fs[x]),
        patches_fit(ps0, p0.instructions@),
        patches_consistent(ps0),
        laid_out(p0, fs, k, ps0),
        forall|x: int|
            0 <= x < body_translations(fs[k]).len() ==> resolvable_shape(#[trigger] body_translations(fs[k])[x]),
        ({
            let ts = body_translations(fs[k]);
            let base = p0.instructions@.len() as int;
            &&& p1.instructions@.map_values(|i: Instruction| i@) == p0.instructions@.map_values(|i: Instruction| i@)
                + tv_instrs(ts)
            &&& p1@.functions == p0@.functions
            &&& p0@.strings.len() <= p1@.strings.len()
            &&& p0@.labels.len() <= p1@.labels.len()
            &&& forall|x: int| 0 <= x < p0@.strings.len() ==> p1@.strings[x] == p0@.strings[x]
            &&& forall|x: int| 0 <= x < p0@.labels.len() ==> p1@.labels[x] == p0@.labels[x]
            &&& forall|j: int|
                0 <= j < bnames.len() ==> (#[trigger] bnames[j]).0 < p1@.labels.len() && p1@.labels[bnames[j].0 as int].1.0
                    < p1@.strings.len()
            &&& pv == tv_patches(ts, base)
            &&& patches_fit(pv, p1.instructions@)
            &&& p2.instructions@ == apply_label_patches(p1.instructions@, pv, p1@, bnames)
            &&& p1@.strings.len() <= p2@.strings.len()
            &&& forall|x: int| 0 <= x < p1@.strings.len() ==> p2@.strings[x] == p1@.strings[x]
            &&& p2@.labels == p1@.labels
            &&& p2@.functions.len() == k + 1
            &&& forall|x: int| 0 <= x < k ==> p2@.functions[x] == p1@.functions[x]
            &&& p2@.functions[k].start == base
            &&& p2@.functions[k].labels == bnames
        }),
    ensures
        laid_out(p2, fs, k + 1, ps0 + function_patches(pv)),
        patches_consistent(ps0 + function_patches(pv)),
{
    let ts = body_translations(fs[k]);
    let base = p0.instructions@.len() as int;
    let ps2 = ps0 + function_patches(pv);
    let fp = function_patches(pv);
    let v0 = p0.instructions@.map_values(|i: Instruction| i@);
    let v1 = p1.instructions@.map_values(|i: Instruction| i@);
    assert(v1.len() == p1.instructions@.len());
    assert(v0.len() == base);
    assert(tv_instrs(ts).len() == ts.len());
    lemma_tv_patches_at(ts, base);
    lemma_apply_label_patches_kinds(p1.instructions@, pv, p1@, bnames);
    // Earlier functions read the same label names in p0, p1 and p2.
    assert(p0@.labels.len() <= p2@.labels.len());
    assert(p0@.strings.len() <= p2@.strings.len());
    assert forall|x: int| 0 <= x < p0@.strings.len() implies p2@.strings[x] == p0@.strings[x] by {
        assert(p2@.strings[x] == p1@.strings[x]);
    }
    assert forall|x: int, j: int|
        0 <= x < k + 1 && 0 <= j < body_translations(fs[x]).len() implies #[trigger] function_instr(p2, x, j)
        == label_resolved(body_translations(fs[x])[j], p2@, p2@.functions[x].labels) by {
        if x < k {
            let fv = p0@.functions[x];
            assert(function_header_matches(p0@, x, fs[x]));
            assert(p2@.functions[x] == fv);
            assert(0 <= fv.start <= fv.end <= base);
            let o = fv.start + j;
            assert forall|m: int| 0 <= m < pv.len() implies (#[trigger] pv[m]).0 != o || pv[m].1 is Function by {}
            lemma_apply_label_patches_at(p1.instructions@, pv, p1@, bnames, o);
            assert(v1[o] == v0[o]);
            assert(function_instr(p0, x, j) == label_resolved(body_translations(fs[x])[j], p0@, fv.labels));
            lemma_label_names_kept(p0@, p2@, fv.labels);
        } else {
            let o = base + j;
            assert(v1[o] == tv_instrs(ts)[j]);
            lemma_apply_label_patches_at(p1.instructions@, pv, p1@, bnames, o);
            lemma_label_names_kept(p1@, p2@, bnames);
            assert(resolvable_shape(ts[j]));
            match ts[j] {
                TranslatedView::Complete(i) => {
                    assert forall|m: int| 0 <= m < pv.len() implies (#[trigger] pv[m]).0 != o || pv[m].1 is Function by {}
                },
                TranslatedView::ToResolve(i, n) => {
                    if i is Call {
                        assert forall|m: int| 0 <= m < pv.len() implies (#[trigger] pv[m]).0 != o || pv[m].1 is Function by {}
                    } else {
                        let m = choose|m: int| 0 <= m < pv.len() && pv[m] == tv_patch(ts[j], base + j)[0];
                        assert(pv[m] == (o, PatchTarget::Labels(n)));
                        assert(p2.instructions@[o] == patch_labels(p1.instructions@[o], n, p1@, bnames));
                    }
                },
            }
        }
    }
    // Every call keeps a patch naming its function.
    assert forall|x: int, j: int|
        0 <= x < k + 1 && 0 <= j < body_translations(fs[x]).len() implies (#[trigger] body_translations(fs[x])[j] matches TranslatedView::ToResolve(
        InstructionView::Call(_, _, _),
        n,
    ) ==> exists|m: int| 0 <= m < ps2.len() && ps2[m] == (p2@.functions[x].start + j, PatchTarget::Function(n[0]))) by {
        match body_translations(fs[x])[j] {
            TranslatedView::ToResolve(InstructionView::Call(_, _, _), n) => {
                if x < k {
                    let m = choose|m: int| 0 <= m < ps0.len() && ps0[m] == (p0@.functions[x].start + j, PatchTarget::Function(n[0]));
                    assert(ps2[m] == ps0[m]);
                    assert(p2@.functions[x] == p0@.functions[x]);
                } else {
                    let m = choose|m: int| 0 <= m < pv.len() && pv[m] == tv_patch(ts[j], base + j)[0];
                    assert(pv[m] == (base + j, PatchTarget::Function(n[0])));
                    pv.lemma_filter_contains(|pt: (int, PatchTarget)| pt.1 is Function, m);
                    assert(fp.contains(pv[m]));
                    let y = choose|y: int| 0 <= y < fp.len() && fp[y] == pv[m];
                    assert(ps2[ps0.len() + y] == fp[y]);
                }
            },
            _ => {},
        }
    }
    // Patches at one offset still agree.
    assert forall|y: int| 0 <= y < fp.len() implies exists|m: int| 0 <= m < pv.len() && pv[m] == #[trigger] fp[y] by {
        assert(fp.contains(fp[y]));
        pv.lemma_filter_contains_rev(|pt: (int, PatchTarget)| pt.1 is Function, fp[y]);
    }
    assert forall|a: int, b: int|
        0 <= a < ps2.len() && 0 <= b < ps2.len() && (#[trigger] ps2[a]).0 == (#[trigger] ps2[b]).0 implies ps2[a].1
            == ps2[b].1 by {
        if a < ps0.len() && b < ps0.len() {
            assert(ps2[a] == ps0[a]);
            assert(ps2[b] == ps0[b]);
        } else if a >= ps0.len() && b >= ps0.len() {
            let ma = choose|m: int| 0 <= m < pv.len() && pv[m] == fp[a - ps0.len()];
            let mb = choose|m: int| 0 <= m < pv.len() && pv[m] == fp[b - ps0.len()];
            assert(ps2[a] == fp[a - ps0.len()]);
            assert(ps2[b] == fp[b - ps0.len()]);
        } else if a < ps0.len() {
            assert(patch_fits(ps0[a], p0.instructions@));
            let mb = choose|m: int| 0 <= m < pv.len() && pv[m] == fp[b - ps0.len()];
            assert(ps2[b] == fp[b - ps0.len()]);
            assert(ps2[a] == ps0[a]);
        } else {
            assert(patch_fits(ps0[b], p0.instructions@));
            let ma = choose|m: int| 0 <= m < pv.len() && pv[m] == fp[a - ps0.len()];
            assert(ps2[a] == fp[a - ps0.len()]);
            assert(ps2[b] == ps0[b]);
        }
    }
}

/// Resolving the calls of laid-out functions gives each translation its
/// final instruction.
proof fn lemma_resolve_calls(fs: Seq<source::Function>, pf: Program, allps: Seq<(int, PatchTarget)>, r: Program)
    requires
        pf.wf(),
        pf@.functions.len() == fs.len(),
        forall|k: int| 0 <= k < fs.len() ==> function_translatable(#[trigger] fs[k], fs),
        forall|x: int| 0 <= x < fs.len() ==> #[trigger] function_header_matches(pf@, x, fs[x]),
        laid_out(pf, fs, fs.len() as int, allps),
        patches_consistent(allps),
        patches_fit(allps, pf.instructions@),
        r.instructions@ == apply_function_patches(pf.instructions@, allps, pf@),
        r@ == pf@,
    ensures
        forall|k: int, x: int|
            0 <= k < r@.functions.len() && 0 <= x < body_translations(fs[k]).len() ==> #[trigger] function_instr(r, k, x)
                == resolved_translation(body_translations(fs[k])[x], r@, r@.functions[k].labels),
{
    assert forall|k: int, x: int|
        0 <= k < r@.functions.len() && 0 <= x < body_translations(fs[k]).len() implies #[trigger] function_instr(r, k, x)
        == resolved_translation(body_translations(fs[k])[x], r@, r@.functions[k].labels) by {
        let f = fs[k];
        let ts = body_translations(f);
        let fv = pf@.functions[k];
        assert(function_header_matches(pf@, k, f));
        let o = fv.start + x;
        assert(function_instr(pf, k, x) == label_resolved(ts[x], pf@, fv.labels));
        assert(function_translatable(f, fs));
        lemma_run_translate_shapes(args_state(f.args@), f.instrs@);
        assert(resolvable_shape(ts[x]));
        assert(0 <= fv.start <= fv.end <= pf.instructions@.len());
        lemma_apply_function_patches_at(pf.instructions@, allps, pf@, o);
        match ts[x] {
            TranslatedView::ToResolve(InstructionView::Call(d, _, a), n) => {
                let m = choose|m: int| 0 <= m < allps.len() && allps[m] == (fv.start + x, PatchTarget::Function(n[0]));
                assert(r.instructions@[o] == set_callee(
                    pf.instructions@[o],
                    FunctionIdx(first_function_named(pf@, n[0]) as u32),
                ));
            },
            _ => {
                assert(!(pf.instructions@[o] is Call));
            },
        }
    }
}

/// Function `x` of `p` is the flattening of `f`: its name, parameters and
/// return type, its size, where it starts (where the one before it ends),
/// and the names of its labels, one per basic block.
pub open spec fn function_header_matches(p: ProgramView, x: int, f: source::Function) -> bool {
    let fv = p.functions[x];
    &&& p.strings[fv.name.0 as int] == f.name@
    &&& fv.parameters == param_vars(f.args@)
    &&& fv.return_type == f.return_type
    &&& fv.end - fv.start == body_translations(f).len()
    &&& fv.start == if x == 0 {
        0
    } else {
        p.functions[x - 1].end
    }
    &&& fv.labels.len() == block_names_of(f.instrs@).len()
    &&& forall|c: int| 0 <= c < fv.labels.len() ==> label_name_of(p, #[trigger] fv.labels[c]) == block_names_of(f.instrs@)[c]
    &&& forall|c: int| 0 <= c < fv.labels.len() ==> p.labels[(#[trigger] fv.labels[c]).0 as int].0 == fv.start + block_offset(f, c)
}

/// Where block `c` of a function's body starts among its translations.
pub open spec fn block_offset(f: source::Function, c: int) -> int {
    run_translate(args_state(f.args@), f.instrs@.take(block_starts(f.instrs@)[c])).0.len() as int
}

/// Laying out one more function keeps the headers of the earlier ones and
/// gives the new one its own.
proof fn lemma_header_step(
    fs: Seq<source::Function>,
    k: int,
    p0: Program,
    p1: Program,
    p2: Program,
    bnames: Seq<LabelIdx>,
)
    requires
        0 <= k < fs.len(),
        p0.wf(),
        p0@.functions.len() == k,
        forall|x: int| 0 <= x < k ==> #[trigger] function_header_matches(p0@, x, fs[x]),
        p0.instructions@.len() == if k == 0 {
            0
        } else {
            p0@.functions[k - 1].end
        },
        p1@.functions == p0@.functions,
        p0@.strings.len() <= p1@.strings.len(),
        p0@.labels.len() <= p1@.labels.len(),
        forall|x: int| 0 <= x < p0@.strings.len() ==> p1@.strings[x] == p0@.strings[x],
        forall|x: int| 0 <= x < p0@.labels.len() ==> p1@.labels[x] == p0@.labels[x],
        forall|j: int|
            0 <= j < bnames.len() ==> (#[trigger] bnames[j]).0 < p1@.labels.len() && p1@.labels[bnames[j].0 as int].1.0
                < p1@.strings.len(),
        bnames.len() == block_names_of(fs[k].instrs@).len(),
        forall|c: int| 0 <= c < bnames.len() ==> label_name_of(p1@, #[trigger] bnames[c]) == block_names_of(fs[k].instrs@)[c],
        forall|c: int| 0 <= c < bnames.len() ==> p1@.labels[(#[trigger] bnames[c]).0 as int].0 == p0.instructions@.len() + block_offset(fs[k], c),
        p1@.strings.len() < p2@.strings.len(),
        forall|x: int| 0 <= x < p1@.strings.len() ==> p2@.strings[x] == p1@.strings[x],
        p2@.labels == p1@.labels,
        p2@.functions.len() == k + 1,
        forall|x: int| 0 <= x < k ==> p2@.functions[x] == p1@.functions[x],
        ({
            let fv = p2@.functions[k];
            &&& fv.start == p0.instructions@.len()
            &&& fv.end == p0.instructions@.len() + body_translations(fs[k]).len()
            &&& p2@.strings[fv.name.0 as int] == fs[k].name@
            &&& fv.parameters == param_vars(fs[k].args@)
            &&& fv.return_type == fs[k].return_type
            &&& fv.labels == bnames
        }),
    ensures
        forall|x: int| 0 <= x < k + 1 ==> #[trigger] function_header_matches(p2@, x, fs[x]),
{
    assert forall|x: int| 0 <= x < k + 1 implies #[trigger] function_header_matches(p2@, x, fs[x]) by {
        let fv = p2@.functions[x];
        if x < k {
            assert(function_header_matches(p0@, x, fs[x]));
            assert(fv == p0@.functions[x]);
            assert(fv.name.0 < p0@.strings.len());
            assert(p2@.strings[fv.name.0 as int] == p0@.strings[fv.name.0 as int]);
            if x > 0 {
                assert(p2@.functions[x - 1] == p0@.functions[x - 1]);
            }
            assert forall|c: int| 0 <= c < fv.labels.len() implies label_name_of(p2@, #[trigger] fv.labels[c])
                == label_name_of(p0@, fv.labels[c]) && p2@.labels[fv.labels[c].0 as int] == p0@.labels[fv.labels[c].0 as int] by {
                let l = fv.labels[c];
                assert(l.0 < p0@.labels.len());
                assert(p0@.labels[l.0 as int].1.0 < p0@.strings.len());
                assert(p2@.labels[l.0 as int] == p0@.labels[l.0 as int]);
            }
        } else {
            if k > 0 {
                assert(p2@.functions[k - 1] == p0@.functions[k - 1]);
            }
            assert forall|c: int| 0 <= c < fv.labels.len() implies label_name_of(p2@, #[trigger] fv.labels[c])
                == label_name_of(p1@, fv.labels[c]) && p2@.labels[fv.labels[c].0 as int] == p1@.labels[fv.labels[c].0 as int] by {
                let l = bnames[c];
                assert(fv.labels[c] == l);
            }
        }
    }
}

/// Flattens a program: its functions, in order, each a range of one
/// instruction buffer, jumps and branches resolved to the labels of their
/// function and calls to the first function of their name.
pub fn flattened_program_repr(input: source::Program) -> (r: crate::ir::Program)
    requires
        forall|k: int| 0 <= k < input.functions@.len() ==> function_translatable(#[trigger] input.functions@[k], input.functions@),
        sum_lines(input.functions@, input.functions@.len() as int) < u32::MAX,
    ensures
        r.wf(),
        r@.functions.len() == input.functions@.len(),
        forall|k: int| 0 <= k < r@.functions.len() ==> #[trigger] function_header_matches(r@, k, input.functions@[k]),
        r.instructions@.len() == if r@.functions.len() == 0 {
            0
        } else {
            r@.functions[r@.functions.len() - 1].end
        },
        forall|k: int, x: int|
            0 <= k < r@.functions.len() && 0 <= x < body_translations(input.functions@[k]).len() ==> #[trigger] function_instr(
                r,
                k,
                x,
            ) == resolved_translation(body_translations(input.functions@[k])[x], r@, r@.functions[k].labels),
{
    let ghost fs = input.functions@;
    let mut program_builder = ProgramBuilder::new();
    let mut k: usize = 0;
    proof {
        lemma_sum_lines_mono(fs, 0, fs.len() as int);
    }
    while k < input.functions.len()
        invariant
            fs == input.functions@,
            forall|x: int| 0 <= x < fs.len() ==> function_translatable(#[trigger] fs[x], fs),
            sum_lines(fs, fs.len() as int) < u32::MAX,
            fs.len() <= sum_lines(fs, fs.len() as int),
            k <= fs.len(),
            program_builder.wf(),
            ({
                let p = program_builder.program;
                &&& p@.functions.len() == k
                &&& p@.strings.len() <= sum_lines(fs, k as int)
                &&& p@.labels.len() <= sum_lines(fs, k as int)
                &&& p.instructions@.len() <= sum_lines(fs, k as int)
                &&& forall|x: int| 0 <= x < k ==> #[trigger] function_header_matches(p@, x, fs[x])
                &&& p.instructions@.len() == if k == 0 {
                    0
                } else {
                    p@.functions[k - 1].end
                }
                &&& forall|m: int| 0 <= m < program_builder.patches@.len() ==> match (#[trigger] patch_views(program_builder.patches@)[m]).1 {
                    PatchTarget::Function(name) => exists|g: int| 0 <= g < fs.len() && (#[trigger] fs[g]).name@ == name,
                    PatchTarget::Labels(_) => true,
                }
            }),
            laid_out(program_builder.program, fs, k as int, patch_views(program_builder.patches@)),
            patches_consistent(patch_views(program_builder.patches@)),
        decreases fs.len() - k,
    {
        let function = &input.functions[k];
        let ghost f = fs[k as int];
        let ghost p0 = program_builder.program;
        let ghost pb_patches0 = patch_views(program_builder.patches@);
        proof {
            lemma_sum_lines_mono(fs, k + 1, fs.len() as int);
            assert(sum_lines(fs, k + 1) == sum_lines(fs, k as int) + f.instrs@.len() + 1);
            lemma_run_translate_len(args_state(f.args@), f.instrs@);
            lemma_run_translate_shapes(args_state(f.args@), f.instrs@);
            assert(function_translatable(f, fs));
        }
        let mut fn_builder = program_builder.new_function(function.name.clone());
        build_fn(&mut fn_builder, function);
        let ghost ts = body_translations(f);
        let ghost p1 = fn_builder.program_builder.program;
        let ghost base = p0.instructions@.len() as int;
        let ghost pv = patch_views(fn_builder.patches@);
        let ghost bnames = fn_builder.block_names@;
        proof {
            assert forall|m: int| 0 <= m < pv.len() implies match (#[trigger] pv[m]).1 {
                PatchTarget::Labels(names) => {
                    &&& forall|j: int| 0 <= j < names.len() ==> find_block_label(p1@, bnames, #[trigger] names[j]) is Some
                    &&& p1.instructions@[pv[m].0] is Jmp ==> names.len() >= 1
                    &&& p1.instructions@[pv[m].0] is Br ==> names.len() >= 2
                },
                PatchTarget::Function(_) => true,
            } by {
                lemma_tv_patches_member(ts, base, m);
                let x = choose|x: int| 0 <= x < ts.len() && (#[trigger] ts[x]) is ToResolve && tv_patches(ts, base)[m] == tv_patch(ts[x], base + x)[0];
                assert(resolvable_shape(ts[x]));
                assert(p1.instructions@.map_values(|i: Instruction| i@)[base + x] == tv_instrs(ts)[x]);
                assert(p0.instructions@.map_values(|i: Instruction| i@).len() == base);
                match ts[x] {
                    TranslatedView::ToResolve(i, n) => {
                        if !(i is Call) {
                            assert forall|j: int| 0 <= j < n.len() implies find_block_label(p1@, bnames, #[trigger] n[j]) is Some by {
                                assert(function_translatable(f, fs));
                                assert(block_names_of(f.instrs@).contains(n[j]));
                                let c = choose|c: int| 0 <= c < block_names_of(f.instrs@).len() && block_names_of(f.instrs@)[c] == n[j];
                                lemma_block_names_upto_len(f.instrs@, 0, block_starts(f.instrs@).len() as int);
                                lemma_find_block_label_found(p1@, bnames, n[j], c);
                            }
                        }
                    },
                    _ => {},
                }
            }
        }
        proof {
            assert(p1@.strings.len() < u32::MAX);
            lemma_apply_label_patches_kinds(p1.instructions@, pv, p1@, bnames);
        }
        fn_builder.finish();
        proof {
            let p2 = program_builder.program;
            assert(p1@.strings.len() <= p2@.strings.len());
            assert(p1.wf());
            assert forall|j: int| 0 <= j < bnames.len() implies (#[trigger] bnames[j]).0 < p1@.labels.len() && p1@.labels[bnames[j].0 as int].1.0
                    < p1@.strings.len() by {
                assert(bnames[j].0 < p1@.labels.len());
            }
            assert(p1.instructions@.len() == base + ts.len()) by {
                assert(p1.instructions@.map_values(|i: Instruction| i@).len() == p1.instructions@.len());
                assert(p0.instructions@.map_values(|i: Instruction| i@).len() == p0.instructions@.len());
                assert(tv_instrs(ts).len() == ts.len());
            }
            assert(p2@.functions[k as int].start == base);
            assert(p2@.functions[k as int].labels == bnames);
            assert(forall|x: int| 0 <= x < k ==> p2@.functions[x] == p1@.functions[x]);
            assert(patches_fit(pv, p1.instructions@));
            lemma_lay_out_function(fs, k as int, p0, p1, p2, pb_patches0, pv, bnames);
            assert(p2.instructions@.len() == p1.instructions@.len());
            assert(p1.instructions@.map_values(|i: Instruction| i@).len() == p1.instructions@.len());
            assert(p0.instructions@.map_values(|i: Instruction| i@).len() == p0.instructions@.len());
            assert(tv_instrs(ts).len() == ts.len());
            assert forall|m: int| 0 <= m < program_builder.patches@.len() implies match (#[trigger] patch_views(program_builder.patches@)[m]).1 {
                PatchTarget::Function(name) => exists|g: int| 0 <= g < fs.len() && (#[trigger] fs[g]).name@ == name,
                PatchTarget::Labels(_) => true,
            } by {
                let all = patch_views(program_builder.patches@);
                if m >= pb_patches0.len() {
                    let fp = function_patches(pv);
                    assert(all == pb_patches0 + fp);
                    assert(all.len() == program_builder.patches@.len());
                    assert(all[m] == fp[m - pb_patches0.len()]);
                    assert(fp.contains(fp[m - pb_patches0.len()]));
                    pv.lemma_filter_contains_rev(|pt: (int, PatchTarget)| pt.1 is Function, fp[m - pb_patches0.len()]);
                    assert(pv.contains(fp[m - pb_patches0.len()]));
                    let y = choose|y: int| 0 <= y < pv.len() && pv[y] == fp[m - pb_patches0.len()];
                    lemma_tv_patches_member(ts, base, y);
                    let x = choose|x: int| 0 <= x < ts.len() && (#[trigger] ts[x]) is ToResolve && tv_patches(ts, base)[y] == tv_patch(ts[x], base + x)[0];
                    assert(function_translatable(f, fs));
                    assert(resolvable_shape(ts[x]));
                } else {
                    assert(all[m] == pb_patches0[m]);
                }
            }
            lemma_block_names_upto_len(f.instrs@, 0, block_starts(f.instrs@).len() as int);
            lemma_header_step(fs, k as int, p0, p1, p2, bnames);
        }
        k = k + 1;
    }
    proof {
        let p = program_builder.program;
        assert forall|m: int| 0 <= m < patch_views(program_builder.patches@).len() implies match (#[trigger] patch_views(program_builder.patches@)[m]).1 {
            PatchTarget::Function(name) => exists|i: int| function_named(p@, name, i),
            PatchTarget::Labels(_) => true,
        } by {
            match patch_views(program_builder.patches@)[m].1 {
                PatchTarget::Function(name) => {
                    let g = choose|g: int| 0 <= g < fs.len() && (#[trigger] fs[g]).name@ == name;
                    assert(function_header_matches(p@, g, fs[g]));
                    assert(function_named(p@, name, g));
                },
                _ => {},
            }
        }
    }
    let ghost pf = program_builder.program;
    let ghost allps = patch_views(program_builder.patches@);
    let r = program_builder.finish();
    proof {
        lemma_resolve_calls(fs, pf, allps, r);
        lemma_apply_function_patches_len(pf.instructions@, allps, pf@);
    }
    r
}

} // verus!

verus! {

/// Whether every name of `args` names a variable.
fn args_named(ib: &InstrBuilder, args: &Vec<String>) -> (r: bool)
    ensures
        r == args_defined(ib.state(), args@),
{
    let mut k: usize = 0;
    while k < args.len()
        invariant
            k <= args@.len(),
            forall|j: int| 0 <= j < k ==> (#[trigger] lookup_var(ib.state().0, args@[j]@)) is Some,
        decreases args.len() - k,
    {
        if ib.lookup(args[k].as_str()).is_none() {
            return false;
        }
        k = k + 1;
    }
    true
}

/// Whether the builder can translate `instr` in its state.
fn instr_translatable(ib: &InstrBuilder, instr: &source::Instruction) -> (r: bool)
    ensures
        r == translatable(ib.state(), *instr),
{
    match instr {
        source::Instruction::Constant { .. } => ib.next_var < 0xffff_ffffu32,
        source::Instruction::Value { args, dest: _, funcs, labels: _, op, op_type: _ } => {
            let arity: usize = match op {
                source::ValueOps::Not | source::ValueOps::Id => 1,
                source::ValueOps::Call => 0,
                _ => 2,
            };
            ib.next_var < 0xffff_ffffu32 && args_named(ib, args) && args.len() >= arity && (!matches!(
                op,
                source::ValueOps::Call
            ) || funcs.len() >= 1)
        },
        source::Instruction::Effect { args, funcs, labels, op } => {
            args_named(ib, args) && !matches!(op, source::EffectOps::Nop) && (!matches!(op, source::EffectOps::Branch) || (
            args.len() >= 1 && labels.len() >= 2)) && (!matches!(op, source::EffectOps::Jump) || labels.len() >= 1) && (
            !matches!(op, source::EffectOps::Call) || funcs.len() >= 1)
        },
    }
}

/// The names of the blocks of a body, in order: a block's label, or `L<n>`
/// for the `n`th block without one.
fn block_names(codes: &[source::Code]) -> (r: Vec<String>)
    requires
        codes@.len() > 0,
    ensures
        names(r@) == block_names_of(codes@),
{
    let ghost cs = codes@;
    let chunks = basic_block_split(codes);
    proof {
        lemma_block_starts_props(cs, cs.len() as int);
    }
    let mut out: Vec<String> = Vec::new();
    let mut id: usize = 0;
    let mut c: usize = 0;
    while c < chunks.len()
        invariant
            chunks@.len() == block_starts(cs).len(),
            forall|x: int| 0 <= x < chunks@.len() ==> (#[trigger] chunks@[x])@ == cs.subrange(block_starts(cs)[x], block_end(cs, x)),
            forall|i: int, j: int| 0 <= i < j < block_starts(cs).len() ==> block_starts(cs)[i] < block_starts(cs)[j],
            forall|i: int| 0 <= i < block_starts(cs).len() ==> 0 <= #[trigger] block_starts(cs)[i] < cs.len(),
            block_starts(cs).len() <= cs.len(),
            c <= chunks@.len(),
            names(out@) == block_names_upto(cs, 0, c as int).0,
            id == block_names_upto(cs, 0, c as int).1,
            id <= c,
        decreases chunks.len() - c,
    {
        let chunk = chunks[c];
        proof {
            if c + 1 < block_starts(cs).len() {
                assert(block_starts(cs)[c as int] < block_starts(cs)[c + 1]);
            }
            assert(chunk@.len() > 0);
            assert(chunk@[0] == cs[block_starts(cs)[c as int]]);
            lemma_block_names_upto_len(cs, 0, c as int);
        }
        let ghost out0 = out@;
        match &chunk[0] {
            source::Code::Label { label } => {
                out.push(label.clone());
            },
            _ => {
                proof {
                    reveal_strlit("L");
                }
                let mut name = "L".to_owned();
                let digits = decimal_string(id as u64);
                name.append(digits.as_str());
                proof {
                    assert(name@ =~= seq!['L'] + decimal(id as nat));
                }
                out.push(name);
                id = id + 1;
            },
        }
        proof {
            assert(names(out@) =~= names(out0).push(out@[c as int]@));
            let prev = block_names_upto(cs, 0, c as int);
            assert(block_label_of(cs, c as int) == match chunk@[0] {
                source::Code::Label { label } => Some(label@),
                _ => None,
            });
            assert(block_names_upto(cs, 0, c + 1) == match block_label_of(cs, c as int) {
                Some(l) => (prev.0.push(l), prev.1),
                None => (prev.0.push(seq!['L'] + decimal(prev.1)), prev.1 + 1),
            });
        }
        c = c + 1;
    }
    out
}

/// Whether `name` is among `ns`.
fn contains_name(ns: &Vec<String>, name: &str) -> (r: bool)
    ensures
        r == names(ns@).contains(name@),
{
    let mut k: usize = 0;
    while k < ns.len()
        invariant
            k <= ns@.len(),
            forall|j: int| 0 <= j < k ==> ns@[j]@ != name@,
        decreases ns.len() - k,
    {
        if crate::ir::str_eq(ns[k].as_str(), name) {
            proof {
                assert(names(ns@)[k as int] == name@);
            }
            return true;
        }
        k = k + 1;
    }
    proof {
        if names(ns@).contains(name@) {
            let j = choose|j: int| 0 <= j < names(ns@).len() && names(ns@)[j] == name@;
            assert(ns@[j]@ == name@);
        }
    }
    false
}

/// Whether every name of `ns` is among `known`, the names of `bn`.
fn labels_known(bn: &Vec<String>, ns: &Vec<String>, Ghost(known): Ghost<Seq<Seq<char>>>) -> (r: bool)
    requires
        names(bn@) == known,
    ensures
        r == forall|j: int| 0 <= j < names(ns@).len() ==> known.contains(#[trigger] names(ns@)[j]),
{
    let mut j: usize = 0;
    while j < ns.len()
        invariant
            j <= ns@.len(),
            names(bn@) == known,
            forall|q: int| 0 <= q < j ==> known.contains(#[trigger] names(ns@)[q]),
        decreases ns.len() - j,
    {
        if !contains_name(bn, ns[j].as_str()) {
            proof {
                assert(names(ns@)[j as int] == ns@[j as int]@);
            }
            return false;
        }
        j = j + 1;
    }
    true
}

/// Whether some function of `fs` is named `name`.
fn function_exists(fs: &Vec<source::Function>, name: &str) -> (r: bool)
    ensures
        r == exists|g: int| 0 <= g < fs@.len() && (#[trigger] fs@[g]).name@ == name@,
{
    let mut k: usize = 0;
    while k < fs.len()
        invariant
            k <= fs@.len(),
            forall|j: int| 0 <= j < k ==> (#[trigger] fs@[j]).name@ != name@,
        decreases fs.len() - k,
    {
        if crate::ir::str_eq(fs[k].name.as_str(), name) {
            return true;
        }
        k = k + 1;
    }
    false
}

/// Whether `flattened_program_repr` can translate function `f` of the
/// functions `fs`: its body is not empty, each instruction can be
/// translated where it stands, each jump and branch names blocks of the
/// function, and each call names a function.
pub fn function_can_be_translated(f: &source::Function, fs: &Vec<source::Function>) -> (r: bool)
    ensures
        r == function_translatable(*f, fs@),
{
    if f.instrs.len() == 0 {
        return false;
    }
    if f.args.len() > 0xffff_ffffusize {
        return false;
    }
    let ghost codes = f.instrs@;
    let ghost st0 = args_state(f.args@);
    let mut ib = InstrBuilder::with_args(f.args.as_slice());
    let mut ts: Vec<Translated> = Vec::new();
    let mut x: usize = 0;
    proof {
        assert(codes.take(0) =~= Seq::<source::Code>::empty());
    }
    while x < f.instrs.len()
        invariant
            codes == f.instrs@,
            st0 == args_state(f.args@),
            x <= codes.len(),
            run_translatable(st0, codes.take(x as int)),
            ib.state() == run_translate(st0, codes.take(x as int)).1,
            ts@.map_values(|t: Translated| translated_view(t)) == run_translate(st0, codes.take(x as int)).0,
        decreases f.instrs.len() - x,
    {
        proof {
            lemma_run_translate_step(st0, codes, x as int);
            assert(codes.take(x + 1).drop_last() =~= codes.take(x as int));
            assert(codes.take(x + 1).last() == codes[x as int]);
        }
        match &f.instrs[x] {
            source::Code::Label { .. } => {},
            source::Code::Instruction(i) => {
                if !instr_translatable(&ib, i) {
                    proof {
                        if run_translatable(st0, codes) {
                            lemma_run_translatable_prefix(st0, codes, x + 1);
                        }
                    }
                    return false;
                }
                let ghost ts0 = ts@;
                let t = ib.translate(i);
                ts.push(t);
                proof {
                    assert(ts@.map_values(|t: Translated| translated_view(t)) =~= ts0.map_values(
                        |t: Translated| translated_view(t),
                    ).push(translated_view(t)));
                }
            },
        }
        x = x + 1;
    }
    proof {
        assert(codes.take(codes.len() as int) =~= codes);
        lemma_run_translate_shapes(st0, codes);
    }
    let ghost bt = body_translations(*f);
    let bn = block_names(f.instrs.as_slice());
    let mut y: usize = 0;
    while y < ts.len()
        invariant
            bt == body_translations(*f),
            bt == ts@.map_values(|t: Translated| translated_view(t)),
            names(bn@) == block_names_of(f.instrs@),
            forall|z: int| 0 <= z < bt.len() ==> resolvable_shape(#[trigger] bt[z]),
            y <= ts@.len(),
            forall|z: int|
                0 <= z < y ==> match #[trigger] bt[z] {
                    TranslatedView::ToResolve(i, n) => if i is Call {
                        exists|g: int| 0 <= g < fs@.len() && (#[trigger] fs@[g]).name@ == n[0]
                    } else {
                        forall|j: int| 0 <= j < n.len() ==> block_names_of(f.instrs@).contains(#[trigger] n[j])
                    },
                    TranslatedView::Complete(_) => true,
                },
        decreases ts.len() - y,
    {
        proof {
            assert(bt[y as int] == translated_view(ts@[y as int]));
            assert(resolvable_shape(bt[y as int]));
        }
        match &ts[y] {
            Translated::Complete(_) => {},
            Translated::ToResolve(i, n) => {
                if matches!(i, Instruction::Call(..)) {
                    if !function_exists(fs, n[0].as_str()) {
                        return false;
                    }
                } else {
                    proof {
                        assert(bt[y as int] == TranslatedView::ToResolve(i@, names(n@)));
                    }
                    if !labels_known(&bn, n, Ghost(block_names_of(f.instrs@))) {
                        return false;
                    }
                }
            },
        }
        y = y + 1;
    }
    true
}

/// Whether `flattened_program_repr` can translate the program: it can
/// translate each function, and the program's lines, one more for each
/// function, fit the tables of a program.
pub fn program_translatable(input: &source::Program) -> (r: bool)
    ensures
        r == ((forall|k: int| 0 <= k < input.functions@.len() ==> function_translatable(#[trigger] input.functions@[k], input.functions@))
            && sum_lines(input.functions@, input.functions@.len() as int) < u32::MAX),
{
    let ghost fs = input.functions@;
    let mut total: u64 = 0;
    let mut k: usize = 0;
    while k < input.functions.len()
        invariant
            fs == input.functions@,
            k <= fs.len(),
            total == sum_lines(fs, k as int),
            total < u32::MAX,
            forall|j: int| 0 <= j < k ==> function_translatable(#[trigger] fs[j], fs),
        decreases input.functions.len() - k,
    {
        let len = input.functions[k].instrs.len();
        if len as u64 >= 0xffff_ffffu64 - total - 1 {
            proof {
                lemma_sum_lines_mono(fs, k + 1, fs.len() as int);
            }
            return false;
        }
        if !function_can_be_translated(&input.functions[k], &input.functions) {
            return false;
        }
        total = total + len as u64 + 1;
        k = k + 1;
    }
    true
}

} // verus!
