//! Bril's text form of flattened programs.
use vstd::prelude::*;

use crate::ir::{
    named_args, named_dest, opcode, label_entry, label_view, sort_by_offset, Function, Instruction, Label, LabelIdx, Program, ProgramView, Type, Value,
    Variable,
};
use crate::text::{decimal, push_decimal, push_signed_decimal, signed_decimal};

verus! {

/// The name of a type.
pub open spec fn type_text(t: Type) -> Seq<char> {
    match t {
        Type::Int => "int"@,
        Type::Bool => "bool"@,
    }
}

/// A literal as written.
pub open spec fn value_text(v: Value) -> Seq<char> {
    match v {
        Value::Bool(b) => if b {
            "true"@
        } else {
            "false"@
        },
        Value::Int(n) => signed_decimal(n as int),
    }
}

/// A variable: `x` and its number.
pub open spec fn var_text(v: Variable) -> Seq<char> {
    "x"@ + decimal(v.0 as nat)
}

/// A variable with its type.
pub open spec fn decl_text(v: Variable) -> Seq<char> {
    var_text(v) + ": "@ + type_text(v.1)
}

/// Variables separated by spaces.
pub open spec fn vars_text(vs: Seq<Variable>) -> Seq<char>
    decreases vs.len(),
{
    if vs.len() == 0 {
        Seq::empty()
    } else if vs.len() == 1 {
        var_text(vs[0])
    } else {
        vars_text(vs.drop_last()) + " "@ + var_text(vs.last())
    }
}

/// Typed variables separated by commas.
pub open spec fn params_text(vs: Seq<Variable>) -> Seq<char>
    decreases vs.len(),
{
    if vs.len() == 0 {
        Seq::empty()
    } else if vs.len() == 1 {
        decl_text(vs[0])
    } else {
        params_text(vs.drop_last()) + ", "@ + decl_text(vs.last())
    }
}

/// The name of a label of a program.
pub open spec fn label_text(p: ProgramView, l: LabelIdx) -> Seq<char> {
    p.strings[p.labels[l.0 as int].1.0 as int]
}

/// `dest: type = op a b;`.
pub open spec fn binary_text(op: Seq<char>, d: Variable, a: Variable, b: Variable) -> Seq<char> {
    decl_text(d) + " = "@ + op + " "@ + var_text(a) + " "@ + var_text(b) + ";\n"@
}

/// `dest: type = op a;`.
pub open spec fn unary_text(op: Seq<char>, d: Variable, a: Variable) -> Seq<char> {
    decl_text(d) + " = "@ + op + " "@ + var_text(a) + ";\n"@
}

/// An instruction as written, on a line of its own; a `nop` is not written.
pub open spec fn instr_text(p: ProgramView, i: Instruction) -> Seq<char> {
    match i {
        Instruction::Add(d, a, b) => binary_text("add"@, d, a, b),
        Instruction::Sub(d, a, b) => binary_text("sub"@, d, a, b),
        Instruction::Mul(d, a, b) => binary_text("mul"@, d, a, b),
        Instruction::Div(d, a, b) => binary_text("div"@, d, a, b),
        Instruction::Eq(d, a, b) => binary_text("eq"@, d, a, b),
        Instruction::Lt(d, a, b) => binary_text("lt"@, d, a, b),
        Instruction::Gt(d, a, b) => binary_text("gt"@, d, a, b),
        Instruction::Le(d, a, b) => binary_text("le"@, d, a, b),
        Instruction::Ge(d, a, b) => binary_text("ge"@, d, a, b),
        Instruction::Not(d, a) => unary_text("not"@, d, a),
        Instruction::And(d, a, b) => binary_text("and"@, d, a, b),
        Instruction::Or(d, a, b) => binary_text("or"@, d, a, b),
        Instruction::Jmp(l) => "jmp ."@ + label_text(p, l) + ";\n"@,
        Instruction::Br(c, t, f) => "br "@ + var_text(c) + " ."@ + label_text(p, t) + " ."@ + label_text(p, f)
            + ";\n"@,
        Instruction::Call(dest, f, args) => {
            let name = p.strings[p.functions[f.0 as int].name.0 as int];
            match dest {
                Some(d) => decl_text(d) + " = call @"@ + name + " "@ + vars_text(args@) + ";\n"@,
                None => "call @"@ + name + " "@ + vars_text(args@) + ";\n"@,
            }
        },
        Instruction::Ret(r) => match r {
            Some(v) => "ret "@ + var_text(v) + ";\n"@,
            None => "ret;\n"@,
        },
        Instruction::Const(d, v) => decl_text(d) + " = const "@ + value_text(v) + ";\n"@,
        Instruction::Id(d, a) => unary_text("id"@, d, a),
        Instruction::Print(args) => "print "@ + vars_text(args@) + ";\n"@,
        Instruction::Nop => Seq::empty(),
    }
}

/// Each binary operation is printed as `dest: type = word a b;`, where the
/// word is the Bril word of its own operation and `a`, `b` its operands in
/// order.
pub proof fn lemma_printed_binary(p: ProgramView, i: Instruction)
    requires
        i is Add || i is Sub || i is Mul || i is Div || i is Eq || i is Lt || i is Gt || i is Le || i is Ge || i is And
            || i is Or,
    ensures
        named_args(i@).len() == 2,
        instr_text(p, i) == decl_text(named_dest(i@)->0) + " = "@ + opcode(i@) + " "@ + var_text(named_args(i@)[0]) + " "@
            + var_text(named_args(i@)[1]) + ";\n"@,
{
}

/// `not` and `id` are printed as `dest: type = word a;` with the Bril word
/// of their own operation.
pub proof fn lemma_printed_unary(p: ProgramView, i: Instruction)
    requires
        i is Not || i is Id,
    ensures
        named_args(i@).len() == 1,
        instr_text(p, i) == decl_text(named_dest(i@)->0) + " = "@ + opcode(i@) + " "@ + var_text(named_args(i@)[0]) + ";\n"@,
{
}

/// A constant is printed as `dest: type = const value;`, and a call with a
/// destination as `dest: type = call @name args;`: after the declaration
/// comes the Bril word of the operation.
pub proof fn lemma_printed_definition(p: ProgramView, i: Instruction)
    requires
        i is Const || (i is Call && named_dest(i@) is Some),
    ensures
        ({
            let t = instr_text(p, i);
            let pre = decl_text(named_dest(i@)->0) + " = "@;
            &&& t.len() >= pre.len() + opcode(i@).len()
            &&& t.take(pre.len() as int) == pre
            &&& t.subrange(pre.len() as int, (pre.len() + opcode(i@).len()) as int) == opcode(i@)
        }),
{
    reveal_strlit(" = const ");
    reveal_strlit(" = call @");
    reveal_strlit(" = ");
    reveal_strlit("const");
    reveal_strlit("call");
    let t = instr_text(p, i);
    let w = opcode(i@);
    let pre = decl_text(named_dest(i@)->0) + " = "@;
    match i {
        Instruction::Const(d, v) => {
            assert(" = const "@ =~= " = "@ + "const"@ + " "@) by {
                reveal_strlit(" ");
            }
            assert(t =~= pre + w + (" "@ + value_text(v) + ";\n"@));
        },
        Instruction::Call(od, f, args) => {
            let name = p.strings[p.functions[f.0 as int].name.0 as int];
            assert(" = call @"@ =~= " = "@ + "call"@ + " @"@) by {
                reveal_strlit(" @");
            }
            assert(t =~= pre + w + (" @"@ + name + " "@ + vars_text(args@) + ";\n"@));
        },
        _ => {},
    }
    assert(t.take(pre.len() as int) =~= pre);
    assert(t.subrange(pre.len() as int, (pre.len() + w.len()) as int) =~= w);
}

/// Jumps, branches, returns, prints and calls without a destination begin
/// with the Bril word of their operation.
pub proof fn lemma_printed_effect_word(p: ProgramView, i: Instruction)
    requires
        i is Jmp || i is Br || i is Ret || i is Print || (i is Call && named_dest(i@) is None),
    ensures
        instr_text(p, i).len() >= opcode(i@).len(),
        instr_text(p, i).take(opcode(i@).len() as int) == opcode(i@),
{
    reveal_strlit("jmp .");
    reveal_strlit("jmp");
    reveal_strlit("br ");
    reveal_strlit("br");
    reveal_strlit("ret ");
    reveal_strlit("ret;\n");
    reveal_strlit("ret");
    reveal_strlit("print ");
    reveal_strlit("print");
    reveal_strlit("call @");
    reveal_strlit("call");
    let t = instr_text(p, i);
    let w = opcode(i@);
    match i {
        Instruction::Jmp(l) => {
            assert(t == "jmp ."@ + (label_text(p, l) + ";\n"@));
        },
        Instruction::Br(c, tl, fl) => {
            assert(t == "br "@ + (var_text(c) + " ."@ + label_text(p, tl) + " ."@ + label_text(p, fl) + ";\n"@));
        },
        Instruction::Ret(r) => {
            if r is Some {
                assert(t == "ret "@ + (var_text(r->0) + ";\n"@));
            }
        },
        Instruction::Print(args) => {
            assert(t == "print "@ + (vars_text(args@) + ";\n"@));
        },
        Instruction::Call(d, f, args) => {
            let name = p.strings[p.functions[f.0 as int].name.0 as int];
            assert(t == "call @"@ + (name + " "@ + vars_text(args@) + ";\n"@));
        },
        _ => {},
    }
    assert(t.take(w.len() as int) =~= w);
}

/// The labels of `ls` that stand at `offset`, each on a line of its own.
pub open spec fn labels_at_text(ls: Seq<(LabelIdx, Seq<char>, int)>, offset: int) -> Seq<char>
    decreases ls.len(),
{
    if ls.len() == 0 {
        Seq::empty()
    } else {
        labels_at_text(ls.drop_last(), offset) + if ls.last().2 == offset {
            "."@ + ls.last().1 + ":\n"@
        } else {
            Seq::empty()
        }
    }
}

/// The first `n` instructions, each indented and preceded by its labels.
pub open spec fn body_text(
    p: ProgramView,
    instrs: Seq<Instruction>,
    ls: Seq<(LabelIdx, Seq<char>, int)>,
    n: int,
) -> Seq<char>
    decreases n,
{
    if n <= 0 {
        Seq::empty()
    } else {
        body_text(p, instrs, ls, n - 1) + labels_at_text(ls, n - 1) + "\t"@ + instr_text(p, instrs[n - 1])
    }
}

/// `: type` for a return type, nothing without one.
pub open spec fn return_text(t: Option<Type>) -> Seq<char> {
    match t {
        Some(t) => ": "@ + type_text(t),
        None => Seq::empty(),
    }
}

/// A function as written: its header, its body with the labels in place,
/// the labels past its last instruction, and a closing brace.
pub open spec fn function_text(
    p: ProgramView,
    name: Seq<char>,
    params: Seq<Variable>,
    ret: Option<Type>,
    instrs: Seq<Instruction>,
    ls: Seq<(LabelIdx, Seq<char>, int)>,
) -> Seq<char> {
    "@"@ + name + "("@ + params_text(params) + ")"@ + return_text(ret) + " {\n"@ + body_text(
        p,
        instrs,
        ls,
        instrs.len() as int,
    ) + labels_at_text(ls, instrs.len() as int) + "}"@
}

/// The label and function indices of the instruction are those of the
/// program.
pub open spec fn printable(p: ProgramView, i: Instruction) -> bool {
    match i {
        Instruction::Jmp(l) => l.0 < p.labels.len(),
        Instruction::Br(_, t, f) => t.0 < p.labels.len() && f.0 < p.labels.len(),
        Instruction::Call(_, f, _) => f.0 < p.functions.len(),
        _ => true,
    }
}

/// Whether every label and function the instructions of a program name
/// exists, so that the program can be printed.
pub fn program_printable(program: &Program) -> (r: bool)
    ensures
        r == forall|i: int| 0 <= i < program.instructions@.len() ==> printable(program@, #[trigger] program.instructions@[i]),
{
    let mut i: usize = 0;
    while i < program.instructions.len()
        invariant
            i <= program.instructions@.len(),
            forall|j: int| 0 <= j < i ==> printable(program@, #[trigger] program.instructions@[j]),
        decreases program.instructions.len() - i,
    {
        let ok = match &program.instructions[i] {
            Instruction::Jmp(l) => (l.0 as usize) < program.labels.len(),
            Instruction::Br(_, t, f) => (t.0 as usize) < program.labels.len() && (f.0 as usize) < program.labels.len(),
            Instruction::Call(_, f, _) => (f.0 as usize) < program.functions.len(),
            _ => true,
        };
        if !ok {
            return false;
        }
        i = i + 1;
    }
    true
}

/// Writes programs in Bril's text form.
pub struct Printer<'formatter> {
    pub f: &'formatter mut String,
}

fn push_var(s: &mut String, v: Variable)
    ensures
        final(s)@ == old(s)@ + var_text(v),
{
    s.append("x");
    push_decimal(s, v.0 as u64);
    proof {
        assert(final(s)@ =~= old(s)@ + var_text(v));
    }
}

fn push_type(s: &mut String, t: Type)
    ensures
        final(s)@ == old(s)@ + type_text(t),
{
    match t {
        Type::Int => s.append("int"),
        Type::Bool => s.append("bool"),
    }
}

fn push_decl(s: &mut String, v: Variable)
    ensures
        final(s)@ == old(s)@ + decl_text(v),
{
    push_var(s, v);
    s.append(": ");
    push_type(s, v.1);
    proof {
        assert(final(s)@ =~= old(s)@ + decl_text(v));
    }
}

fn push_vars(s: &mut String, vs: &Vec<Variable>)
    ensures
        final(s)@ == old(s)@ + vars_text(vs@),
{
    let mut i: usize = 0;
    while i < vs.len()
        invariant
            i <= vs@.len(),
            s@ == old(s)@ + vars_text(vs@.take(i as int)),
        decreases vs.len() - i,
    {
        let ghost s0 = s@;
        if i > 0 {
            s.append(" ");
        }
        push_var(s, vs[i]);
        proof {
            let t = vs@.take(i + 1);
            assert(t.drop_last() =~= vs@.take(i as int));
            if i == 0 {
                assert(vars_text(vs@.take(0)) =~= Seq::<char>::empty());
            }
            assert(s@ =~= old(s)@ + vars_text(t));
        }
        i = i + 1;
    }
    proof {
        assert(vs@.take(vs@.len() as int) =~= vs@);
    }
}

fn push_params(s: &mut String, vs: &[Variable])
    ensures
        final(s)@ == old(s)@ + params_text(vs@),
{
    let mut i: usize = 0;
    while i < vs.len()
        invariant
            i <= vs@.len(),
            s@ == old(s)@ + params_text(vs@.take(i as int)),
        decreases vs.len() - i,
    {
        if i > 0 {
            s.append(", ");
        }
        push_decl(s, vs[i]);
        proof {
            let t = vs@.take(i + 1);
            assert(t.drop_last() =~= vs@.take(i as int));
            if i == 0 {
                assert(params_text(vs@.take(0)) =~= Seq::<char>::empty());
            }
            assert(s@ =~= old(s)@ + params_text(t));
        }
        i = i + 1;
    }
    proof {
        assert(vs@.take(vs@.len() as int) =~= vs@);
    }
}

fn push_binary(s: &mut String, op: &str, d: Variable, a: Variable, b: Variable)
    ensures
        final(s)@ == old(s)@ + binary_text(op@, d, a, b),
{
    push_decl(s, d);
    s.append(" = ");
    s.append(op);
    s.append(" ");
    push_var(s, a);
    s.append(" ");
    push_var(s, b);
    s.append(";\n");
    proof {
        assert(final(s)@ =~= old(s)@ + binary_text(op@, d, a, b));
    }
}

fn push_unary(s: &mut String, op: &str, d: Variable, a: Variable)
    ensures
        final(s)@ == old(s)@ + unary_text(op@, d, a),
{
    push_decl(s, d);
    s.append(" = ");
    s.append(op);
    s.append(" ");
    push_var(s, a);
    s.append(";\n");
    proof {
        assert(final(s)@ =~= old(s)@ + unary_text(op@, d, a));
    }
}

impl<'formatter> Printer<'formatter> {
    /// A printer that writes to `f`.
    pub fn new(f: &'formatter mut String) -> (r: Self)
        ensures
            *r.f == *old(f),
            *final(r.f) == *final(f),
    {
        Printer { f }
    }

    /// Writes one instruction.
    pub fn print_instruction(&mut self, program: &Program, instruction: &Instruction)
        requires
            program.wf(),
            printable(program@, *instruction),
        ensures
            final(self).f@ == old(self).f@ + instr_text(program@, *instruction),
            *final(final(self).f) == *final(old(self).f),
    {
        let s: &mut String = self.f;
        match instruction {
            Instruction::Add(d, a, b) => push_binary(s, "add", *d, *a, *b),
            Instruction::Sub(d, a, b) => push_binary(s, "sub", *d, *a, *b),
            Instruction::Mul(d, a, b) => push_binary(s, "mul", *d, *a, *b),
            Instruction::Div(d, a, b) => push_binary(s, "div", *d, *a, *b),
            Instruction::Eq(d, a, b) => push_binary(s, "eq", *d, *a, *b),
            Instruction::Lt(d, a, b) => push_binary(s, "lt", *d, *a, *b),
            Instruction::Gt(d, a, b) => push_binary(s, "gt", *d, *a, *b),
            Instruction::Le(d, a, b) => push_binary(s, "le", *d, *a, *b),
            Instruction::Ge(d, a, b) => push_binary(s, "ge", *d, *a, *b),
            Instruction::Not(d, a) => push_unary(s, "not", *d, *a),
            Instruction::And(d, a, b) => push_binary(s, "and", *d, *a, *b),
            Instruction::Or(d, a, b) => push_binary(s, "or", *d, *a, *b),
            Instruction::Jmp(label) => {
                s.append("jmp .");
                s.append(program.get_label_name(*label));
                s.append(";\n");
            },
            Instruction::Br(condition, if_true, if_false) => {
                s.append("br ");
                push_var(s, *condition);
                s.append(" .");
                s.append(program.get_label_name(*if_true));
                s.append(" .");
                s.append(program.get_label_name(*if_false));
                s.append(";\n");
            },
            Instruction::Call(dest, function_idx, args) => {
                proof {
                    assert(program@.functions[function_idx.0 as int] == program.functions@[function_idx.0 as int]@);
                }
                let name = program.get_string(program.functions[function_idx.0 as usize].name);
                if let Some(dest) = dest {
                    push_decl(s, *dest);
                    s.append(" = call @");
                } else {
                    s.append("call @");
                }
                s.append(name);
                s.append(" ");
                push_vars(s, args);
                s.append(";\n");
            },
            Instruction::Ret(ret) => {
                if let Some(ret) = ret {
                    s.append("ret ");
                    push_var(s, *ret);
                    s.append(";\n");
                } else {
                    s.append("ret;\n");
                }
            },
            Instruction::Const(dest, lit) => {
                push_decl(s, *dest);
                s.append(" = const ");
                match lit {
                    Value::Bool(b) => if *b {
                        s.append("true")
                    } else {
                        s.append("false")
                    },
                    Value::Int(n) => push_signed_decimal(s, *n),
                }
                s.append(";\n");
            },
            Instruction::Id(dest, arg) => push_unary(s, "id", *dest, *arg),
            Instruction::Print(args) => {
                s.append("print ");
                push_vars(s, args);
                s.append(";\n");
            },
            Instruction::Nop => {},
        }
        proof {
            assert(self.f@ =~= old(self).f@ + instr_text(program@, *instruction));
        }
    }
}

/// The labels of a function.
pub open spec fn function_labels(f: Function) -> Seq<(LabelIdx, Seq<char>, int)> {
    f.labels@.map_values(|l: Label| label_view(l))
}

/// The text of function `k` of a program.
pub open spec fn program_function_text(p: Program, k: int) -> Seq<char> {
    let fv = p@.functions[k];
    function_text(
        p@,
        p@.strings[fv.name.0 as int],
        fv.parameters,
        fv.return_type,
        p.instructions@.subrange(fv.start, fv.end),
        sort_by_offset(fv.labels.map_values(|l: LabelIdx| label_entry(p@, fv, l))),
    )
}

/// The text of the first `n` functions of a program, one after the other.
pub open spec fn program_text(p: Program, n: int) -> Seq<char>
    decreases n,
{
    if n <= 0 {
        Seq::empty()
    } else {
        program_text(p, n - 1) + program_function_text(p, n - 1)
    }
}

proof fn lemma_labels_at_none(ls: Seq<(LabelIdx, Seq<char>, int)>, off: int, j: int)
    requires
        0 <= j <= ls.len(),
        forall|k: int| 0 <= k < j ==> (#[trigger] ls[k]).2 != off,
    ensures
        labels_at_text(ls.take(j), off) == Seq::<char>::empty(),
    decreases j,
{
    if j > 0 {
        assert(ls.take(j).drop_last() =~= ls.take(j - 1));
        lemma_labels_at_none(ls, off, j - 1);
    } else {
        assert(ls.take(0) =~= Seq::<(LabelIdx, Seq<char>, int)>::empty());
    }
}

proof fn lemma_labels_at_rest(ls: Seq<(LabelIdx, Seq<char>, int)>, off: int, j: int)
    requires
        0 <= j <= ls.len(),
        forall|k: int| j <= k < ls.len() ==> (#[trigger] ls[k]).2 != off,
    ensures
        labels_at_text(ls, off) == labels_at_text(ls.take(j), off),
    decreases ls.len() - j,
{
    if j < ls.len() {
        lemma_labels_at_rest(ls, off, j + 1);
        assert(ls.take(j + 1).drop_last() =~= ls.take(j));
        assert(labels_at_text(ls.take(j + 1), off) =~= labels_at_text(ls.take(j), off));
    } else {
        assert(ls.take(j) =~= ls);
    }
}

proof fn lemma_labels_at_step(ls: Seq<(LabelIdx, Seq<char>, int)>, off: int, j: int)
    requires
        0 <= j < ls.len(),
    ensures
        labels_at_text(ls.take(j + 1), off) == labels_at_text(ls.take(j), off) + if ls[j].2 == off {
            "."@ + ls[j].1 + ":\n"@
        } else {
            Seq::<char>::empty()
        },
{
    assert(ls.take(j + 1).drop_last() =~= ls.take(j));
}

fn push_header(s: &mut String, name: &str, params: &[Variable], ret: Option<Type>)
    ensures
        final(s)@ == old(s)@ + "@"@ + name@ + "("@ + params_text(params@) + ")"@ + return_text(ret) + " {\n"@,
{
    s.append("@");
    s.append(name);
    s.append("(");
    push_params(s, params);
    s.append(")");
    if let Some(ty) = ret {
        s.append(": ");
        push_type(s, ty);
    }
    s.append(" {\n");
    proof {
        assert(final(s)@ =~= old(s)@ + "@"@ + name@ + "("@ + params_text(params@) + ")"@ + return_text(ret) + " {\n"@);
    }
}

proof fn lemma_function_text(
    p: ProgramView,
    name: Seq<char>,
    params: Seq<Variable>,
    ret: Option<Type>,
    instrs: Seq<Instruction>,
    ls: Seq<(LabelIdx, Seq<char>, int)>,
    s0: Seq<char>,
    header: Seq<char>,
    s1: Seq<char>,
)
    requires
        header == s0 + "@"@ + name + "("@ + params_text(params) + ")"@ + return_text(ret) + " {\n"@,
        s1 == header + body_text(p, instrs, ls, instrs.len() as int) + labels_at_text(ls, instrs.len() as int) + "}"@,
    ensures
        s1 == s0 + function_text(p, name, params, ret, instrs, ls),
{
    assert(s1 =~= s0 + function_text(p, name, params, ret, instrs, ls));
}

fn push_label(s: &mut String, l: Label)
    ensures
        final(s)@ == old(s)@ + "."@ + label_view(l).1 + ":\n"@,
{
    s.append(".");
    s.append(l.name);
    s.append(":\n");
}

impl<'formatter> Printer<'formatter> {
    /// Writes a function: header, instructions with their labels in front,
    /// labels past the end, closing brace.
    pub fn print_function(&mut self, program: &Program, function: Function)
        requires
            program.wf(),
            function.wf(),
            forall|i: int| 0 <= i < function.instructions@.len() ==> printable(program@, #[trigger] function.instructions@[i]),
        ensures
            final(self).f@ == old(self).f@ + function_text(
                program@,
                function.name@,
                function.parameters@,
                function.return_type,
                function.instructions@,
                function_labels(function),
            ),
            *final(final(self).f) == *final(old(self).f),
    {
        let ghost ls = function_labels(function);
        let ghost instrs = function.instructions@;
        push_header(self.f, function.name, function.parameters, function.return_type);
        let ghost header = self.f@;
        proof {
            assert(body_text(program@, instrs, ls, 0) =~= Seq::<char>::empty());
            assert(header =~= header + body_text(program@, instrs, ls, 0));
        }
        let n = function.instructions.len();
        let nl = function.labels.len();
        let mut offset: usize = 0;
        let mut j: usize = 0;
        while offset < n
            invariant
                program.wf(),
                function.wf(),
                forall|i: int| 0 <= i < instrs.len() ==> printable(program@, #[trigger] instrs[i]),
                instrs == function.instructions@,
                ls == function_labels(function),
                n == instrs.len(),
                nl == ls.len(),
                offset <= n,
                j <= nl,
                forall|k: int| 0 <= k < j ==> (#[trigger] ls[k]).2 < offset,
                forall|k: int| j <= k < nl ==> (#[trigger] ls[k]).2 >= offset,
                self.f@ == header + body_text(program@, instrs, ls, offset as int),
                *final(self.f) == *final(old(self).f),
            decreases n - offset,
        {
            let ghost before = self.f@;
            let ghost j0 = j;
            proof {
                lemma_labels_at_none(ls, offset as int, j as int);
                assert(before =~= before + labels_at_text(ls.take(j as int), offset as int));
            }
            while j < nl && function.labels[j].offset == offset
                invariant
                    function.wf(),
                    ls == function_labels(function),
                    nl == ls.len(),
                    j0 <= j <= nl,
                    forall|k: int| j0 <= k < j ==> (#[trigger] ls[k]).2 == offset,
                    forall|k: int| 0 <= k < j0 ==> (#[trigger] ls[k]).2 < offset,
                    self.f@ == before + labels_at_text(ls.take(j as int), offset as int),
                    *final(self.f) == *final(old(self).f),
                decreases nl - j,
            {
                push_label(self.f, function.labels[j]);
                proof {
                    lemma_labels_at_step(ls, offset as int, j as int);
                    assert(ls[j as int] == label_view(function.labels@[j as int]));
                }
                j = j + 1;
            }
            proof {
                assert forall|k: int| j <= k < nl implies (#[trigger] ls[k]).2 != offset by {
                    assert(ls[k] == label_view(function.labels@[k]));
                    assert(ls[j as int] == label_view(function.labels@[j as int]));
                    assert(function.labels@[j as int].offset <= function.labels@[k].offset);
                }
                lemma_labels_at_rest(ls, offset as int, j as int);
            }
            self.f.append("\t");
            self.print_instruction(program, &function.instructions[offset]);
            proof {
                assert(self.f@ =~= header + body_text(program@, instrs, ls, offset + 1));
                assert forall|k: int| j <= k < nl implies (#[trigger] ls[k]).2 >= offset + 1 by {
                    assert(ls[k] == label_view(function.labels@[k]));
                    assert(ls[j as int] == label_view(function.labels@[j as int]));
                    assert(function.labels@[j as int].offset <= function.labels@[k].offset);
                }
            }
            offset = offset + 1;
        }
        let ghost before = self.f@;
        let ghost j0 = j;
        proof {
            lemma_labels_at_none(ls, n as int, j as int);
            assert(before =~= before + labels_at_text(ls.take(j as int), n as int));
        }
        while j < nl
            invariant
                function.wf(),
                ls == function_labels(function),
                n == function.instructions@.len(),
                nl == ls.len(),
                j0 <= j <= nl,
                forall|k: int| j0 <= k < nl ==> (#[trigger] ls[k]).2 >= n,
                self.f@ == before + labels_at_text(ls.take(j as int), n as int),
                *final(self.f) == *final(old(self).f),
            decreases nl - j,
        {
            proof {
                assert(ls[j as int] == label_view(function.labels@[j as int]));
                assert(function.labels@[j as int].offset <= n);
            }
            push_label(self.f, function.labels[j]);
            proof {
                lemma_labels_at_step(ls, n as int, j as int);
            }
            j = j + 1;
        }
        proof {
            assert(ls.take(nl as int) =~= ls);
        }
        self.f.append("}");
        proof {
            lemma_function_text(
                program@,
                function.name@,
                function.parameters@,
                function.return_type,
                instrs,
                ls,
                old(self).f@,
                header,
                self.f@,
            );
        }
    }

    /// Writes every function of a program, in order.
    pub fn print_program(&mut self, program: &Program)
        requires
            program.wf(),
            forall|i: int| 0 <= i < program.instructions@.len() ==> printable(program@, #[trigger] program.instructions@[i]),
        ensures
            final(self).f@ == old(self).f@ + program_text(*program, program@.functions.len() as int),
            *final(final(self).f) == *final(old(self).f),
    {
        let num = program.num_functions();
        let mut k: usize = 0;
        proof {
            assert(old(self).f@ =~= old(self).f@ + program_text(*program, 0));
        }
        while k < num
            invariant
                program.wf(),
                forall|i: int| 0 <= i < program.instructions@.len() ==> printable(program@, #[trigger] program.instructions@[i]),
                num == program@.functions.len(),
                k <= num,
                self.f@ == old(self).f@ + program_text(*program, k as int),
                *final(self.f) == *final(old(self).f),
            decreases num - k,
        {
            let function = program.get_function(crate::ir::FunctionIdx(k as u32));
            proof {
                let fv = program@.functions[k as int];
                assert(program.function_is(k as int, function));
                assert forall|i: int| 0 <= i < function.instructions@.len() implies printable(program@, #[trigger] function.instructions@[i]) by {
                    assert(function.instructions@[i] == program.instructions@[fv.start + i]);
                }
            }
            self.print_function(program, function);
            proof {
                assert(self.f@ =~= old(self).f@ + program_text(*program, k + 1));
            }
            k = k + 1;
        }
    }
}

} // verus!
