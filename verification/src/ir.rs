use vstd::prelude::*;

verus! {

/// Index value used for an entity that has not been resolved yet.
pub const NO_INDEX: u32 = 0xffff_ffffu32;

/// The scalar types of the language.
#[derive(Debug, PartialEq, Eq, PartialOrd, Ord, Hash, Clone, Copy, Structural)]
pub enum Type {
    Int,
    Bool,
}

/// A numbered, typed variable. Variables are numbered per function.
#[derive(Debug, PartialEq, Eq, PartialOrd, Ord, Hash, Clone, Copy, Structural)]
pub struct Variable(pub u32, pub Type);

/// Index of a label in the program's label table.
#[derive(Debug, PartialEq, Eq, PartialOrd, Ord, Hash, Clone, Copy, Structural)]
pub struct LabelIdx(pub u32);

/// Index of a function in the program's function table.
#[derive(Debug, PartialEq, Eq, PartialOrd, Ord, Hash, Clone, Copy, Structural)]
pub struct FunctionIdx(pub u32);

/// Index of a string in the program's string table.
#[derive(Debug, PartialEq, Eq, PartialOrd, Ord, Hash, Clone, Copy, Structural)]
pub struct StringIdx(pub u32);

impl LabelIdx {
    /// The index that stands for "not resolved yet".
    pub fn undef() -> (r: LabelIdx)
        ensures
            r.0 == NO_INDEX,
    {
        LabelIdx(NO_INDEX)
    }
}

impl FunctionIdx {
    /// The index that stands for "not resolved yet".
    pub fn undef() -> (r: FunctionIdx)
        ensures
            r.0 == NO_INDEX,
    {
        FunctionIdx(NO_INDEX)
    }
}

impl StringIdx {
    /// The index that stands for "not resolved yet".
    pub fn undef() -> (r: StringIdx)
        ensures
            r.0 == NO_INDEX,
    {
        StringIdx(NO_INDEX)
    }
}

/// A literal value.
#[derive(Debug, PartialEq, Eq, Hash, Clone, Copy, Structural)]
pub enum Value {
    Bool(bool),
    Int(i64),
}

/// A flattened instruction.
#[derive(Debug, PartialEq, Eq, Hash, Clone)]
pub enum Instruction {
    Add(Variable, Variable, Variable),
    Mul(Variable, Variable, Variable),
    Sub(Variable, Variable, Variable),
    Div(Variable, Variable, Variable),
    Eq(Variable, Variable, Variable),
    Lt(Variable, Variable, Variable),
    Gt(Variable, Variable, Variable),
    Le(Variable, Variable, Variable),
    Ge(Variable, Variable, Variable),
    Not(Variable, Variable),
    And(Variable, Variable, Variable),
    Or(Variable, Variable, Variable),
    Jmp(LabelIdx),
    Br(Variable, LabelIdx, LabelIdx),
    Call(Option<Variable>, FunctionIdx, Vec<Variable>),
    Ret(Option<Variable>),
    Const(Variable, Value),
    Id(Variable, Variable),
    Print(Vec<Variable>),
    Nop,
}

/// The mathematical model of an instruction: argument lists are sequences.
pub enum InstructionView {
    Add(Variable, Variable, Variable),
    Mul(Variable, Variable, Variable),
    Sub(Variable, Variable, Variable),
    Div(Variable, Variable, Variable),
    Eq(Variable, Variable, Variable),
    Lt(Variable, Variable, Variable),
    Gt(Variable, Variable, Variable),
    Le(Variable, Variable, Variable),
    Ge(Variable, Variable, Variable),
    Not(Variable, Variable),
    And(Variable, Variable, Variable),
    Or(Variable, Variable, Variable),
    Jmp(LabelIdx),
    Br(Variable, LabelIdx, LabelIdx),
    Call(Option<Variable>, FunctionIdx, Seq<Variable>),
    Ret(Option<Variable>),
    Const(Variable, Value),
    Id(Variable, Variable),
    Print(Seq<Variable>),
    Nop,
}

impl View for Instruction {
    type V = InstructionView;

    open spec fn view(&self) -> InstructionView {
        match self {
            Instruction::Add(a, b, c) => InstructionView::Add(*a, *b, *c),
            Instruction::Mul(a, b, c) => InstructionView::Mul(*a, *b, *c),
            Instruction::Sub(a, b, c) => InstructionView::Sub(*a, *b, *c),
            Instruction::Div(a, b, c) => InstructionView::Div(*a, *b, *c),
            Instruction::Eq(a, b, c) => InstructionView::Eq(*a, *b, *c),
            Instruction::Lt(a, b, c) => InstructionView::Lt(*a, *b, *c),
            Instruction::Gt(a, b, c) => InstructionView::Gt(*a, *b, *c),
            Instruction::Le(a, b, c) => InstructionView::Le(*a, *b, *c),
            Instruction::Ge(a, b, c) => InstructionView::Ge(*a, *b, *c),
            Instruction::Not(a, b) => InstructionView::Not(*a, *b),
            Instruction::And(a, b, c) => InstructionView::And(*a, *b, *c),
            Instruction::Or(a, b, c) => InstructionView::Or(*a, *b, *c),
            Instruction::Jmp(l) => InstructionView::Jmp(*l),
            Instruction::Br(c, t, f) => InstructionView::Br(*c, *t, *f),
            Instruction::Call(d, f, args) => InstructionView::Call(*d, *f, args@),
            Instruction::Ret(r) => InstructionView::Ret(*r),
            Instruction::Const(d, v) => InstructionView::Const(*d, *v),
            Instruction::Id(d, a) => InstructionView::Id(*d, *a),
            Instruction::Print(args) => InstructionView::Print(args@),
            Instruction::Nop => InstructionView::Nop,
        }
    }
}

/// The word Bril writes for an operation.
pub open spec fn opcode(i: InstructionView) -> Seq<char> {
    match i {
        InstructionView::Add(..) => "add"@,
        InstructionView::Mul(..) => "mul"@,
        InstructionView::Sub(..) => "sub"@,
        InstructionView::Div(..) => "div"@,
        InstructionView::Eq(..) => "eq"@,
        InstructionView::Lt(..) => "lt"@,
        InstructionView::Gt(..) => "gt"@,
        InstructionView::Le(..) => "le"@,
        InstructionView::Ge(..) => "ge"@,
        InstructionView::Not(..) => "not"@,
        InstructionView::And(..) => "and"@,
        InstructionView::Or(..) => "or"@,
        InstructionView::Jmp(..) => "jmp"@,
        InstructionView::Br(..) => "br"@,
        InstructionView::Call(..) => "call"@,
        InstructionView::Ret(..) => "ret"@,
        InstructionView::Const(..) => "const"@,
        InstructionView::Id(..) => "id"@,
        InstructionView::Print(..) => "print"@,
        InstructionView::Nop => "nop"@,
    }
}

/// The destination an instruction names, if any: the first field of a value
/// operation or constant, the optional destination of a call.
pub open spec fn named_dest(i: InstructionView) -> Option<Variable> {
    match i {
        InstructionView::Add(d, _, _) => Some(d),
        InstructionView::Mul(d, _, _) => Some(d),
        InstructionView::Sub(d, _, _) => Some(d),
        InstructionView::Div(d, _, _) => Some(d),
        InstructionView::Eq(d, _, _) => Some(d),
        InstructionView::Lt(d, _, _) => Some(d),
        InstructionView::Gt(d, _, _) => Some(d),
        InstructionView::Le(d, _, _) => Some(d),
        InstructionView::Ge(d, _, _) => Some(d),
        InstructionView::Not(d, _) => Some(d),
        InstructionView::And(d, _, _) => Some(d),
        InstructionView::Or(d, _, _) => Some(d),
        InstructionView::Const(d, _) => Some(d),
        InstructionView::Id(d, _) => Some(d),
        InstructionView::Call(d, _, _) => d,
        _ => None,
    }
}

/// The variables an instruction names as its arguments, in order: the
/// operands of an operation, a call's or print's arguments, the condition
/// of a branch and the returned variable.
pub open spec fn named_args(i: InstructionView) -> Seq<Variable> {
    match i {
        InstructionView::Add(_, a, b) => seq![a, b],
        InstructionView::Mul(_, a, b) => seq![a, b],
        InstructionView::Sub(_, a, b) => seq![a, b],
        InstructionView::Div(_, a, b) => seq![a, b],
        InstructionView::Eq(_, a, b) => seq![a, b],
        InstructionView::Lt(_, a, b) => seq![a, b],
        InstructionView::Gt(_, a, b) => seq![a, b],
        InstructionView::Le(_, a, b) => seq![a, b],
        InstructionView::Ge(_, a, b) => seq![a, b],
        InstructionView::Not(_, a) => seq![a],
        InstructionView::And(_, a, b) => seq![a, b],
        InstructionView::Or(_, a, b) => seq![a, b],
        InstructionView::Id(_, a) => seq![a],
        InstructionView::Call(_, _, args) => args,
        InstructionView::Print(args) => args,
        InstructionView::Br(c, _, _) => seq![c],
        InstructionView::Ret(r) => match r {
            Some(v) => seq![v],
            None => Seq::empty(),
        },
        _ => Seq::empty(),
    }
}

/// Copies a list of variables.
pub fn copy_variables(vars: &Vec<Variable>) -> (r: Vec<Variable>)
    ensures
        r@ == vars@,
{
    let mut r: Vec<Variable> = Vec::new();
    let mut i: usize = 0;
    while i < vars.len()
        invariant
            i <= vars.len(),
            r@ == vars@.subrange(0, i as int),
        decreases vars.len() - i,
    {
        r.push(vars[i]);
        i = i + 1;
    }
    r
}

impl Instruction {
    /// A copy of this instruction.
    pub fn duplicate(&self) -> (r: Instruction)
        ensures
            r@ == self@,
    {
        match self {
            Instruction::Add(a, b, c) => Instruction::Add(*a, *b, *c),
            Instruction::Mul(a, b, c) => Instruction::Mul(*a, *b, *c),
            Instruction::Sub(a, b, c) => Instruction::Sub(*a, *b, *c),
            Instruction::Div(a, b, c) => Instruction::Div(*a, *b, *c),
            Instruction::Eq(a, b, c) => Instruction::Eq(*a, *b, *c),
            Instruction::Lt(a, b, c) => Instruction::Lt(*a, *b, *c),
            Instruction::Gt(a, b, c) => Instruction::Gt(*a, *b, *c),
            Instruction::Le(a, b, c) => Instruction::Le(*a, *b, *c),
            Instruction::Ge(a, b, c) => Instruction::Ge(*a, *b, *c),
            Instruction::Not(a, b) => Instruction::Not(*a, *b),
            Instruction::And(a, b, c) => Instruction::And(*a, *b, *c),
            Instruction::Or(a, b, c) => Instruction::Or(*a, *b, *c),
            Instruction::Jmp(l) => Instruction::Jmp(*l),
            Instruction::Br(c, t, f) => Instruction::Br(*c, *t, *f),
            Instruction::Call(d, f, args) => {
                let a = copy_variables(args);
                Instruction::Call(*d, *f, a)
            },
            Instruction::Ret(r) => Instruction::Ret(*r),
            Instruction::Const(d, v) => Instruction::Const(*d, *v),
            Instruction::Id(d, a) => Instruction::Id(*d, *a),
            Instruction::Print(args) => {
                let a = copy_variables(args);
                Instruction::Print(a)
            },
            Instruction::Nop => Instruction::Nop,
        }
    }
}

} // verus!

verus! {

/// A label of a function: its index in the program's label table, its name,
/// and the offset (within the function) of the instruction it precedes.
#[derive(Debug, Clone, Copy)]
pub struct Label<'a> {
    pub idx: LabelIdx,
    pub name: &'a str,
    pub offset: usize,
}

/// The signature of a function.
#[derive(Debug)]
pub struct FunctionPrototype {
    pub name: String,
    pub parameters: Vec<Variable>,
    pub return_type: Option<Type>,
}

} // verus!

verus! {

/// A function as stored in a program: its range of instructions, name,
/// parameters, labels and return type.
#[derive(Debug, PartialEq, Eq)]
pub struct FunctionInternal {
    pub range: core::ops::Range<usize>,
    pub name: StringIdx,
    pub parameters: Vec<Variable>,
    pub labels: Vec<LabelIdx>,
    pub return_type: Option<Type>,
}

/// The mathematical model of a stored function.
pub struct FunctionView {
    pub start: int,
    pub end: int,
    pub name: StringIdx,
    pub parameters: Seq<Variable>,
    pub labels: Seq<LabelIdx>,
    pub return_type: Option<Type>,
}

impl View for FunctionInternal {
    type V = FunctionView;

    open spec fn view(&self) -> FunctionView {
        FunctionView {
            start: self.range.start as int,
            end: self.range.end as int,
            name: self.name,
            parameters: self.parameters@,
            labels: self.labels@,
            return_type: self.return_type,
        }
    }
}

/// A view of a function of a program: a window into the program's tables.
pub struct Function<'a> {
    /// The subarray of instructions corresponding to this function.
    pub instructions: &'a [Instruction],
    pub name: &'a str,
    pub parameters: &'a [Variable],
    /// The function's labels, ordered by the offset (into the function's
    /// instructions) they stand at.
    pub labels: Vec<Label<'a>>,
    pub return_type: Option<Type>,
}

impl<'a> Function<'a> {
    /// The labels are ordered by offset and stand within the function, and
    /// one label index always names the same label.
    pub open spec fn wf(&self) -> bool {
        let ls = self.labels@;
        &&& forall|a: int, b: int| 0 <= a <= b < ls.len() ==> (#[trigger] ls[a]).offset <= (#[trigger] ls[b]).offset
        &&& forall|a: int| 0 <= a < ls.len() ==> (#[trigger] ls[a]).offset <= self.instructions@.len()
        &&& forall|a: int, b: int|
            0 <= a < ls.len() && 0 <= b < ls.len() && (#[trigger] ls[a]).idx == (#[trigger] ls[b]).idx ==> label_view(
                ls[a],
            ) == label_view(ls[b])
    }

    /// The function's signature.
    pub fn prototype(&self) -> (r: FunctionPrototype)
        ensures
            r.name@ == self.name@,
            r.parameters@ == self.parameters@,
            r.return_type == self.return_type,
    {
        FunctionPrototype {
            name: self.name.to_owned(),
            parameters: vstd::slice::slice_to_vec(self.parameters),
            return_type: self.return_type,
        }
    }
}

/// A flattened program: one instruction buffer shared by all functions, and
/// tables of functions, strings and labels.
#[derive(Debug, PartialEq, Eq)]
pub struct Program {
    pub instructions: Vec<Instruction>,
    pub functions: Vec<FunctionInternal>,
    pub strings: Vec<String>,
    pub labels: Vec<(usize, StringIdx)>,
}

/// The mathematical model of a program's tables.
pub struct ProgramView {
    pub functions: Seq<FunctionView>,
    pub strings: Seq<Seq<char>>,
    pub labels: Seq<(usize, StringIdx)>,
}

impl View for Program {
    type V = ProgramView;

    open spec fn view(&self) -> ProgramView {
        ProgramView {
            functions: self.functions@.map_values(|f: FunctionInternal| f@),
            strings: self.strings@.map_values(|s: String| s@),
            labels: self.labels@,
        }
    }
}

/// The tables of a program agree with one another and with a buffer of
/// `num_instrs` instructions.
pub open spec fn program_view_wf(p: ProgramView, num_instrs: nat) -> bool {
    &&& p.strings.len() <= u32::MAX
    &&& p.labels.len() <= u32::MAX
    &&& p.functions.len() <= u32::MAX
    &&& forall|k: int|
        0 <= k < p.labels.len() ==> (#[trigger] p.labels[k]).1.0 < p.strings.len() && p.labels[k].0
            <= num_instrs
    &&& forall|k: int|
        0 <= k < p.functions.len() ==> {
            let f = #[trigger] p.functions[k];
            &&& 0 <= f.start <= f.end <= num_instrs
            &&& f.name.0 < p.strings.len()
            &&& forall|j: int|
                0 <= j < f.labels.len() ==> {
                    let l = #[trigger] f.labels[j];
                    &&& l.0 < p.labels.len()
                    &&& f.start <= p.labels[l.0 as int].0 <= f.end
                }
        }
}

/// The label of a function as seen from the function: index, name and offset
/// within the function.
pub open spec fn label_entry(p: ProgramView, f: FunctionView, l: LabelIdx) -> (LabelIdx, Seq<char>, int) {
    (l, p.strings[p.labels[l.0 as int].1.0 as int], p.labels[l.0 as int].0 - f.start)
}

/// The model of a label.
pub open spec fn label_view(l: Label) -> (LabelIdx, Seq<char>, int) {
    (l.idx, l.name@, l.offset as int)
}

/// `s` with `x` placed after every element whose offset is at most `x`'s,
/// given that `s` is ordered by offset.
pub open spec fn insert_by_offset(s: Seq<(LabelIdx, Seq<char>, int)>, x: (LabelIdx, Seq<char>, int)) -> Seq<
    (LabelIdx, Seq<char>, int),
>
    decreases s.len(),
{
    if s.len() == 0 {
        seq![x]
    } else if s.last().2 <= x.2 {
        s.push(x)
    } else {
        insert_by_offset(s.drop_last(), x).push(s.last())
    }
}

/// `s` ordered by offset, elements of equal offset kept in their order.
pub open spec fn sort_by_offset(s: Seq<(LabelIdx, Seq<char>, int)>) -> Seq<(LabelIdx, Seq<char>, int)>
    decreases s.len(),
{
    if s.len() == 0 {
        s
    } else {
        insert_by_offset(sort_by_offset(s.drop_last()), s.last())
    }
}

/// The string and label tables of `b` begin with those of `a`: what `a`
/// holds, `b` holds at the same index.
pub open spec fn tables_extend(a: ProgramView, b: ProgramView) -> bool {
    &&& a.strings.len() <= b.strings.len()
    &&& a.labels.len() <= b.labels.len()
    &&& forall|i: int| 0 <= i < a.strings.len() ==> #[trigger] b.strings[i] == a.strings[i]
    &&& forall|i: int| 0 <= i < a.labels.len() ==> #[trigger] b.labels[i] == a.labels[i]
}

/// Tables that extend tables that extend a program's tables extend them:
/// over any run of additions, earlier entries stay.
pub proof fn lemma_tables_extend_trans(a: ProgramView, b: ProgramView, c: ProgramView)
    requires
        tables_extend(a, b),
        tables_extend(b, c),
    ensures
        tables_extend(a, c),
{
}

/// A string or label added to a program reads back unchanged, with the same
/// name and offset, from every later program whose tables extend its
/// tables.
pub proof fn lemma_tables_read_back(a: ProgramView, b: ProgramView, s: StringIdx, l: LabelIdx)
    requires
        tables_extend(a, b),
    ensures
        s.0 < a.strings.len() ==> s.0 < b.strings.len() && b.strings[s.0 as int] == a.strings[s.0 as int],
        l.0 < a.labels.len() && a.labels[l.0 as int].1.0 < a.strings.len() ==> {
            &&& l.0 < b.labels.len()
            &&& b.labels[l.0 as int].0 == a.labels[l.0 as int].0
            &&& b.strings[b.labels[l.0 as int].1.0 as int] == a.strings[a.labels[l.0 as int].1.0 as int]
        },
{
}

impl Program {
    /// The tables agree with one another and with the instruction buffer.
    pub open spec fn wf(&self) -> bool {
        program_view_wf(self@, self.instructions@.len())
    }

    /// An empty program.
    pub fn new() -> (r: Program)
        ensures
            r.instructions@ == Seq::<Instruction>::empty(),
            r@.functions == Seq::<FunctionView>::empty(),
            r@.strings == Seq::<Seq<char>>::empty(),
            r@.labels == Seq::<(usize, StringIdx)>::empty(),
            r.wf(),
    {
        let r = Program {
            instructions: Vec::new(),
            functions: Vec::new(),
            strings: Vec::new(),
            labels: Vec::new(),
        };
        proof {
            assert(r@.functions =~= Seq::<FunctionView>::empty());
            assert(r@.strings =~= Seq::<Seq<char>>::empty());
        }
        r
    }

    /// Adds a label standing at the current end of the instruction buffer,
    /// with the given name.
    pub fn add_label(&mut self, string: String) -> (r: LabelIdx)
        requires
            old(self)@.strings.len() < u32::MAX,
            old(self)@.labels.len() < u32::MAX,
        ensures
            r.0 == old(self)@.labels.len(),
            final(self).instructions == old(self).instructions,
            final(self)@.functions == old(self)@.functions,
            final(self)@.strings == old(self)@.strings.push(string@),
            final(self)@.labels == old(self)@.labels.push(
                (old(self).instructions@.len() as usize, StringIdx(old(self)@.strings.len() as u32)),
            ),
            tables_extend(old(self)@, final(self)@),
            old(self).wf() ==> final(self).wf(),
    {
        self.strings.push(string);
        let string_idx = StringIdx((self.strings.len() - 1) as u32);
        let current_position = self.instructions.len();
        self.labels.push((current_position, string_idx));
        proof {
            assert(self@.strings =~= old(self)@.strings.push(string@));
            assert(self@.functions =~= old(self)@.functions);
        }
        LabelIdx((self.labels.len() - 1) as u32)
    }

    /// The offset (in the instruction buffer) a label stands at.
    pub fn get_label_offset(&self, idx: LabelIdx) -> (r: usize)
        requires
            idx.0 < self@.labels.len(),
        ensures
            r == self@.labels[idx.0 as int].0,
    {
        self.labels[idx.0 as usize].0
    }

    /// The name of a label.
    pub fn get_label_name(&self, idx: LabelIdx) -> (r: &str)
        requires
            self.wf(),
            idx.0 < self@.labels.len(),
        ensures
            r@ == self@.strings[self@.labels[idx.0 as int].1.0 as int],
    {
        self.get_string(self.labels[idx.0 as usize].1)
    }

    /// Adds a string to the string table.
    pub fn add_string(&mut self, string: String) -> (r: StringIdx)
        requires
            old(self)@.strings.len() < u32::MAX,
        ensures
            r.0 == old(self)@.strings.len(),
            final(self).instructions == old(self).instructions,
            final(self)@.functions == old(self)@.functions,
            final(self)@.strings == old(self)@.strings.push(string@),
            final(self)@.labels == old(self)@.labels,
            tables_extend(old(self)@, final(self)@),
            old(self).wf() ==> final(self).wf(),
    {
        self.strings.push(string);
        proof {
            assert(self@.strings =~= old(self)@.strings.push(string@));
            assert(self@.functions =~= old(self)@.functions);
        }
        StringIdx((self.strings.len() - 1) as u32)
    }

    /// A string of the string table.
    pub fn get_string(&self, idx: StringIdx) -> (r: &str)
        requires
            idx.0 < self@.strings.len(),
        ensures
            r@ == self@.strings[idx.0 as int],
    {
        self.strings[idx.0 as usize].as_str()
    }

    /// Adds a function to the function table.
    pub fn add_function(&mut self, function: FunctionInternal) -> (r: FunctionIdx)
        requires
            old(self)@.functions.len() < u32::MAX,
        ensures
            r.0 == old(self)@.functions.len(),
            final(self).instructions == old(self).instructions,
            final(self)@.functions == old(self)@.functions.push(function@),
            final(self)@.strings == old(self)@.strings,
            final(self)@.labels == old(self)@.labels,
            tables_extend(old(self)@, final(self)@),
    {
        self.functions.push(function);
        proof {
            assert(self@.functions =~= old(self)@.functions.push(function@));
            assert(self@.strings =~= old(self)@.strings);
        }
        FunctionIdx((self.functions.len() - 1) as u32)
    }

    /// Number of functions.
    pub fn num_functions(&self) -> (r: usize)
        ensures
            r == self@.functions.len(),
    {
        self.functions.len()
    }
}

/// Whether two strings are equal.
pub fn str_eq(a: &str, b: &str) -> (r: bool)
    ensures
        r == (a@ == b@),
{
    let x = a.to_owned();
    let y = b.to_owned();
    x == y
}

/// Placing `x` at position `j` of `s` is inserting it by offset, when every
/// element from `j` on has a larger offset and the one before does not.
proof fn lemma_insert_by_offset(s: Seq<(LabelIdx, Seq<char>, int)>, x: (LabelIdx, Seq<char>, int), j: int)
    requires
        0 <= j <= s.len(),
        forall|k: int| j <= k < s.len() ==> (#[trigger] s[k]).2 > x.2,
        j > 0 ==> s[j - 1].2 <= x.2,
    ensures
        insert_by_offset(s, x) == s.insert(j, x),
    decreases s.len(),
{
    if s.len() == 0 {
        assert(s.insert(j, x) =~= seq![x]);
    } else if j == s.len() {
        assert(s.insert(j, x) =~= s.push(x));
    } else {
        lemma_insert_by_offset(s.drop_last(), x, j);
        assert(s.insert(j, x) =~= s.drop_last().insert(j, x).push(s.last()));
    }
}

/// Inserts a label after every label whose offset is at most its offset.
fn insert_label<'a>(v: &mut Vec<Label<'a>>, x: Label<'a>)
    ensures
        final(v)@.map_values(|l: Label<'a>| label_view(l)) == insert_by_offset(
            old(v)@.map_values(|l: Label<'a>| label_view(l)),
            label_view(x),
        ),
{
    let ghost sv = old(v)@.map_values(|l: Label<'a>| label_view(l));
    let mut j: usize = v.len();
    while j > 0 && v[j - 1].offset > x.offset
        invariant
            j <= v@.len(),
            v@ == old(v)@,
            sv == old(v)@.map_values(|l: Label<'a>| label_view(l)),
            forall|k: int| j <= k < v@.len() ==> (#[trigger] sv[k]).2 > label_view(x).2,
        decreases j,
    {
        j = j - 1;
    }
    proof {
        lemma_insert_by_offset(sv, label_view(x), j as int);
    }
    v.insert(j, x);
    proof {
        assert(v@.map_values(|l: Label<'a>| label_view(l)) =~= sv.insert(j as int, label_view(x)));
    }
}


/// Labels ordered by offset.
pub open spec fn offsets_sorted(s: Seq<(LabelIdx, Seq<char>, int)>) -> bool {
    forall|a: int, b: int| 0 <= a <= b < s.len() ==> (#[trigger] s[a]).2 <= (#[trigger] s[b]).2
}

/// Inserting by offset keeps labels ordered and adds just the one label.
proof fn lemma_insert_by_offset_props(s: Seq<(LabelIdx, Seq<char>, int)>, x: (LabelIdx, Seq<char>, int))
    requires
        offsets_sorted(s),
    ensures
        offsets_sorted(insert_by_offset(s, x)),
        insert_by_offset(s, x).len() == s.len() + 1,
        forall|k: int|
            0 <= k < insert_by_offset(s, x).len() ==> #[trigger] insert_by_offset(s, x)[k] == x || s.contains(
                insert_by_offset(s, x)[k],
            ),
        forall|k: int| 0 <= k < insert_by_offset(s, x).len() ==> (#[trigger] insert_by_offset(s, x)[k]).2 >= x.2 || s.contains(insert_by_offset(s, x)[k]) && insert_by_offset(s, x)[k].2 <= x.2,
    decreases s.len(),
{
    let r = insert_by_offset(s, x);
    if s.len() == 0 {
    } else if s.last().2 <= x.2 {
        assert forall|k: int| 0 <= k < r.len() implies #[trigger] r[k] == x || s.contains(r[k]) by {
            if k < s.len() {
                assert(r[k] == s[k]);
            }
        }
        assert forall|k: int| 0 <= k < r.len() implies (#[trigger] r[k]).2 >= x.2 || s.contains(r[k]) && r[k].2 <= x.2 by {
            if k < s.len() {
                assert(r[k] == s[k]);
                assert(s[k].2 <= s[s.len() - 1].2);
            }
        }
    } else {
        let s0 = s.drop_last();
        assert(offsets_sorted(s0)) by {
            assert forall|a: int, b: int| 0 <= a <= b < s0.len() implies (#[trigger] s0[a]).2 <= (#[trigger] s0[b]).2 by {
                assert(s0[a] == s[a] && s0[b] == s[b]);
            }
        }
        lemma_insert_by_offset_props(s0, x);
        let r0 = insert_by_offset(s0, x);
        assert(r == r0.push(s.last()));
        assert forall|k: int| 0 <= k < r.len() implies #[trigger] r[k] == x || s.contains(r[k]) by {
            if k < r0.len() {
                assert(r[k] == r0[k]);
                if r0[k] != x {
                    let j = choose|j: int| 0 <= j < s0.len() && s0[j] == r0[k];
                    assert(s[j] == r0[k]);
                }
            } else {
                assert(r[k] == s[s.len() - 1]);
            }
        }
        assert forall|k: int| 0 <= k < r.len() implies (#[trigger] r[k]).2 >= x.2 || s.contains(r[k]) && r[k].2 <= x.2 by {
            if k < r0.len() {
                assert(r[k] == r0[k]);
                if !(r0[k].2 >= x.2) {
                    let j = choose|j: int| 0 <= j < s0.len() && s0[j] == r0[k];
                    assert(s[j] == r0[k]);
                }
            }
        }
        assert forall|a: int, b: int| 0 <= a <= b < r.len() implies (#[trigger] r[a]).2 <= (#[trigger] r[b]).2 by {
            if b == r.len() - 1 && a < b {
                assert(r[a] == r0[a]);
                if r0[a] != x {
                    let j = choose|j: int| 0 <= j < s0.len() && s0[j] == r0[a];
                    assert(s[j] == r0[a]);
                    assert(s[j].2 <= s[s.len() - 1].2);
                }
            } else if b < r.len() - 1 {
                assert(r[a] == r0[a] && r[b] == r0[b]);
            }
        }
    }
}

/// Sorting by offset orders the labels and keeps just them.
proof fn lemma_sort_by_offset_props(s: Seq<(LabelIdx, Seq<char>, int)>)
    ensures
        offsets_sorted(sort_by_offset(s)),
        sort_by_offset(s).len() == s.len(),
        forall|k: int| 0 <= k < sort_by_offset(s).len() ==> s.contains(#[trigger] sort_by_offset(s)[k]),
    decreases s.len(),
{
    if s.len() > 0 {
        let s0 = s.drop_last();
        lemma_sort_by_offset_props(s0);
        let r0 = sort_by_offset(s0);
        lemma_insert_by_offset_props(r0, s.last());
        let r = sort_by_offset(s);
        assert forall|k: int| 0 <= k < r.len() implies s.contains(#[trigger] r[k]) by {
            if r[k] == s.last() {
                assert(s[s.len() - 1] == r[k]);
            } else {
                assert(r0.contains(r[k]));
                let j = choose|j: int| 0 <= j < r0.len() && r0[j] == r[k];
                assert(s0.contains(r0[j]));
                let i = choose|i: int| 0 <= i < s0.len() && s0[i] == r0[j];
                assert(s[i] == r[k]);
            }
        }
    }
}


/// A function of a well-formed program is well formed.
proof fn lemma_function_wf(p: &Program, idx: int, f: Function)
    requires
        p.wf(),
        0 <= idx < p@.functions.len(),
        p.function_is(idx, f),
    ensures
        f.wf(),
{
    let fv = p@.functions[idx];
    let entries = fv.labels.map_values(|l: LabelIdx| label_entry(p@, fv, l));
    let ls = f.labels@;
    let lv = ls.map_values(|l: Label| label_view(l));
    lemma_sort_by_offset_props(entries);
    assert(lv == sort_by_offset(entries));
    assert forall|a: int| 0 <= a < ls.len() implies (#[trigger] ls[a]).offset <= f.instructions@.len() by {
        assert(lv[a] == label_view(ls[a]));
        assert(entries.contains(lv[a]));
        let j = choose|j: int| 0 <= j < entries.len() && entries[j] == lv[a];
        let l = fv.labels[j];
        assert(fv.start <= p@.labels[l.0 as int].0 <= fv.end);
    }
    assert forall|a: int, b: int| 0 <= a <= b < ls.len() implies (#[trigger] ls[a]).offset <= (#[trigger] ls[b]).offset by {
        assert(lv[a] == label_view(ls[a]) && lv[b] == label_view(ls[b]));
    }
    assert forall|a: int, b: int|
        0 <= a < ls.len() && 0 <= b < ls.len() && (#[trigger] ls[a]).idx == (#[trigger] ls[b]).idx implies label_view(ls[a])
        == label_view(ls[b]) by {
        assert(lv[a] == label_view(ls[a]) && lv[b] == label_view(ls[b]));
        assert(entries.contains(lv[a]) && entries.contains(lv[b]));
        let i = choose|i: int| 0 <= i < entries.len() && entries[i] == lv[a];
        let j = choose|j: int| 0 <= j < entries.len() && entries[j] == lv[b];
    }
}
impl Program {
    /// The function at `idx` as seen by its callers: `f` is it.
    pub open spec fn function_is(&self, idx: int, f: Function) -> bool {
        let fv = self@.functions[idx];
        &&& f.instructions@ == self.instructions@.subrange(fv.start, fv.end)
        &&& f.name@ == self@.strings[fv.name.0 as int]
        &&& f.parameters@ == fv.parameters
        &&& f.labels@.map_values(|l: Label| label_view(l)) == sort_by_offset(
            fv.labels.map_values(|l: LabelIdx| label_entry(self@, fv, l)),
        )
        &&& f.return_type == fv.return_type
    }

    /// The function at `idx`, with its labels ordered by offset.
    pub fn get_function(&self, idx: FunctionIdx) -> (r: Function<'_>)
        requires
            self.wf(),
            idx.0 < self@.functions.len(),
        ensures
            self.function_is(idx.0 as int, r),
            r.wf(),
    {
        let function = &self.functions[idx.0 as usize];
        let ghost fv = function@;
        let start = function.range.start;
        let ghost entries = fv.labels.map_values(|l: LabelIdx| label_entry(self@, fv, l));
        let mut labels: Vec<Label> = Vec::new();
        let mut k: usize = 0;
        proof {
            assert(self@.functions[idx.0 as int] == fv);
        }
        while k < function.labels.len()
            invariant
                self.wf(),
                idx.0 < self@.functions.len(),
                fv == self@.functions[idx.0 as int],
                fv == function@,
                start == fv.start,
                k <= fv.labels.len(),
                entries == fv.labels.map_values(|l: LabelIdx| label_entry(self@, fv, l)),
                labels@.map_values(|l: Label| label_view(l)) == sort_by_offset(entries.take(k as int)),
            decreases function.labels.len() - k,
        {
            let label_idx = function.labels[k];
            proof {
                assert(fv.labels[k as int] == label_idx);
                assert(label_idx.0 < self@.labels.len());
            }
            let offset = self.get_label_offset(label_idx);
            let name = self.get_label_name(label_idx);
            let label = Label { idx: label_idx, name, offset: offset - start };
            insert_label(&mut labels, label);
            proof {
                assert(entries.take(k + 1).drop_last() =~= entries.take(k as int));
                assert(label_view(label) == entries[k as int]);
            }
            k = k + 1;
        }
        proof {
            assert(entries.take(fv.labels.len() as int) =~= entries);
        }
        let r = Function {
            instructions: vstd::slice::slice_subrange(
                self.instructions.as_slice(),
                function.range.start,
                function.range.end,
            ),
            name: self.get_string(function.name),
            parameters: function.parameters.as_slice(),
            return_type: function.return_type,
            labels,
        };
        proof {
            lemma_function_wf(self, idx.0 as int, r);
        }
        r
    }

    /// All functions, in order.
    pub fn functions(&self) -> (r: Vec<Function<'_>>)
        requires
            self.wf(),
        ensures
            r@.len() == self@.functions.len(),
            forall|i: int| 0 <= i < r@.len() ==> self.function_is(i, #[trigger] r@[i]),
    {
        let mut r: Vec<Function> = Vec::new();
        let mut idx: usize = 0;
        while idx < self.functions.len()
            invariant
                self.wf(),
                idx <= self@.functions.len(),
                r@.len() == idx,
                forall|i: int| 0 <= i < r@.len() ==> self.function_is(i, #[trigger] r@[i]),
            decreases self.functions.len() - idx,
        {
            r.push(self.get_function(FunctionIdx(idx as u32)));
            idx = idx + 1;
        }
        r
    }

    /// The index of the first function with the given name.
    pub fn find_function_symbol(&self, name: &str) -> (r: Option<FunctionIdx>)
        requires
            self.wf(),
        ensures
            match r {
                Some(f) => f.0 < self@.functions.len() && self@.strings[self@.functions[f.0 as int].name.0 as int]
                    == name@ && forall|i: int|
                    0 <= i < f.0 ==> self@.strings[(#[trigger] self@.functions[i]).name.0 as int] != name@,
                None => forall|i: int|
                    0 <= i < self@.functions.len() ==> self@.strings[(#[trigger] self@.functions[i]).name.0 as int] != name@,
            },
    {
        let mut idx: usize = 0;
        while idx < self.functions.len()
            invariant
                self.wf(),
                idx <= self@.functions.len(),
                forall|i: int| 0 <= i < idx ==> self@.strings[(#[trigger] self@.functions[i]).name.0 as int] != name@,
            decreases self.functions.len() - idx,
        {
            proof {
                assert(self@.functions[idx as int] == self.functions@[idx as int]@);
            }
            if str_eq(self.get_string(self.functions[idx].name), name) {
                return Some(FunctionIdx(idx as u32));
            }
            idx = idx + 1;
        }
        None
    }
}

} // verus!
