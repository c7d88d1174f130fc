//! LLVM IR text for bytecode programs.
//!
//! The writer walks the code of each function in order and keeps a stack of
//! the LLVM values that the bytecode stack holds: their type text and their
//! name text. Each instruction that computes a value names it by a fresh
//! local; string literals become private globals listed after the functions.

use crate::bytecode::{self, Comparison, Instruction, Operator, Typ, pops, pushes};
use crate::ir_gen::{net, stack_safe};
use crate::text::{int_text, nat_text, push_char, push_i64, push_u64};
use vstd::prelude::*;

verus! {

/// The hexadecimal digit character for `d` (`0 <= d < 16`), in upper case.
pub open spec fn hex_char(d: int) -> char {
    if d < 10 {
        crate::text::digit_char(d)
    } else if d == 10 {
        'A'
    } else if d == 11 {
        'B'
    } else if d == 12 {
        'C'
    } else if d == 13 {
        'D'
    } else if d == 14 {
        'E'
    } else {
        'F'
    }
}

/// The last `k` hexadecimal digits of `n`, most significant first.
pub open spec fn hex_digits(n: nat, k: nat) -> Seq<char>
    decreases k,
{
    if k == 0 {
        Seq::empty()
    } else {
        hex_digits(n / 16, (k - 1) as nat).push(hex_char((n % 16) as int))
    }
}

/// The number of bytes of the UTF-8 encoding of a character.
pub open spec fn utf8_width(c: char) -> nat {
    if (c as u32) < 0x80 {
        1
    } else if (c as u32) < 0x800 {
        2
    } else if (c as u32) < 0x10000 {
        3
    } else {
        4
    }
}

/// The number of bytes of the UTF-8 encoding of a text.
pub open spec fn utf8_len(s: Seq<char>) -> nat
    decreases s.len(),
{
    if s.len() == 0 {
        0
    } else {
        utf8_len(s.drop_last()) + utf8_width(s.last())
    }
}

/// The texts joined with `sep` between each two.
pub open spec fn join(items: Seq<Seq<char>>, sep: Seq<char>) -> Seq<char>
    decreases items.len(),
{
    if items.len() == 0 {
        Seq::empty()
    } else if items.len() == 1 {
        items[0]
    } else {
        join(items.drop_last(), sep) + sep + items.last()
    }
}

fn hex_digit(d: u64) -> (c: char)
    requires
        d < 16,
    ensures
        c == hex_char(d as int),
{
    if d < 10 {
        crate::text::digit(d)
    } else if d == 10 {
        'A'
    } else if d == 11 {
        'B'
    } else if d == 12 {
        'C'
    } else if d == 13 {
        'D'
    } else if d == 14 {
        'E'
    } else {
        'F'
    }
}

/// Appends the last `k` hexadecimal digits of `n` to `s`.
fn push_hex(s: &mut String, n: u64, k: u64)
    ensures
        final(s)@ == old(s)@ + hex_digits(n as nat, k as nat),
    decreases k,
{
    if k > 0 {
        push_hex(s, n / 16, k - 1);
        push_char(s, hex_digit(n % 16));
        assert(old(s)@ + hex_digits(n as nat, k as nat) =~= old(s)@ + hex_digits((n / 16) as nat, (k - 1) as nat)
            + seq![hex_char((n % 16) as int)]);
    } else {
        assert(old(s)@ + hex_digits(n as nat, k as nat) =~= old(s)@);
    }
}

/// The number of bytes of the UTF-8 encoding of `s`.
fn utf8_length(s: &str) -> (n: usize)
    requires
        utf8_len(s@) <= usize::MAX,
    ensures
        n == utf8_len(s@),
{
    let len = s.unicode_len();
    let mut i: usize = 0;
    let mut n: usize = 0;
    assert(s@.take(0) =~= Seq::<char>::empty());
    while i < len
        invariant
            len == s@.len(),
            i <= len,
            n == utf8_len(s@.take(i as int)),
            utf8_len(s@) <= usize::MAX,
        decreases len - i,
    {
        proof {
            assert(s@.take(i + 1).drop_last() =~= s@.take(i as int));
            lemma_utf8_len_prefix(s@, i + 1);
        }
        let c = s.get_char(i);
        let code = c as u32;
        let w: usize = if code < 0x80 {
            1
        } else if code < 0x800 {
            2
        } else if code < 0x10000 {
            3
        } else {
            4
        };
        n = n + w;
        i = i + 1;
    }
    assert(s@.take(len as int) =~= s@);
    n
}

pub proof fn lemma_utf8_len_prefix(s: Seq<char>, i: int)
    requires
        0 <= i <= s.len(),
    ensures
        utf8_len(s.take(i)) <= utf8_len(s),
    decreases s.len(),
{
    if i < s.len() {
        lemma_utf8_len_prefix(s.drop_last(), i);
        assert(s.drop_last().take(i) =~= s.take(i));
    } else {
        assert(s.take(i) =~= s);
    }
}

/// The name of the local value with id `id`.
pub open spec fn local_name(id: nat) -> Seq<char> {
    "%fuu"@ + nat_text(id)
}

/// The name of the global value with id `id`.
pub open spec fn global_name(id: nat) -> Seq<char> {
    "@baz"@ + nat_text(id)
}

/// The bytecode type has an LLVM type: an integer, a float or a pointer.
pub open spec fn llvm_typ_ok(t: Typ) -> bool {
    t is Int || t is Float || t is Ptr
}

/// The LLVM type text of a bytecode type.
pub open spec fn llvm_typ_text(t: Typ) -> Seq<char> {
    match t {
        Typ::Int => "i64"@,
        Typ::Float => "f64"@,
        _ => "i8*"@,
    }
}

/// The writer handles the instruction: arithmetic other than division,
/// the comparisons `<`, `>` and `==`, calls, literals, global names and jumps,
/// on types that have an LLVM type.
pub open spec fn instr_ok(i: Instruction) -> bool {
    match i {
        Instruction::Operator { op, typ } => !(op is Div) && llvm_typ_ok(typ),
        Instruction::Comparison { op, typ } => (op is Lt || op is Gt || op is Equal) && llvm_typ_ok(typ),
        Instruction::Call { typ, .. } => typ matches Some(t) ==> llvm_typ_ok(t),
        Instruction::StringLiteral(value) => utf8_len(value@) < usize::MAX,
        Instruction::Nop | Instruction::IntLiteral(_) | Instruction::FloatLiteral(_) | Instruction::LoadGlobalName { .. } | Instruction::Jump(_)
        | Instruction::JumpIf(_, _) => true,
        _ => false,
    }
}

/// How many fresh ids the writer takes for the instruction.
pub open spec fn ids_used(i: Instruction) -> nat {
    match i {
        Instruction::Operator { .. } | Instruction::Comparison { .. } => 1,
        Instruction::Call { typ, .. } => if typ is Some {
            1
        } else {
            0
        },
        Instruction::StringLiteral(_) => 2,
        _ => 0,
    }
}

/// The text of the operator of an arithmetic instruction.
pub open spec fn op_text(op: Operator) -> Seq<char> {
    match op {
        Operator::Add => "add"@,
        Operator::Sub => "sub"@,
        _ => "mul"@,
    }
}

/// The text of the operator of a comparison.
pub open spec fn comparison_text(op: Comparison) -> Seq<char> {
    match op {
        Comparison::Lt => "icmp slt"@,
        Comparison::Gt => "icmp sgt"@,
        _ => "icmp eq"@,
    }
}

/// A value written with its type, as an argument of a call.
pub open spec fn typed_value(v: (Seq<char>, Seq<char>)) -> Seq<char> {
    v.0 + " "@ + v.1
}

/// The text of the arguments of a call: the top `n` values, the deepest first.
pub open spec fn call_args(stack: Seq<(Seq<char>, Seq<char>)>, n: nat) -> Seq<char> {
    join(stack.subrange(stack.len() - n, stack.len() as int).map_values(|v: (Seq<char>, Seq<char>)| typed_value(v)), ", "@)
}

/// The text of a string literal global.
pub open spec fn literal_text(name: Seq<char>, value: Seq<char>) -> Seq<char> {
    name + " = private unnamed_addr constant ["@ + nat_text(utf8_len(value) + 1) + " x i8] c\""@ + value + "\\00\""@
}

/// The lines that the writer emits for an instruction, given its stack of
/// values and its next fresh id.
pub open spec fn instr_lines(stack: Seq<(Seq<char>, Seq<char>)>, c: nat, i: Instruction) -> Seq<Seq<char>> {
    let n = stack.len();
    match i {
        Instruction::Operator { op, typ } => seq![
            "    "@ + local_name(c) + " = "@ + op_text(op) + " "@ + llvm_typ_text(typ) + " "@ + stack[n - 2].1 + ", "@
                + stack[n - 1].1 + ";"@,
        ],
        Instruction::StringLiteral(value) => {
            let size = nat_text(utf8_len(value@) + 1);
            seq![
                "    "@ + local_name(c + 1) + " = getelementptr ["@ + size + " x i8], ["@ + size + " x i8]* "@
                    + global_name(c) + ", i64 0, i64 0"@,
            ]
        },
        Instruction::Comparison { op, typ } => seq![
            "    "@ + local_name(c) + " = "@ + comparison_text(op) + " "@ + llvm_typ_text(typ) + " "@ + stack[n - 2].1 + ", "@
                + stack[n - 1].1,
        ],
        Instruction::Call { n_args, typ } => {
            let callee = stack[n - n_args - 1].1;
            let args = call_args(stack, n_args as nat);
            match typ {
                Some(t) => seq!["    res_var = call "@ + llvm_typ_text(t) + " "@ + callee + "("@ + args + ")"@],
                None => seq!["    call void "@ + callee + "("@ + args + ")"@],
            }
        },
        Instruction::Jump(t) => seq!["    br label %block"@ + nat_text(t as nat)],
        Instruction::JumpIf(a, b) => seq![
            "    br i1 "@ + stack[n - 1].1 + ", label %block"@ + nat_text(a as nat) + ", label %block"@ + nat_text(
                b as nat,
            ),
        ],
        _ => Seq::empty(),
    }
}

/// The writer's stack of values after an instruction.
pub open spec fn instr_stack(stack: Seq<(Seq<char>, Seq<char>)>, c: nat, i: Instruction) -> Seq<(Seq<char>, Seq<char>)> {
    let n = stack.len();
    match i {
        Instruction::Operator { typ, .. } => stack.take(n - 2).push((llvm_typ_text(typ), local_name(c))),
        Instruction::IntLiteral(v) => stack.push(("i64"@, int_text(v as int))),
        Instruction::StringLiteral(_) => stack.push(("i8*"@, local_name(c + 1))),
        Instruction::FloatLiteral(bits) => stack.push(("f64"@, "0x"@ + hex_digits(bits as nat, 16))),
        Instruction::Comparison { .. } => stack.take(n - 2).push(("i1"@, local_name(c))),
        Instruction::Call { n_args, typ } => match typ {
            Some(t) => stack.take(n - n_args - 1).push((llvm_typ_text(t), local_name(c))),
            None => stack.take(n - n_args - 1),
        },
        Instruction::LoadGlobalName { name, .. } => stack.push((Seq::empty(), "@"@ + name@)),
        Instruction::JumpIf(_, _) => stack.take(n - 1),
        _ => stack,
    }
}

/// The string literal globals that an instruction adds.
pub open spec fn instr_literals(c: nat, i: Instruction) -> Seq<Seq<char>> {
    match i {
        Instruction::StringLiteral(value) => seq![literal_text(global_name(c), value@)],
        _ => Seq::empty(),
    }
}

/// Running the writer over code from an empty stack with next id `c0`: the
/// lines, the stack of values, the next id and the literals.
pub open spec fn code_run(c0: nat, code: Seq<Instruction>) -> (
    Seq<Seq<char>>,
    Seq<(Seq<char>, Seq<char>)>,
    nat,
    Seq<Seq<char>>,
)
    decreases code.len(),
{
    if code.len() == 0 {
        (Seq::empty(), Seq::empty(), c0, Seq::empty())
    } else {
        let prev = code_run(c0, code.drop_last());
        let i = code.last();
        (
            prev.0 + instr_lines(prev.1, prev.2, i),
            instr_stack(prev.1, prev.2, i),
            prev.2 + ids_used(i),
            prev.3 + instr_literals(prev.2, i),
        )
    }
}

/// A parameter as the function header lists it.
pub open spec fn param_text(p: bytecode::Parameter) -> Seq<char> {
    llvm_typ_text(p.typ) + " %"@ + p.name@
}

/// The header line of a function definition.
pub open spec fn header_line(f: bytecode::Function) -> Seq<char> {
    "define void @"@ + f.name@ + "("@ + join(f.parameters@.map_values(|p: bytecode::Parameter| param_text(p)), ", "@)
        + ") {"@
}

/// The lines of a function whose code starts with next id `c0`.
pub open spec fn function_lines(c0: nat, f: bytecode::Function) -> Seq<Seq<char>> {
    seq![header_line(f)] + code_run(c0, f.code@).0 + seq!["    ret void"@, "}"@, Seq::empty()]
}

/// Running the writer over functions: the lines, the next id and the literals.
pub open spec fn funcs_run(c0: nat, fs: Seq<bytecode::Function>) -> (Seq<Seq<char>>, nat, Seq<Seq<char>>)
    decreases fs.len(),
{
    if fs.len() == 0 {
        (Seq::empty(), c0, Seq::empty())
    } else {
        let prev = funcs_run(c0, fs.drop_last());
        let run = code_run(prev.1, fs.last().code@);
        (prev.0 + function_lines(prev.1, fs.last()), run.2, prev.2 + run.3)
    }
}

/// The lines of the LLVM text of a program: a fixed prologue, the functions,
/// the string literals, and an empty line.
pub open spec fn program_lines(p: bytecode::Program) -> Seq<Seq<char>> {
    let run = funcs_run(0, p.functions@);
    seq![Seq::empty(), "; Text generated!!"@, Seq::empty(), "declare void @std_print(i8* nocapture) nounwind"@, Seq::empty()]
        + run.0 + run.2 + seq![Seq::empty()]
}

/// Lines joined into a text, each ended by a newline.
pub open spec fn lines_text(lines: Seq<Seq<char>>) -> Seq<char>
    decreases lines.len(),
{
    if lines.len() == 0 {
        Seq::empty()
    } else {
        lines_text(lines.drop_last()) + lines.last() + seq!['\n']
    }
}

/// The writer handles the function: its parameter types have LLVM types,
/// it handles each instruction, and the code never takes a value from the
/// stack that it did not put there.
pub open spec fn function_ok(f: bytecode::Function) -> bool {
    &&& forall|i: int| 0 <= i < f.parameters@.len() ==> llvm_typ_ok(#[trigger] f.parameters@[i].typ)
    &&& forall|k: int| 0 <= k < f.code@.len() ==> instr_ok(#[trigger] f.code@[k])
    &&& stack_safe(f.code@)
}

/// The writer handles every function of the program, and the ids it takes fit in a `usize`.
pub open spec fn program_ok(p: bytecode::Program) -> bool {
    &&& forall|i: int| 0 <= i < p.functions@.len() ==> function_ok(#[trigger] p.functions@[i])
    &&& funcs_run(0, p.functions@).1 <= usize::MAX
}

pub proof fn lemma_instr_stack_len(stack: Seq<(Seq<char>, Seq<char>)>, c: nat, i: Instruction)
    requires
        instr_ok(i),
        stack.len() >= pops(i),
    ensures
        instr_stack(stack, c, i).len() == stack.len() - pops(i) + pushes(i),
{
}

pub proof fn lemma_code_run_ids(c0: nat, code: Seq<Instruction>, k: int)
    requires
        0 <= k <= code.len(),
    ensures
        c0 <= code_run(c0, code.take(k)).2 <= code_run(c0, code).2,
    decreases code.len(),
{
    if k < code.len() {
        lemma_code_run_ids(c0, code.drop_last(), k);
        assert(code.drop_last().take(k) =~= code.take(k));
    } else {
        assert(code.take(k) =~= code);
        if code.len() > 0 {
            lemma_code_run_ids(c0, code.drop_last(), k - 1);
            assert(code.drop_last().take(k - 1) =~= code.drop_last());
        }
    }
}

pub proof fn lemma_funcs_run_ids(c0: nat, fs: Seq<bytecode::Function>, k: int)
    requires
        0 <= k <= fs.len(),
    ensures
        c0 <= funcs_run(c0, fs.take(k)).1 <= funcs_run(c0, fs).1,
    decreases fs.len(),
{
    if k < fs.len() {
        lemma_funcs_run_ids(c0, fs.drop_last(), k);
        assert(fs.drop_last().take(k) =~= fs.take(k));
        let prev = funcs_run(c0, fs.drop_last());
        lemma_code_run_ids(prev.1, fs.last().code@, 0);
    } else {
        assert(fs.take(k) =~= fs);
        if fs.len() > 0 {
            lemma_funcs_run_ids(c0, fs.drop_last(), k - 1);
            assert(fs.drop_last().take(k - 1) =~= fs.drop_last());
            let prev = funcs_run(c0, fs.drop_last());
            lemma_code_run_ids(prev.1, fs.last().code@, 0);
        }
    }
}

/// The view of a list of strings.
pub open spec fn texts(v: Seq<String>) -> Seq<Seq<char>> {
    v.map_values(|s: String| s@)
}

/// The writer's state while it translates a program.
struct LLVMWriter {
    /// The lines written so far.
    lines: Vec<String>,
    /// The values of the bytecode stack: type text and name text.
    stack: Vec<(String, String)>,
    id_counter: usize,
    /// The string literal globals, written after the functions.
    string_literals: Vec<String>,
}

impl LLVMWriter {
    spec fn stack_view(&self) -> Seq<(Seq<char>, Seq<char>)> {
        self.stack@.map_values(|e: (String, String)| (e.0@, e.1@))
    }

    fn new() -> (w: Self)
        ensures
            w.lines@.len() == 0,
            w.stack@.len() == 0,
            w.id_counter == 0,
            w.string_literals@.len() == 0,
    {
        LLVMWriter { lines: Vec::new(), stack: Vec::new(), id_counter: 0, string_literals: Vec::new() }
    }

    fn writeln(&mut self, line: String)
        ensures
            texts(final(self).lines@) == texts(old(self).lines@).push(line@),
            final(self).stack == old(self).stack,
            final(self).id_counter == old(self).id_counter,
            final(self).string_literals == old(self).string_literals,
    {
        self.lines.push(line);
        assert(texts(self.lines@) =~= texts(old(self).lines@).push(line@));
    }

    fn new_id(&mut self) -> (id: usize)
        requires
            old(self).id_counter < usize::MAX,
        ensures
            id == old(self).id_counter,
            final(self).id_counter == old(self).id_counter + 1,
            final(self).lines == old(self).lines,
            final(self).stack == old(self).stack,
            final(self).string_literals == old(self).string_literals,
    {
        let new_id = self.id_counter;
        self.id_counter += 1;
        new_id
    }

    fn new_local(&mut self) -> (name: String)
        requires
            old(self).id_counter < usize::MAX,
        ensures
            name@ == local_name(old(self).id_counter as nat),
            final(self).id_counter == old(self).id_counter + 1,
            final(self).lines == old(self).lines,
            final(self).stack == old(self).stack,
            final(self).string_literals == old(self).string_literals,
    {
        let new_id = self.new_id();
        let mut name = "%fuu".to_owned();
        push_u64(&mut name, new_id as u64);
        name
    }

    fn new_global(&mut self) -> (name: String)
        requires
            old(self).id_counter < usize::MAX,
        ensures
            name@ == global_name(old(self).id_counter as nat),
            final(self).id_counter == old(self).id_counter + 1,
            final(self).lines == old(self).lines,
            final(self).stack == old(self).stack,
            final(self).string_literals == old(self).string_literals,
    {
        let new_id = self.new_id();
        let mut name = "@baz".to_owned();
        push_u64(&mut name, new_id as u64);
        name
    }

    fn push(&mut self, typ: String, name: String)
        ensures
            final(self).stack_view() == old(self).stack_view().push((typ@, name@)),
            final(self).stack@.len() == old(self).stack@.len() + 1,
            final(self).lines == old(self).lines,
            final(self).id_counter == old(self).id_counter,
            final(self).string_literals == old(self).string_literals,
    {
        self.stack.push((typ, name));
        assert(self.stack_view() =~= old(self).stack_view().push((typ@, name@)));
    }

    fn pop(&mut self) -> (v: (String, String))
        requires
            old(self).stack@.len() > 0,
        ensures
            (v.0@, v.1@) == old(self).stack_view().last(),
            final(self).stack_view() == old(self).stack_view().drop_last(),
            final(self).stack@.len() == old(self).stack@.len() - 1,
            final(self).lines == old(self).lines,
            final(self).id_counter == old(self).id_counter,
            final(self).string_literals == old(self).string_literals,
    {
        let v = match self.stack.pop() {
            Some(v) => v,
            None => (String::new(), String::new()),
        };
        assert(self.stack_view() =~= old(self).stack_view().drop_last());
        v
    }

    fn pop_typed(&mut self) -> (text: String)
        requires
            old(self).stack@.len() > 0,
        ensures
            text@ == typed_value(old(self).stack_view().last()),
            final(self).stack_view() == old(self).stack_view().drop_last(),
            final(self).stack@.len() == old(self).stack@.len() - 1,
            final(self).lines == old(self).lines,
            final(self).id_counter == old(self).id_counter,
            final(self).string_literals == old(self).string_literals,
    {
        let (arg_ty, arg_name) = self.pop();
        let mut text = arg_ty;
        text.append(" ");
        text.append(arg_name.as_str());
        text
    }

    fn pop_untyped(&mut self) -> (name: String)
        requires
            old(self).stack@.len() > 0,
        ensures
            name@ == old(self).stack_view().last().1,
            final(self).stack_view() == old(self).stack_view().drop_last(),
            final(self).stack@.len() == old(self).stack@.len() - 1,
            final(self).lines == old(self).lines,
            final(self).id_counter == old(self).id_counter,
            final(self).string_literals == old(self).string_literals,
    {
        let (_, arg_name) = self.pop();
        arg_name
    }

    /// Translate one instruction: emit its line, if any, and update the
    /// stack of values.
    fn gen_instruction(&mut self, instruction: &Instruction)
        requires
            instr_ok(*instruction),
            old(self).stack@.len() >= pops(*instruction),
            old(self).id_counter + ids_used(*instruction) <= usize::MAX,
        ensures
            texts(final(self).lines@) == texts(old(self).lines@) + instr_lines(
                old(self).stack_view(),
                old(self).id_counter as nat,
                *instruction,
            ),
            final(self).stack_view() == instr_stack(old(self).stack_view(), old(self).id_counter as nat, *instruction),
            final(self).id_counter == old(self).id_counter + ids_used(*instruction),
            texts(final(self).string_literals@) == texts(old(self).string_literals@) + instr_literals(
                old(self).id_counter as nat,
                *instruction,
            ),
    {
        let ghost st = self.stack_view();
        let ghost n = st.len();
        let ghost c = self.id_counter as nat;
        let ghost i0 = *instruction;
        let ghost lines0 = texts(self.lines@);
        let ghost lits0 = texts(self.string_literals@);
        match instruction {
            Instruction::Operator { op, typ } => {
                let op_name = match *op {
                    Operator::Add => "add".to_owned(),
                    Operator::Sub => "sub".to_owned(),
                    _ => "mul".to_owned(),
                };
                let typ_text = get_llvm_typ(typ);
                let rhs = self.pop_untyped();
                let lhs = self.pop_untyped();
                let new_var = self.new_local();
                let mut line = "    ".to_owned();
                line.append(new_var.as_str());
                line.append(" = ");
                line.append(op_name.as_str());
                line.append(" ");
                line.append(typ_text.as_str());
                line.append(" ");
                line.append(lhs.as_str());
                line.append(", ");
                line.append(rhs.as_str());
                line.append(";");
                self.writeln(line);
                self.push(typ_text, new_var);
                proof {
                    assert(st.drop_last().drop_last() =~= st.take(n - 2));
                    assert(st.drop_last().last() == st[n - 2]);
                    assert(texts(self.lines@) =~= lines0 + instr_lines(st, c, i0));
                    assert(texts(self.string_literals@) =~= lits0 + instr_literals(c, i0));
                }
            },
            Instruction::Nop => {
                assert(texts(self.lines@) =~= lines0 + instr_lines(st, c, i0));
                assert(texts(self.string_literals@) =~= lits0 + instr_literals(c, i0));
            },
            Instruction::IntLiteral(value) => {
                let mut text = String::new();
                push_i64(&mut text, *value);
                self.push("i64".to_owned(), text);
                assert(texts(self.lines@) =~= lines0 + instr_lines(st, c, i0));
                assert(texts(self.string_literals@) =~= lits0 + instr_literals(c, i0));
            },
            Instruction::StringLiteral(value) => {
                let literal_name = self.new_global();
                let literal_size = utf8_length(value.as_str()) + 1;
                let mut size_text = String::new();
                push_u64(&mut size_text, literal_size as u64);
                let mut literal = literal_name.clone();
                literal.append(" = private unnamed_addr constant [");
                literal.append(size_text.as_str());
                literal.append(" x i8] c\"");
                literal.append(value.as_str());
                literal.append("\\00\"");
                self.string_literals.push(literal);
                let new_var = self.new_local();
                let mut line = "    ".to_owned();
                line.append(new_var.as_str());
                line.append(" = getelementptr [");
                line.append(size_text.as_str());
                line.append(" x i8], [");
                line.append(size_text.as_str());
                line.append(" x i8]* ");
                line.append(literal_name.as_str());
                line.append(", i64 0, i64 0");
                self.writeln(line);
                self.push("i8*".to_owned(), new_var);
                proof {
                    assert(texts(self.lines@) =~= lines0 + instr_lines(st, c, i0));
                    assert(texts(self.string_literals@) =~= lits0 + instr_literals(c, i0));
                }
            },
            Instruction::FloatLiteral(bits) => {
                let mut text = "0x".to_owned();
                push_hex(&mut text, *bits, 16);
                self.push("f64".to_owned(), text);
                assert(texts(self.lines@) =~= lines0 + instr_lines(st, c, i0));
                assert(texts(self.string_literals@) =~= lits0 + instr_literals(c, i0));
            },
            Instruction::Comparison { op, typ } => {
                let (_, rhs) = self.pop();
                let (_, lhs) = self.pop();
                let op_name = match *op {
                    Comparison::Lt => "icmp slt".to_owned(),
                    Comparison::Gt => "icmp sgt".to_owned(),
                    _ => "icmp eq".to_owned(),
                };
                let typ_text = get_llvm_typ(typ);
                let new_var = self.new_local();
                let mut line = "    ".to_owned();
                line.append(new_var.as_str());
                line.append(" = ");
                line.append(op_name.as_str());
                line.append(" ");
                line.append(typ_text.as_str());
                line.append(" ");
                line.append(lhs.as_str());
                line.append(", ");
                line.append(rhs.as_str());
                self.writeln(line);
                self.push("i1".to_owned(), new_var);
                proof {
                    assert(st.drop_last().drop_last() =~= st.take(n - 2));
                    assert(st.drop_last().last() == st[n - 2]);
                    assert(texts(self.lines@) =~= lines0 + instr_lines(st, c, i0));
                    assert(texts(self.string_literals@) =~= lits0 + instr_literals(c, i0));
                }
            },
            Instruction::Call { n_args, typ } => {
                let n_args: usize = *n_args;
                let mut popped: Vec<String> = Vec::new();
                let mut j: usize = 0;
                while j < n_args
                    invariant
                        j <= n_args,
                        n == st.len(),
                        n >= n_args + 1,
                        popped@.len() == j,
                        self.stack_view() == st.take(n - j),
                        forall|q: int| 0 <= q < j ==> (#[trigger] popped@[q])@ == typed_value(st[n - 1 - q]),
                        self.lines == old(self).lines,
                        self.id_counter == old(self).id_counter,
                        self.string_literals == old(self).string_literals,
                    decreases n_args - j,
                {
                    proof {
                        assert(st.take(n - j).last() == st[n - 1 - j]);
                        assert(st.take(n - j).drop_last() =~= st.take(n - j - 1));
                    }
                    let text = self.pop_typed();
                    popped.push(text);
                    j = j + 1;
                }
                let mut args: Vec<String> = Vec::new();
                let mut q: usize = n_args;
                while q > 0
                    invariant
                        q <= n_args,
                        popped@.len() == n_args,
                        args@.len() == n_args - q,
                        forall|t: int| 0 <= t < n_args - q ==> (#[trigger] args@[t])@ == popped@[n_args - 1 - t]@,
                    decreases q,
                {
                    q = q - 1;
                    args.push(popped[q].clone());
                }
                let args_text = join_texts(&args, ", ");
                proof {
                    let sub = st.subrange(n - n_args, n as int).map_values(|v: (Seq<char>, Seq<char>)| typed_value(v));
                    assert(texts(args@) =~= sub) by {
                        assert forall|t: int| 0 <= t < n_args implies #[trigger] texts(args@)[t] == sub[t] by {
                            assert(args@[t]@ == popped@[n_args - 1 - t]@);
                        }
                    }
                    assert(st.take(n - n_args).last() == st[n - n_args - 1]);
                    assert(st.take(n - n_args).drop_last() =~= st.take(n - n_args - 1));
                }
                let (_, callee) = self.pop();
                match typ {
                    Some(t) => {
                        let _res_var = self.new_local();
                        let typ_text = get_llvm_typ(t);
                        let mut line = "    res_var = call ".to_owned();
                        line.append(typ_text.as_str());
                        line.append(" ");
                        line.append(callee.as_str());
                        line.append("(");
                        line.append(args_text.as_str());
                        line.append(")");
                        self.writeln(line);
                        self.push(typ_text, _res_var);
                    },
                    None => {
                        let mut line = "    call void ".to_owned();
                        line.append(callee.as_str());
                        line.append("(");
                        line.append(args_text.as_str());
                        line.append(")");
                        self.writeln(line);
                    },
                }
                proof {
                    assert(texts(self.lines@) =~= lines0 + instr_lines(st, c, i0));
                    assert(texts(self.string_literals@) =~= lits0 + instr_literals(c, i0));
                }
            },
            Instruction::LoadGlobalName { name, .. } => {
                let mut text = "@".to_owned();
                text.append(name.as_str());
                self.push(String::new(), text);
                assert(texts(self.lines@) =~= lines0 + instr_lines(st, c, i0));
                assert(texts(self.string_literals@) =~= lits0 + instr_literals(c, i0));
            },
            Instruction::Jump(label) => {
                let mut line = "    br label %block".to_owned();
                push_u64(&mut line, *label as u64);
                self.writeln(line);
                assert(texts(self.lines@) =~= lines0 + instr_lines(st, c, i0));
                assert(texts(self.string_literals@) =~= lits0 + instr_literals(c, i0));
            },
            Instruction::JumpIf(label, else_label) => {
                let (_, condition) = self.pop();
                let mut line = "    br i1 ".to_owned();
                line.append(condition.as_str());
                line.append(", label %block");
                push_u64(&mut line, *label as u64);
                line.append(", label %block");
                push_u64(&mut line, *else_label as u64);
                self.writeln(line);
                proof {
                    assert(st.drop_last() =~= st.take(n - 1));
                    assert(texts(self.lines@) =~= lines0 + instr_lines(st, c, i0));
                    assert(texts(self.string_literals@) =~= lits0 + instr_literals(c, i0));
                }
            },
            _ => {
                assert(false);
            },
        }
    }

    /// Translate a function: the header, the code, and a `ret void` at the end.
    fn gen_function(&mut self, func: &bytecode::Function)
        requires
            function_ok(*func),
            code_run(old(self).id_counter as nat, func.code@).2 <= usize::MAX,
        ensures
            texts(final(self).lines@) == texts(old(self).lines@) + function_lines(old(self).id_counter as nat, *func),
            final(self).id_counter == code_run(old(self).id_counter as nat, func.code@).2,
            texts(final(self).string_literals@) == texts(old(self).string_literals@) + code_run(
                old(self).id_counter as nat,
                func.code@,
            ).3,
    {
        let ghost c0 = self.id_counter as nat;
        let ghost code = func.code@;
        self.stack.clear();
        let mut parameters: Vec<String> = Vec::new();
        let mut i: usize = 0;
        while i < func.parameters.len()
            invariant
                i <= func.parameters@.len(),
                parameters@.len() == i,
                function_ok(*func),
                forall|q: int| 0 <= q < i ==> (#[trigger] parameters@[q])@ == param_text(func.parameters@[q]),
            decreases func.parameters@.len() - i,
        {
            let p = &func.parameters[i];
            let mut text = get_llvm_typ(&p.typ);
            text.append(" %");
            text.append(p.name.as_str());
            parameters.push(text);
            i = i + 1;
        }
        let p_text = join_texts(&parameters, ", ");
        let mut header = "define void @".to_owned();
        header.append(func.name.as_str());
        header.append("(");
        header.append(p_text.as_str());
        header.append(") {");
        proof {
            assert(texts(parameters@) =~= func.parameters@.map_values(|p: bytecode::Parameter| param_text(p)));
            assert(header@ == header_line(*func));
        }
        self.writeln(header);
        let ghost lines1 = texts(self.lines@);
        let ghost lits0 = texts(self.string_literals@);
        proof {
            assert(code.take(0) =~= Seq::<Instruction>::empty());
            assert(self.stack_view() =~= Seq::<(Seq<char>, Seq<char>)>::empty());
            assert(lines1 + Seq::<Seq<char>>::empty() =~= lines1);
            assert(lits0 + Seq::<Seq<char>>::empty() =~= lits0);
        }
        let mut k: usize = 0;
        while k < func.code.len()
            invariant
                k <= code.len(),
                code == func.code@,
                function_ok(*func),
                code_run(c0, code).2 <= usize::MAX,
                texts(self.lines@) == lines1 + code_run(c0, code.take(k as int)).0,
                self.stack_view() == code_run(c0, code.take(k as int)).1,
                self.stack@.len() == net(code.take(k as int)),
                self.id_counter == code_run(c0, code.take(k as int)).2,
                texts(self.string_literals@) == lits0 + code_run(c0, code.take(k as int)).3,
            decreases code.len() - k,
        {
            proof {
                assert(code.take(k + 1).drop_last() =~= code.take(k as int));
                assert(code.take(k + 1).last() == code[k as int]);
                assert(net(code.take(k as int)) >= pops(code[k as int]));
                lemma_instr_stack_len(self.stack_view(), self.id_counter as nat, code[k as int]);
                lemma_code_run_ids(c0, code, k + 1);
            }
            self.gen_instruction(&func.code[k]);
            proof {
                assert(texts(self.lines@) =~= lines1 + code_run(c0, code.take(k + 1)).0);
                assert(texts(self.string_literals@) =~= lits0 + code_run(c0, code.take(k + 1)).3);
            }
            k = k + 1;
        }
        proof {
            assert(code.take(code.len() as int) =~= code);
        }
        self.writeln("    ret void".to_owned());
        self.writeln("}".to_owned());
        self.writeln(String::new());
        proof {
            assert(texts(self.lines@) =~= texts(old(self).lines@) + function_lines(c0, *func));
        }
    }

    /// Translate a program: a prologue, the functions, then the string literals.
    fn gen(&mut self, prog: &bytecode::Program)
        requires
            texts(old(self).lines@).len() == 0,
            old(self).id_counter == 0,
            texts(old(self).string_literals@).len() == 0,
            program_ok(*prog),
        ensures
            texts(final(self).lines@) == program_lines(*prog),
    {
        self.writeln(String::new());
        self.writeln("; Text generated!!".to_owned());
        self.writeln(String::new());
        self.writeln("declare void @std_print(i8* nocapture) nounwind".to_owned());
        self.writeln(String::new());
        let ghost fs = prog.functions@;
        let ghost lines0 = texts(self.lines@);
        proof {
            assert(fs.take(0) =~= Seq::<bytecode::Function>::empty());
            assert(lines0 + Seq::<Seq<char>>::empty() =~= lines0);
            assert(texts(self.string_literals@) =~= Seq::<Seq<char>>::empty());
        }
        let mut k: usize = 0;
        while k < prog.functions.len()
            invariant
                k <= fs.len(),
                fs == prog.functions@,
                program_ok(*prog),
                texts(self.lines@) == lines0 + funcs_run(0, fs.take(k as int)).0,
                self.id_counter == funcs_run(0, fs.take(k as int)).1,
                texts(self.string_literals@) == funcs_run(0, fs.take(k as int)).2,
            decreases fs.len() - k,
        {
            proof {
                assert(fs.take(k + 1).drop_last() =~= fs.take(k as int));
                assert(fs.take(k + 1).last() == fs[k as int]);
                lemma_funcs_run_ids(0, fs, k + 1);
            }
            self.gen_function(&prog.functions[k]);
            proof {
                assert(texts(self.lines@) =~= lines0 + funcs_run(0, fs.take(k + 1)).0);
            }
            k = k + 1;
        }
        proof {
            assert(fs.take(fs.len() as int) =~= fs);
        }
        let ghost lines2 = texts(self.lines@);
        let ghost lits = texts(self.string_literals@);
        let mut j: usize = 0;
        while j < self.string_literals.len()
            invariant
                j <= lits.len(),
                lits == texts(self.string_literals@),
                texts(self.lines@) == lines2 + lits.take(j as int),
            decreases lits.len() - j,
        {
            let literal = self.string_literals[j].clone();
            self.writeln(literal);
            proof {
                assert(lines2 + lits.take(j + 1) =~= (lines2 + lits.take(j as int)).push(lits[j as int]));
            }
            j = j + 1;
        }
        self.writeln(String::new());
        proof {
            assert(lits.take(lits.len() as int) =~= lits);
            assert(texts(self.lines@) =~= program_lines(*prog));
        }
    }
}

/// The LLVM IR text of a bytecode program.
pub fn create_llvm_text_code(prog: bytecode::Program) -> (text: String)
    requires
        program_ok(prog),
    ensures
        text@ == lines_text(program_lines(prog)),
{
    let mut llvm_writer = LLVMWriter::new();
    proof {
        assert(texts(llvm_writer.lines@) =~= Seq::<Seq<char>>::empty());
        assert(texts(llvm_writer.string_literals@) =~= Seq::<Seq<char>>::empty());
    }
    llvm_writer.gen(&prog);
    let ghost lines = texts(llvm_writer.lines@);
    let mut text = String::new();
    let mut i: usize = 0;
    proof {
        assert(lines.take(0) =~= Seq::<Seq<char>>::empty());
    }
    while i < llvm_writer.lines.len()
        invariant
            i <= lines.len(),
            lines == texts(llvm_writer.lines@),
            text@ == lines_text(lines.take(i as int)),
        decreases lines.len() - i,
    {
        proof {
            assert(lines.take(i + 1).drop_last() =~= lines.take(i as int));
        }
        text.append(llvm_writer.lines[i].as_str());
        push_char(&mut text, '\n');
        assert(text@ =~= lines_text(lines.take(i + 1)));
        i = i + 1;
    }
    assert(lines.take(lines.len() as int) =~= lines);
    text
}

/// The LLVM type of a bytecode type.
fn get_llvm_typ(ty: &Typ) -> (r: String)
    requires
        llvm_typ_ok(*ty),
    ensures
        r@ == llvm_typ_text(*ty),
{
    match ty {
        Typ::Int => "i64".to_owned(),
        Typ::Float => "f64".to_owned(),
        _ => "i8*".to_owned(),
    }
}

/// The texts joined with `sep` between each two.
fn join_texts(items: &Vec<String>, sep: &str) -> (r: String)
    ensures
        r@ == join(texts(items@), sep@),
{
    let mut r = String::new();
    let mut i: usize = 0;
    while i < items.len()
        invariant
            i <= items@.len(),
            r@ == join(texts(items@).take(i as int), sep@),
        decreases items@.len() - i,
    {
        proof {
            assert(texts(items@).take(i + 1).drop_last() =~= texts(items@).take(i as int));
        }
        if i > 0 {
            r.append(sep);
        } else {
            assert(texts(items@).take(0) =~= Seq::<Seq<char>>::empty());
        }
        r.append(items[i].as_str());
        i = i + 1;
    }
    assert(texts(items@).take(items@.len() as int) =~= texts(items@));
    r
}


/// Each arithmetic instruction is written as one line that applies its own
/// LLVM opcode, `add`, `sub` or `mul`, to the two values on top of the stack,
/// deeper one first, into the next fresh local.
pub proof fn lemma_operator_line(stack: Seq<(Seq<char>, Seq<char>)>, c: nat, op: Operator, typ: Typ)
    requires
        stack.len() >= 2,
        instr_ok(Instruction::Operator { op, typ }),
    ensures
        instr_lines(stack, c, Instruction::Operator { op, typ }) == seq![
            "    "@ + local_name(c) + " = "@ + (match op {
                Operator::Add => "add"@,
                Operator::Sub => "sub"@,
                _ => "mul"@,
            }) + " "@ + llvm_typ_text(typ) + " "@ + stack[stack.len() - 2].1 + ", "@ + stack[stack.len() - 1].1 + ";"@,
        ],
{
}

/// Distinct arithmetic operators are written with distinct opcodes.
pub proof fn lemma_opcodes_distinct(a: Operator, b: Operator)
    requires
        !(a is Div),
        !(b is Div),
        a != b,
    ensures
        op_text(a) != op_text(b),
{
    reveal_strlit("add");
    reveal_strlit("sub");
    reveal_strlit("mul");
    assert(op_text(a)[0] != op_text(b)[0]);
}

/// Each comparison is written as one line that applies its own LLVM
/// predicate, `icmp slt`, `icmp sgt` or `icmp eq`, to the two values on top
/// of the stack, deeper one first, into the next fresh local.
pub proof fn lemma_comparison_line(stack: Seq<(Seq<char>, Seq<char>)>, c: nat, op: Comparison, typ: Typ)
    requires
        stack.len() >= 2,
        instr_ok(Instruction::Comparison { op, typ }),
    ensures
        instr_lines(stack, c, Instruction::Comparison { op, typ }) == seq![
            "    "@ + local_name(c) + " = "@ + (match op {
                Comparison::Lt => "icmp slt"@,
                Comparison::Gt => "icmp sgt"@,
                _ => "icmp eq"@,
            }) + " "@ + llvm_typ_text(typ) + " "@ + stack[stack.len() - 2].1 + ", "@ + stack[stack.len() - 1].1,
        ],
{
}

/// Distinct comparisons are written with distinct predicates.
pub proof fn lemma_predicates_distinct(a: Comparison, b: Comparison)
    requires
        a is Lt || a is Gt || a is Equal,
        b is Lt || b is Gt || b is Equal,
        a != b,
    ensures
        comparison_text(a) != comparison_text(b),
{
    reveal_strlit("icmp slt");
    reveal_strlit("icmp sgt");
    reveal_strlit("icmp eq");
    if a is Equal || b is Equal {
        assert(comparison_text(a)[5] != comparison_text(b)[5]);
    } else {
        assert(comparison_text(a)[6] != comparison_text(b)[6]);
    }
}

} // verus!
