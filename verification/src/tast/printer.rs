//! A readable dump of the typed tree: one line per definition, statement and
//! expression, indented by three spaces for each level of nesting.
//!
//! The dump is a sequence of pieces of text. The value of a float literal is a
//! piece of its own, holding the bits of the `f64`; whoever shows the dump
//! writes that value in decimal.

use super::type_system::{
    def_infos, find_entry, find_info, infos, lemma_find_info, lemma_tys, param_names, tys, type_table, DefInfo, DefKind,
    TypeDefEntry,
};
use super::type_text::{info_name, list_text, names_text, push_type_text, ty_printable, ty_text};
use super::{
    name_node_text, CaseArm, Definition, EnumDef, EnumVariant, Expression, ExpressionKind, FieldDef, FunctionDef, LabeledField,
    Literal, LocalVariable, NameNodeId, Parameter, Program, SlangType, Statement, StatementKind, StructDef, SwitchArm, Symbol,
};
use crate::ast::{BinaryOperator, BitOperator, ComparisonOperator, LogicOperator, MathOperator};
use crate::location::location_text;
use crate::text::{int_text, nat_text, push_i64, push_u64};
use vstd::prelude::*;

verus! {

/// One character of the dump, or the value of a float literal by its bits.
pub enum Seg {
    Glyph(char),
    Float(u64),
}

/// A piece of the dump as it is handed out: some text, or a float value.
pub enum Piece {
    Text(String),
    Float(u64),
}

/// The characters of a text, as pieces of the dump.
pub open spec fn text_segs(s: Seq<char>) -> Seq<Seg>
    decreases s.len(),
{
    if s.len() == 0 {
        Seq::empty()
    } else {
        text_segs(s.drop_last()).push(Seg::Glyph(s.last()))
    }
}

pub open spec fn piece_segs(p: Piece) -> Seq<Seg> {
    match p {
        Piece::Text(s) => text_segs(s@),
        Piece::Float(b) => seq![Seg::Float(b)],
    }
}

/// The dump that a sequence of pieces spells.
pub open spec fn segs(ps: Seq<Piece>) -> Seq<Seg>
    decreases ps.len(),
{
    if ps.len() == 0 {
        Seq::empty()
    } else {
        segs(ps.drop_last()) + piece_segs(ps.last())
    }
}

fn emit(out: &mut Vec<Piece>, s: String)
    ensures
        segs(final(out)@) == segs(old(out)@) + text_segs(s@),
{
    out.push(Piece::Text(s));
    assert(out@.drop_last() =~= old(out)@);
}

fn emit_float(out: &mut Vec<Piece>, bits: u64)
    ensures
        segs(final(out)@) == segs(old(out)@) + seq![Seg::Float(bits)],
{
    out.push(Piece::Float(bits));
    assert(out@.drop_last() =~= old(out)@);
}

/// A line: the indentation, the text and a line break.
pub open spec fn line(ind: Seq<char>, s: Seq<char>) -> Seq<char> {
    ind + s + seq!['\n']
}

/// The indentation one level deeper.
pub open spec fn deeper(ind: Seq<char>) -> Seq<char> {
    ind + "   "@
}

fn deeper_ind(ind: &String) -> (r: String)
    ensures
        r@ == deeper(ind@),
{
    let mut r = String::new();
    r.append(ind.as_str());
    r.append("   ");
    assert(r@ =~= deeper(ind@));
    r
}

/// The names in scope, each with the id of its node: parameters or locals.
pub open spec fn env_name(env: Seq<(Seq<char>, nat)>, id: nat) -> Option<Seq<char>>
    decreases env.len(),
{
    if env.len() == 0 {
        None
    } else if env[0].1 == id {
        Some(name_node_text(env[0].0, id))
    } else {
        env_name(env.drop_first(), id)
    }
}

/// The text of the name with this id; it must be in scope.
fn name_of(env: &Vec<NameNodeId>, id: usize) -> (s: String)
    requires
        env_name(param_names(env@), id as nat) is Some,
    ensures
        env_name(param_names(env@), id as nat) == Some(s@),
{
    let ghost e = param_names(env@);
    let mut i: usize = 0;
    assert(e.skip(0) =~= e);
    while i < env.len()
        invariant
            i <= env@.len(),
            e == param_names(env@),
            e.len() == env@.len(),
            env_name(e, id as nat) == env_name(e.skip(i as int), id as nat),
        decreases env@.len() - i,
    {
        assert(e.skip(i as int)[0] == e[i as int]);
        if env[i].id == id {
            return env[i].text();
        }
        assert(e.skip(i as int).drop_first() =~= e.skip(i as int + 1));
        i = i + 1;
    }
    proof {
        assert(e.skip(i as int).len() == 0);
    }
    String::new()
}

pub open spec fn math_text(op: MathOperator) -> Seq<char> {
    match op {
        MathOperator::Add => "Add"@,
        MathOperator::Sub => "Sub"@,
        MathOperator::Mul => "Mul"@,
        MathOperator::Div => "Div"@,
    }
}

pub open spec fn comparison_text(op: ComparisonOperator) -> Seq<char> {
    match op {
        ComparisonOperator::Lt => "Lt"@,
        ComparisonOperator::Gt => "Gt"@,
        ComparisonOperator::LtEqual => "LtEqual"@,
        ComparisonOperator::GtEqual => "GtEqual"@,
        ComparisonOperator::Equal => "Equal"@,
        ComparisonOperator::NotEqual => "NotEqual"@,
    }
}

pub open spec fn logic_text(op: LogicOperator) -> Seq<char> {
    match op {
        LogicOperator::And => "And"@,
        LogicOperator::Or => "Or"@,
    }
}

pub open spec fn bit_text(op: BitOperator) -> Seq<char> {
    match op {
        BitOperator::ShiftLeft => "ShiftLeft"@,
        BitOperator::ShiftRight => "ShiftRight"@,
        BitOperator::Xor => "Xor"@,
        BitOperator::And => "And"@,
        BitOperator::Or => "Or"@,
    }
}

/// An operator as its debug form shows it: `Math(Add)`, `Comparison(Lt)`, ...
pub open spec fn op_text(op: BinaryOperator) -> Seq<char> {
    match op {
        BinaryOperator::Math(m) => "Math("@ + math_text(m) + ")"@,
        BinaryOperator::Comparison(c) => "Comparison("@ + comparison_text(c) + ")"@,
        BinaryOperator::Logic(l) => "Logic("@ + logic_text(l) + ")"@,
        BinaryOperator::Bit(b) => "Bit("@ + bit_text(b) + ")"@,
    }
}

/// An arithmetic operator is dumped as `Math(` and the name of its
/// operation: `Add`, `Sub`, `Mul` or `Div`, then `)`.
pub proof fn lemma_math_op_text(m: MathOperator)
    ensures
        op_text(BinaryOperator::Math(m)) == "Math("@ + (match m {
            MathOperator::Add => "Add"@,
            MathOperator::Sub => "Sub"@,
            MathOperator::Mul => "Mul"@,
            MathOperator::Div => "Div"@,
        }) + ")"@,
{
}

/// A comparison is dumped as `Comparison(` and the name of its test, then `)`.
pub proof fn lemma_comparison_op_text(c: ComparisonOperator)
    ensures
        op_text(BinaryOperator::Comparison(c)) == "Comparison("@ + (match c {
            ComparisonOperator::Lt => "Lt"@,
            ComparisonOperator::Gt => "Gt"@,
            ComparisonOperator::LtEqual => "LtEqual"@,
            ComparisonOperator::GtEqual => "GtEqual"@,
            ComparisonOperator::Equal => "Equal"@,
            ComparisonOperator::NotEqual => "NotEqual"@,
        }) + ")"@,
{
}

/// A logic operator is dumped as `Logic(And)` or `Logic(Or)`.
pub proof fn lemma_logic_op_text(l: LogicOperator)
    ensures
        op_text(BinaryOperator::Logic(l)) == "Logic("@ + (match l {
            LogicOperator::And => "And"@,
            LogicOperator::Or => "Or"@,
        }) + ")"@,
{
}

/// A bit operator is dumped as `Bit(` and the name of its operation, then `)`.
pub proof fn lemma_bit_op_text(b: BitOperator)
    ensures
        op_text(BinaryOperator::Bit(b)) == "Bit("@ + (match b {
            BitOperator::ShiftLeft => "ShiftLeft"@,
            BitOperator::ShiftRight => "ShiftRight"@,
            BitOperator::Xor => "Xor"@,
            BitOperator::And => "And"@,
            BitOperator::Or => "Or"@,
        }) + ")"@,
{
}

/// The text of the operation inside `Math(..)`, `Comparison(..)`,
/// `Logic(..)` or `Bit(..)` can be read back from the dumped operator.
proof fn lemma_op_text_inner(p: Seq<char>, x: Seq<char>, y: Seq<char>)
    requires
        p + x + ")"@ == p + y + ")"@,
    ensures
        x == y,
{
    reveal_strlit(")");
    let a = p + x + ")"@;
    let b = p + y + ")"@;
    assert(a.len() == b.len());
    assert(x.len() == y.len());
    assert(x =~= a.subrange(p.len() as int, (p.len() + x.len()) as int));
    assert(y =~= b.subrange(p.len() as int, (p.len() + y.len()) as int));
}

/// Distinct operators are dumped with distinct texts.
pub proof fn lemma_op_text_distinct(a: BinaryOperator, b: BinaryOperator)
    requires
        a != b,
    ensures
        op_text(a) != op_text(b),
{
    reveal_strlit("Math(");
    reveal_strlit("Comparison(");
    reveal_strlit("Logic(");
    reveal_strlit("Bit(");
    reveal_strlit(")");
    reveal_strlit("Add");
    reveal_strlit("Sub");
    reveal_strlit("Mul");
    reveal_strlit("Div");
    reveal_strlit("Lt");
    reveal_strlit("Gt");
    reveal_strlit("LtEqual");
    reveal_strlit("GtEqual");
    reveal_strlit("Equal");
    reveal_strlit("NotEqual");
    reveal_strlit("And");
    reveal_strlit("Or");
    reveal_strlit("ShiftLeft");
    reveal_strlit("ShiftRight");
    reveal_strlit("Xor");
    if op_text(a) == op_text(b) {
        assert(op_text(a)[0] == op_text(b)[0]);
        match (a, b) {
            (BinaryOperator::Math(x), BinaryOperator::Math(y)) => {
                lemma_op_text_inner("Math("@, math_text(x), math_text(y));
                assert(math_text(x)[0] == math_text(y)[0]);
                assert(math_text(x).len() == math_text(y).len());
            },
            (BinaryOperator::Comparison(x), BinaryOperator::Comparison(y)) => {
                lemma_op_text_inner("Comparison("@, comparison_text(x), comparison_text(y));
                assert(comparison_text(x)[0] == comparison_text(y)[0]);
                assert(comparison_text(x).len() == comparison_text(y).len());
                assert(comparison_text(x)[1] == comparison_text(y)[1]);
            },
            (BinaryOperator::Logic(x), BinaryOperator::Logic(y)) => {
                lemma_op_text_inner("Logic("@, logic_text(x), logic_text(y));
                assert(logic_text(x)[0] == logic_text(y)[0]);
            },
            (BinaryOperator::Bit(x), BinaryOperator::Bit(y)) => {
                lemma_op_text_inner("Bit("@, bit_text(x), bit_text(y));
                assert(bit_text(x)[0] == bit_text(y)[0]);
                assert(bit_text(x).len() == bit_text(y).len());
            },
            _ => {},
        }
    }
}

fn push_op(out: &mut String, op: &BinaryOperator)
    ensures
        final(out)@ == old(out)@ + op_text(*op),
{
    match op {
        BinaryOperator::Math(m) => {
            out.append("Math(");
            match m {
                MathOperator::Add => out.append("Add"),
                MathOperator::Sub => out.append("Sub"),
                MathOperator::Mul => out.append("Mul"),
                MathOperator::Div => out.append("Div"),
            }
        },
        BinaryOperator::Comparison(c) => {
            out.append("Comparison(");
            match c {
                ComparisonOperator::Lt => out.append("Lt"),
                ComparisonOperator::Gt => out.append("Gt"),
                ComparisonOperator::LtEqual => out.append("LtEqual"),
                ComparisonOperator::GtEqual => out.append("GtEqual"),
                ComparisonOperator::Equal => out.append("Equal"),
                ComparisonOperator::NotEqual => out.append("NotEqual"),
            }
        },
        BinaryOperator::Logic(l) => {
            out.append("Logic(");
            match l {
                LogicOperator::And => out.append("And"),
                LogicOperator::Or => out.append("Or"),
            }
        },
        BinaryOperator::Bit(b) => {
            out.append("Bit(");
            match b {
                BitOperator::ShiftLeft => out.append("ShiftLeft"),
                BitOperator::ShiftRight => out.append("ShiftRight"),
                BitOperator::Xor => out.append("Xor"),
                BitOperator::And => out.append("And"),
                BitOperator::Or => out.append("Or"),
            }
        },
    }
    out.append(")");
}

/// The text of a definition that a symbol refers to.
pub open spec fn def_ref_text(tab: Seq<DefInfo>, id: nat) -> Seq<char> {
    match find_info(tab, id) {
        Some(k) => match tab[k].kind {
            DefKind::Struct => "struct-"@ + info_name(tab[k]),
            DefKind::Union => "union-"@ + info_name(tab[k]),
            DefKind::Enum => "enum("@ + info_name(tab[k]) + ")["@ + names_text(tab[k].params) + "]"@,
            DefKind::Class => "user-class("@ + info_name(tab[k]) + ")"@,
        },
        None => Seq::empty(),
    }
}

/// The name of a variant of an enum.
pub open spec fn variant_name(tab: Seq<DefInfo>, enum_id: nat, variant: int) -> Seq<char> {
    match find_info(tab, enum_id) {
        Some(k) => tab[k].variants[variant].0,
        None => Seq::empty(),
    }
}

/// What a loaded symbol shows, given the parameters and locals in scope.
pub open spec fn symbol_head(tab: Seq<DefInfo>, pe: Seq<(Seq<char>, nat)>, le: Seq<(Seq<char>, nat)>, s: Symbol) -> Seq<char> {
    match s {
        Symbol::Parameter(id) => "Load-parameter "@ + env_name(pe, id as nat)->0,
        Symbol::LocalVariable(id) => "Load-local("@ + env_name(le, id as nat)->0 + ")"@,
        Symbol::Function { name, .. } => "Load-symbol-function("@ + name_node_text(name.name@, name.id as nat) + ")"@,
        Symbol::ExternFunction { name, .. } => "Load-symbol-extern-function(name="@ + name@ + ")"@,
        Symbol::Typ(t) => "Load type "@ + ty_text(tab, t.ty()),
        Symbol::Module => "Load-symbol symbol-module(..)"@,
        Symbol::Definition(id) => "Load-symbol ref-"@ + def_ref_text(tab, id as nat),
        Symbol::Field => "Load-symbol symbol-field(..)"@,
        Symbol::EnumVariant => "Load-symbol symbol-enum-variant(..)"@,
    }
}

pub open spec fn bool_text(b: bool) -> Seq<char> {
    if b {
        "true"@
    } else {
        "false"@
    }
}

/// What the line of an expression shows before its type and location; for a
/// float literal, the text before the value.
pub open spec fn expr_head(tab: Seq<DefInfo>, pe: Seq<(Seq<char>, nat)>, le: Seq<(Seq<char>, nat)>, e: Expression) -> Seq<char> {
    match e.kind {
        ExpressionKind::Undefined => "undefined"@,
        ExpressionKind::Object => "ref"@,
        ExpressionKind::Call { .. } => "call"@,
        ExpressionKind::Binop { op, .. } => "Binary operation "@ + op_text(op),
        ExpressionKind::TypeCast { to_type, .. } => "Type-cast to "@ + ty_text(tab, to_type.ty()),
        ExpressionKind::Literal(l) => match l {
            Literal::Bool(b) => "Bool val="@ + bool_text(b),
            Literal::Integer(v) => "Integer val="@ + int_text(v as int),
            Literal::Float(_) => "Float val="@,
            Literal::String(s) => "String val='"@ + s@ + "'"@,
        },
        ExpressionKind::ObjectInitializer { .. } => "Object-initializer"@,
        ExpressionKind::TupleLiteral { .. } => "Tuple-literal"@,
        ExpressionKind::UnionLiteral { attr, .. } => "Union-literal: "@ + attr@,
        ExpressionKind::EnumLiteral { enum_type, variant, .. } => "Enum-literal variant="@ + variant_name(
            tab,
            enum_type.enum_id as nat,
            variant as int,
        ),
        ExpressionKind::ListLiteral(_) => "List-literal"@,
        ExpressionKind::LoadSymbol(s) => symbol_head(tab, pe, le, s),
        ExpressionKind::GetAttr { attr, .. } => "get attr="@ + attr@,
        ExpressionKind::GetIndex { .. } => "get-index"@,
    }
}

/// The end of the line of an expression: its type, unless undefined, and its location.
pub open spec fn expr_tail(tab: Seq<DefInfo>, e: Expression) -> Seq<char> {
    (if e.typ is Undefined {
        Seq::empty()
    } else {
        " type="@ + ty_text(tab, e.typ.ty())
    }) + " "@ + location_text(e.location.row as int, e.location.column as int) + seq!['\n']
}

/// The line of an expression.
pub open spec fn expr_line(tab: Seq<DefInfo>, pe: Seq<(Seq<char>, nat)>, le: Seq<(Seq<char>, nat)>, ind: Seq<char>, e: Expression) -> Seq<Seg> {
    match e.kind {
        ExpressionKind::Literal(Literal::Float(bits)) => text_segs(ind + "Float val="@) + seq![Seg::Float(bits)] + text_segs(
            expr_tail(tab, e),
        ),
        _ => text_segs(ind + expr_head(tab, pe, le, e) + expr_tail(tab, e)),
    }
}

/// The dump of an expression: its line, then the expressions inside it, one
/// level deeper.
pub open spec fn expr_segs(tab: Seq<DefInfo>, pe: Seq<(Seq<char>, nat)>, le: Seq<(Seq<char>, nat)>, ind: Seq<char>, e: Expression) -> Seq<Seg>
    decreases e,
{
    let d = deeper(ind);
    expr_line(tab, pe, le, ind, e) + match e.kind {
        ExpressionKind::Call { callee, arguments } => expr_segs(tab, pe, le, d, *callee) + exprs_segs(tab, pe, le, d, arguments@),
        ExpressionKind::Binop { lhs, rhs, .. } => expr_segs(tab, pe, le, d, *lhs) + expr_segs(tab, pe, le, d, *rhs),
        ExpressionKind::TypeCast { value, .. } => expr_segs(tab, pe, le, d, *value),
        ExpressionKind::ObjectInitializer { fields, .. } => labeled_segs(tab, pe, le, d, fields@),
        ExpressionKind::TupleLiteral { values, .. } => exprs_segs(tab, pe, le, d, values@),
        ExpressionKind::UnionLiteral { value, .. } => expr_segs(tab, pe, le, d, *value),
        ExpressionKind::ListLiteral(values) => exprs_segs(tab, pe, le, d, values@),
        ExpressionKind::EnumLiteral { arguments, .. } => exprs_segs(tab, pe, le, d, arguments@),
        ExpressionKind::GetAttr { base, .. } => expr_segs(tab, pe, le, d, *base),
        ExpressionKind::GetIndex { base, index } => expr_segs(tab, pe, le, d, *base) + expr_segs(tab, pe, le, d, *index),
        _ => Seq::empty(),
    }
}

pub open spec fn exprs_segs(tab: Seq<DefInfo>, pe: Seq<(Seq<char>, nat)>, le: Seq<(Seq<char>, nat)>, ind: Seq<char>, es: Seq<Expression>) -> Seq<Seg>
    decreases es,
{
    if es.len() == 0 {
        Seq::empty()
    } else {
        exprs_segs(tab, pe, le, ind, es.drop_last()) + expr_segs(tab, pe, le, ind, es.last())
    }
}

/// The dumps of the values of labeled fields.
pub open spec fn labeled_segs(tab: Seq<DefInfo>, pe: Seq<(Seq<char>, nat)>, le: Seq<(Seq<char>, nat)>, ind: Seq<char>, fs: Seq<LabeledField>) -> Seq<Seg>
    decreases fs,
{
    if fs.len() == 0 {
        Seq::empty()
    } else {
        labeled_segs(tab, pe, le, ind, fs.drop_last()) + expr_segs(tab, pe, le, ind, *fs.last().value)
    }
}

/// The expression can be dumped: its types can be written out, and every
/// name, variant and definition it refers to exists.
pub open spec fn expr_ok(tab: Seq<DefInfo>, pe: Seq<(Seq<char>, nat)>, le: Seq<(Seq<char>, nat)>, e: Expression) -> bool
    decreases e,
{
    &&& ty_printable(tab, e.typ.ty())
    &&& match e.kind {
        ExpressionKind::Call { callee, arguments } => expr_ok(tab, pe, le, *callee) && forall|i: int|
            0 <= i < arguments@.len() ==> expr_ok(tab, pe, le, #[trigger] arguments@[i]),
        ExpressionKind::Binop { lhs, rhs, .. } => expr_ok(tab, pe, le, *lhs) && expr_ok(tab, pe, le, *rhs),
        ExpressionKind::TypeCast { to_type, value } => ty_printable(tab, to_type.ty()) && expr_ok(tab, pe, le, *value),
        ExpressionKind::ObjectInitializer { fields, .. } => forall|i: int|
            0 <= i < fields@.len() ==> expr_ok(tab, pe, le, *(#[trigger] fields@[i]).value),
        ExpressionKind::TupleLiteral { values, .. } => forall|i: int|
            0 <= i < values@.len() ==> expr_ok(tab, pe, le, #[trigger] values@[i]),
        ExpressionKind::UnionLiteral { value, .. } => expr_ok(tab, pe, le, *value),
        ExpressionKind::ListLiteral(values) => forall|i: int| 0 <= i < values@.len() ==> expr_ok(tab, pe, le, #[trigger] values@[i]),
        ExpressionKind::EnumLiteral { enum_type, variant, arguments } => {
            &&& find_info(tab, enum_type.enum_id as nat) matches Some(k)
            &&& variant < tab[k].variants.len()
            &&& forall|i: int| 0 <= i < arguments@.len() ==> expr_ok(tab, pe, le, #[trigger] arguments@[i])
        },
        ExpressionKind::GetAttr { base, .. } => expr_ok(tab, pe, le, *base),
        ExpressionKind::GetIndex { base, index } => expr_ok(tab, pe, le, *base) && expr_ok(tab, pe, le, *index),
        ExpressionKind::LoadSymbol(s) => match s {
            Symbol::Parameter(id) => env_name(pe, id as nat) is Some,
            Symbol::LocalVariable(id) => env_name(le, id as nat) is Some,
            Symbol::Typ(t) => ty_printable(tab, t.ty()),
            Symbol::Definition(id) => find_info(tab, id as nat) is Some,
            _ => true,
        },
        _ => true,
    }
}


/// What the line of a statement shows before its location.
pub open spec fn stmt_head(le: Seq<(Seq<char>, nat)>, s: Statement) -> Seq<char> {
    match s.kind {
        StatementKind::Break => "break"@,
        StatementKind::Continue => "continue"@,
        StatementKind::Unreachable => "unreachable"@,
        StatementKind::Pass => "pass"@,
        StatementKind::Return { .. } => "return"@,
        StatementKind::If(_) => "if-statement"@,
        StatementKind::While(_) => "while-statement"@,
        StatementKind::Loop { .. } => "loop-statement"@,
        StatementKind::Compound(_) => "compound-statement"@,
        StatementKind::For { loop_var, .. } => "for-statement loop-var-name="@ + env_name(le, loop_var as nat)->0,
        StatementKind::Expression(_) => "expression-statement"@,
        StatementKind::Assignment { .. } => "assignment-statement"@,
        StatementKind::Case(_) => "case-statement"@,
        StatementKind::Switch(_) => "switch-statement"@,
        StatementKind::Let { local_id, .. } => "let-statement variable-name="@ + env_name(le, local_id as nat)->0,
        StatementKind::SetAttr { attr, .. } => "set-attr-statement attr="@ + attr@,
        StatementKind::SetIndex { .. } => "set-index-statement"@,
        StatementKind::StoreLocal { local_id, .. } => "store-local-variable("@ + env_name(le, local_id as nat)->0 + ")"@,
    }
}

/// The dump of a statement: its line, then its expressions and blocks, one
/// level deeper.
pub open spec fn stmt_segs(tab: Seq<DefInfo>, pe: Seq<(Seq<char>, nat)>, le: Seq<(Seq<char>, nat)>, ind: Seq<char>, s: Statement) -> Seq<Seg>
    decreases s, 1nat,
{
    text_segs(line(ind, stmt_head(le, s) + " "@ + location_text(s.location.row as int, s.location.column as int)))
        + stmt_parts(tab, pe, le, deeper(ind), s)
}

/// The expressions and blocks of a statement, at the given indentation.
pub open spec fn stmt_parts(tab: Seq<DefInfo>, pe: Seq<(Seq<char>, nat)>, le: Seq<(Seq<char>, nat)>, d: Seq<char>, s: Statement) -> Seq<Seg>
    decreases s, 0nat,
{
    match s.kind {
        StatementKind::Return { value } => match value {
            Some(v) => expr_segs(tab, pe, le, d, v),
            None => Seq::empty(),
        },
        StatementKind::If(i) => expr_segs(tab, pe, le, d, i.condition) + block_segs(tab, pe, le, d, i.if_true@) + match i.if_false {
            Some(b) => block_segs(tab, pe, le, d, b@),
            None => Seq::empty(),
        },
        StatementKind::While(w) => expr_segs(tab, pe, le, d, w.condition) + block_segs(tab, pe, le, d, w.body@),
        StatementKind::Loop { body } => block_segs(tab, pe, le, d, body@),
        StatementKind::Compound(b) => block_segs(tab, pe, le, d, b@),
        StatementKind::For { iterable, body, .. } => expr_segs(tab, pe, le, d, iterable) + block_segs(tab, pe, le, d, body@),
        StatementKind::Let { value, .. } => expr_segs(tab, pe, le, d, value),
        StatementKind::Assignment { target, value } => expr_segs(tab, pe, le, d, target) + expr_segs(tab, pe, le, d, value),
        StatementKind::StoreLocal { value, .. } => expr_segs(tab, pe, le, d, value),
        StatementKind::SetAttr { base, value, .. } => expr_segs(tab, pe, le, d, base) + expr_segs(tab, pe, le, d, value),
        StatementKind::SetIndex { base, index, value } => expr_segs(tab, pe, le, d, base) + expr_segs(tab, pe, le, d, index)
            + expr_segs(tab, pe, le, d, value),
        StatementKind::Case(cs) => expr_segs(tab, pe, le, d, cs.value) + case_arms_segs(tab, pe, le, d, cs.arms@),
        StatementKind::Switch(sw) => expr_segs(tab, pe, le, d, sw.value) + switch_arms_segs(tab, pe, le, d, sw.arms@)
            + block_segs(tab, pe, le, d, sw.default@),
        StatementKind::Expression(e) => expr_segs(tab, pe, le, d, e),
        _ => Seq::empty(),
    }
}

pub open spec fn block_segs(tab: Seq<DefInfo>, pe: Seq<(Seq<char>, nat)>, le: Seq<(Seq<char>, nat)>, ind: Seq<char>, b: Seq<Statement>) -> Seq<Seg>
    decreases b, 2nat,
{
    if b.len() == 0 {
        Seq::empty()
    } else {
        block_segs(tab, pe, le, ind, b.drop_last()) + stmt_segs(tab, pe, le, ind, b.last())
    }
}

/// The arms of a case statement: a `case-arm:` line each, with the arm's body one level deeper.
pub open spec fn case_arms_segs(tab: Seq<DefInfo>, pe: Seq<(Seq<char>, nat)>, le: Seq<(Seq<char>, nat)>, ind: Seq<char>, arms: Seq<CaseArm>) -> Seq<Seg>
    decreases arms, 2nat,
{
    if arms.len() == 0 {
        Seq::empty()
    } else {
        case_arms_segs(tab, pe, le, ind, arms.drop_last()) + text_segs(line(ind, "case-arm:"@)) + block_segs(
            tab,
            pe,
            le,
            deeper(ind),
            arms.last().body@,
        )
    }
}

/// The arms of a switch: each arm's value, then its body.
pub open spec fn switch_arms_segs(tab: Seq<DefInfo>, pe: Seq<(Seq<char>, nat)>, le: Seq<(Seq<char>, nat)>, ind: Seq<char>, arms: Seq<SwitchArm>) -> Seq<Seg>
    decreases arms, 2nat,
{
    if arms.len() == 0 {
        Seq::empty()
    } else {
        switch_arms_segs(tab, pe, le, ind, arms.drop_last()) + expr_segs(tab, pe, le, ind, arms.last().value) + block_segs(
            tab,
            pe,
            le,
            ind,
            arms.last().body@,
        )
    }
}

/// The statement can be dumped: its expressions can, and the locals it names exist.
pub open spec fn stmt_ok(tab: Seq<DefInfo>, pe: Seq<(Seq<char>, nat)>, le: Seq<(Seq<char>, nat)>, s: Statement) -> bool
    decreases s,
{
    match s.kind {
        StatementKind::Expression(e) => expr_ok(tab, pe, le, e),
        StatementKind::Let { local_id, value, .. } => env_name(le, local_id as nat) is Some && expr_ok(tab, pe, le, value),
        StatementKind::Assignment { target, value } => expr_ok(tab, pe, le, target) && expr_ok(tab, pe, le, value),
        StatementKind::StoreLocal { local_id, value } => env_name(le, local_id as nat) is Some && expr_ok(tab, pe, le, value),
        StatementKind::SetAttr { base, value, .. } => expr_ok(tab, pe, le, base) && expr_ok(tab, pe, le, value),
        StatementKind::SetIndex { base, index, value } => expr_ok(tab, pe, le, base) && expr_ok(tab, pe, le, index)
            && expr_ok(tab, pe, le, value),
        StatementKind::If(i) => expr_ok(tab, pe, le, i.condition) && block_ok(tab, pe, le, i.if_true@) && match i.if_false {
            Some(b) => block_ok(tab, pe, le, b@),
            None => true,
        },
        StatementKind::Loop { body } => block_ok(tab, pe, le, body@),
        StatementKind::While(w) => expr_ok(tab, pe, le, w.condition) && block_ok(tab, pe, le, w.body@),
        StatementKind::For { loop_var, iterable, body } => env_name(le, loop_var as nat) is Some && expr_ok(tab, pe, le, iterable)
            && block_ok(tab, pe, le, body@),
        StatementKind::Return { value } => match value {
            Some(v) => expr_ok(tab, pe, le, v),
            None => true,
        },
        StatementKind::Case(cs) => expr_ok(tab, pe, le, cs.value) && forall|k: int|
            0 <= k < cs.arms@.len() ==> block_ok(tab, pe, le, (#[trigger] cs.arms@[k]).body@),
        StatementKind::Switch(sw) => expr_ok(tab, pe, le, sw.value) && (forall|k: int|
            0 <= k < sw.arms@.len() ==> expr_ok(tab, pe, le, (#[trigger] sw.arms@[k]).value) && block_ok(tab, pe, le, sw.arms@[k].body@))
            && block_ok(tab, pe, le, sw.default@),
        StatementKind::Compound(b) => block_ok(tab, pe, le, b@),
        _ => true,
    }
}

pub open spec fn block_ok(tab: Seq<DefInfo>, pe: Seq<(Seq<char>, nat)>, le: Seq<(Seq<char>, nat)>, b: Seq<Statement>) -> bool
    decreases b,
{
    forall|i: int| 0 <= i < b.len() ==> stmt_ok(tab, pe, le, #[trigger] b[i])
}


/// The names of the parameters in scope in a function: its object
/// parameter, if any, then its parameters.
pub open spec fn fn_penv(f: FunctionDef) -> Seq<(Seq<char>, nat)> {
    (match f.this_param {
        Some(p) => seq![(p.name.name@, p.name.id as nat)],
        None => Seq::empty(),
    }) + f.signature.parameters@.map_values(|p: Parameter| (p.name.name@, p.name.id as nat))
}

/// The names of the locals of a function.
pub open spec fn fn_lenv(f: FunctionDef) -> Seq<(Seq<char>, nat)> {
    f.locals@.map_values(|l: LocalVariable| (l.name.name@, l.name.id as nat))
}

/// One line for each parameter: its name and type.
pub open spec fn param_lines(tab: Seq<DefInfo>, ind: Seq<char>, ps: Seq<Parameter>) -> Seq<Seg>
    decreases ps.len(),
{
    if ps.len() == 0 {
        Seq::empty()
    } else {
        let p = ps.last();
        param_lines(tab, ind, ps.drop_last()) + text_segs(
            line(ind, name_node_text(p.name.name@, p.name.id as nat) + " typ="@ + ty_text(tab, p.typ.ty())),
        )
    }
}

/// One line for each local: its position, name and type.
pub open spec fn local_lines(tab: Seq<DefInfo>, ind: Seq<char>, ls: Seq<LocalVariable>) -> Seq<Seg>
    decreases ls.len(),
{
    if ls.len() == 0 {
        Seq::empty()
    } else {
        let l = ls.last();
        local_lines(tab, ind, ls.drop_last()) + text_segs(
            line(
                ind,
                "index="@ + nat_text((ls.len() - 1) as nat) + " "@ + name_node_text(l.name.name@, l.name.id as nat) + " typ="@
                    + ty_text(tab, l.typ.ty()),
            ),
        )
    }
}

/// The head of a function: its name and location, then, one level deeper,
/// its parameters, return type and locals, and a `code:` line.
pub open spec fn fn_header(tab: Seq<DefInfo>, ind: Seq<char>, f: FunctionDef) -> Seq<Seg> {
    let d = deeper(ind);
    let ps = f.signature.parameters@;
    text_segs(
        line(
            ind,
            "fn "@ + name_node_text(f.name.name@, f.name.id as nat) + " location="@ + location_text(
                f.location.row as int,
                f.location.column as int,
            ),
        ),
    ) + (if ps.len() > 0 {
        text_segs(line(d, "parameters:"@)) + param_lines(tab, deeper(d), ps)
    } else {
        Seq::empty()
    }) + (match f.signature.return_type {
        Some(t) => text_segs(line(d, "Return type: "@ + ty_text(tab, t.ty()))),
        None => Seq::empty(),
    }) + (if f.locals@.len() > 0 {
        text_segs(line(d, "locals:"@)) + local_lines(tab, deeper(d), f.locals@)
    } else {
        Seq::empty()
    }) + text_segs(line(d, "code:"@))
}

/// The dump of a function: its head, then its body at the given indentation.
pub open spec fn fn_segs(tab: Seq<DefInfo>, ind: Seq<char>, f: FunctionDef, body_ind: Seq<char>) -> Seq<Seg> {
    fn_header(tab, ind, f) + block_segs(tab, fn_penv(f), fn_lenv(f), body_ind, f.body@)
}

/// The methods of a class, each with its body one level deeper than its head.
pub open spec fn methods_segs(tab: Seq<DefInfo>, ind: Seq<char>, ms: Seq<FunctionDef>) -> Seq<Seg>
    decreases ms.len(),
{
    if ms.len() == 0 {
        Seq::empty()
    } else {
        methods_segs(tab, ind, ms.drop_last()) + fn_segs(tab, ind, ms.last(), deeper(ind))
    }
}

/// One line for each field: its name and type.
pub open spec fn field_lines(tab: Seq<DefInfo>, ind: Seq<char>, fs: Seq<FieldDef>) -> Seq<Seg>
    decreases fs.len(),
{
    if fs.len() == 0 {
        Seq::empty()
    } else {
        let f = fs.last();
        field_lines(tab, ind, fs.drop_last()) + text_segs(line(ind, "field name="@ + f.name@ + " typ="@ + ty_text(tab, f.typ.ty())))
    }
}

/// The dumps of the initial values of the fields that have one.
pub open spec fn field_values_segs(tab: Seq<DefInfo>, ind: Seq<char>, fs: Seq<FieldDef>) -> Seq<Seg>
    decreases fs.len(),
{
    if fs.len() == 0 {
        Seq::empty()
    } else {
        field_values_segs(tab, ind, fs.drop_last()) + match fs.last().value {
            Some(v) => expr_segs(tab, Seq::empty(), Seq::empty(), ind, v),
            None => Seq::empty(),
        }
    }
}

/// One line for each variant of an enum: its name and payload types.
pub open spec fn variant_lines(tab: Seq<DefInfo>, ind: Seq<char>, vs: Seq<EnumVariant>) -> Seq<Seg>
    decreases vs.len(),
{
    if vs.len() == 0 {
        Seq::empty()
    } else {
        let v = vs.last();
        variant_lines(tab, ind, vs.drop_last()) + text_segs(line(ind, "variant "@ + v.name@ + "("@ + list_text(tab, tys(v.data@)) + ")"@))
    }
}

/// An enum definition as text: `enum(name(id=..))[T, U]`.
pub open spec fn enum_def_text(e: EnumDef) -> Seq<char> {
    "enum("@ + name_node_text(e.name.name@, e.name.id as nat) + ")["@ + names_text(param_names(e.type_parameters@)) + "]"@
}

/// The dump of a struct or union: its head line, its fields one level
/// deeper, then the initial values of the fields.
pub open spec fn struct_segs(tab: Seq<DefInfo>, ind: Seq<char>, word: Seq<char>, sd: StructDef) -> Seq<Seg> {
    text_segs(line(ind, word + name_node_text(sd.name.name@, sd.name.id as nat))) + field_lines(tab, deeper(ind), sd.fields@)
        + field_values_segs(tab, deeper(ind), sd.fields@)
}

/// The dump of a definition.
pub open spec fn def_segs(tab: Seq<DefInfo>, ind: Seq<char>, d: Definition) -> Seq<Seg> {
    match d {
        Definition::Function(f) => fn_segs(tab, ind, f, deeper(deeper(ind))),
        Definition::Class(c) => text_segs(line(ind, "class "@ + name_node_text(c.name.name@, c.name.id as nat))) + field_lines(
            tab,
            deeper(ind),
            c.fields@,
        ) + field_values_segs(tab, deeper(ind), c.fields@) + methods_segs(tab, deeper(ind), c.methods@),
        Definition::Struct(sd) => struct_segs(tab, ind, "struct "@, sd),
        Definition::Union(sd) => struct_segs(tab, ind, "union "@, sd),
        Definition::Enum(e) => text_segs(line(ind, enum_def_text(e))) + variant_lines(tab, deeper(ind), e.variants@),
    }
}

pub open spec fn defs_segs(tab: Seq<DefInfo>, ds: Seq<Definition>) -> Seq<Seg>
    decreases ds.len(),
{
    if ds.len() == 0 {
        Seq::empty()
    } else {
        defs_segs(tab, ds.drop_last()) + def_segs(tab, Seq::empty(), ds.last())
    }
}

/// The dump of a program: a title line, then each definition.
pub open spec fn program_segs(p: Program) -> Seq<Seg> {
    text_segs("======== TYPED AST ["@ + p.name@ + "] ============>>"@ + seq!['\n']) + defs_segs(
        def_infos(p.definitions@),
        p.definitions@,
    )
}

/// The function can be dumped: the types of its parameters, locals and
/// result can be written out, and so can its body.
pub open spec fn fn_ok(tab: Seq<DefInfo>, f: FunctionDef) -> bool {
    &&& forall|i: int| 0 <= i < f.signature.parameters@.len() ==> ty_printable(tab, (#[trigger] f.signature.parameters@[i]).typ.ty())
    &&& forall|i: int| 0 <= i < f.locals@.len() ==> ty_printable(tab, (#[trigger] f.locals@[i]).typ.ty())
    &&& match f.signature.return_type {
        Some(t) => ty_printable(tab, t.ty()),
        None => true,
    }
    &&& block_ok(tab, fn_penv(f), fn_lenv(f), f.body@)
}

/// The fields can be dumped: their types, and their initial values with no
/// parameter or local in scope.
pub open spec fn fields_ok(tab: Seq<DefInfo>, fs: Seq<FieldDef>) -> bool {
    forall|i: int| 0 <= i < fs.len() ==> ty_printable(tab, (#[trigger] fs[i]).typ.ty()) && match fs[i].value {
        Some(v) => expr_ok(tab, Seq::empty(), Seq::empty(), v),
        None => true,
    }
}

pub open spec fn def_ok(tab: Seq<DefInfo>, d: Definition) -> bool {
    match d {
        Definition::Function(f) => fn_ok(tab, f),
        Definition::Class(c) => fields_ok(tab, c.fields@) && forall|j: int| 0 <= j < c.methods@.len() ==> fn_ok(tab, #[trigger] c.methods@[j]),
        Definition::Struct(sd) => fields_ok(tab, sd.fields@),
        Definition::Union(sd) => fields_ok(tab, sd.fields@),
        Definition::Enum(e) => forall|j: int, k: int|
            0 <= j < e.variants@.len() && 0 <= k < e.variants@[j].data@.len() ==> ty_printable(tab, (#[trigger] e.variants@[j].data@[k]).ty()),
    }
}

/// Every definition of the program can be dumped.
pub open spec fn program_ok(p: Program) -> bool {
    forall|i: int| 0 <= i < p.definitions@.len() ==> def_ok(def_infos(p.definitions@), #[trigger] p.definitions@[i])
}

/// The type definitions, and the parameters and locals in scope, that a dump reads.
pub struct DumpEnv<'a> {
    pub tab: &'a Vec<TypeDefEntry>,
    pub params: &'a Vec<NameNodeId>,
    pub locals: &'a Vec<NameNodeId>,
}

impl<'a> DumpEnv<'a> {
    pub open spec fn table(&self) -> Seq<DefInfo> {
        infos(self.tab@)
    }

    pub open spec fn pe(&self) -> Seq<(Seq<char>, nat)> {
        param_names(self.params@)
    }

    pub open spec fn le(&self) -> Seq<(Seq<char>, nat)> {
        param_names(self.locals@)
    }
}

fn push_type(tab: &Vec<TypeDefEntry>, t: &SlangType, out: &mut String)
    requires
        ty_printable(infos(tab@), t.ty()),
    ensures
        final(out)@ == old(out)@ + ty_text(infos(tab@), t.ty()),
{
    push_type_text(tab, t, out);
}

fn push_def_ref(tab: &Vec<TypeDefEntry>, id: usize, out: &mut String)
    requires
        find_info(infos(tab@), id as nat) is Some,
    ensures
        final(out)@ == old(out)@ + def_ref_text(infos(tab@), id as nat),
{
    let ghost it = infos(tab@);
    proof {
        lemma_find_info(it, id as nat);
    }
    let k = find_entry(tab, id).unwrap();
    assert(it[k as int] == tab@[k as int].info());
    let name = tab[k].name.text();
    match tab[k].kind {
        DefKind::Struct => {
            out.append("struct-");
            out.append(name.as_str());
        },
        DefKind::Union => {
            out.append("union-");
            out.append(name.as_str());
        },
        DefKind::Enum => {
            out.append("enum(");
            out.append(name.as_str());
            out.append(")[");
            super::type_text::push_names_text(&tab[k].type_parameters, out);
            out.append("]");
        },
        DefKind::Class => {
            out.append("user-class(");
            out.append(name.as_str());
            out.append(")");
        },
    }
}

fn push_variant_name(tab: &Vec<TypeDefEntry>, enum_id: usize, variant: usize, out: &mut String)
    requires
        find_info(infos(tab@), enum_id as nat) matches Some(k) && variant < infos(tab@)[k].variants.len(),
    ensures
        final(out)@ == old(out)@ + variant_name(infos(tab@), enum_id as nat, variant as int),
{
    let ghost it = infos(tab@);
    proof {
        lemma_find_info(it, enum_id as nat);
    }
    let k = find_entry(tab, enum_id).unwrap();
    assert(it[k as int] == tab@[k as int].info());
    assert(it[k as int].variants[variant as int].0 == tab@[k as int].variants@[variant as int].0@);
    out.append(tab[k].variants[variant].0.as_str());
}

/// Append the text of an expression's line, before its type and location.
fn push_expr_head(sc: &DumpEnv, e: &Expression, out: &mut String)
    requires
        expr_ok(sc.table(), sc.pe(), sc.le(), *e),
    ensures
        final(out)@ == old(out)@ + expr_head(sc.table(), sc.pe(), sc.le(), *e),
{
    match &e.kind {
        ExpressionKind::Undefined => out.append("undefined"),
        ExpressionKind::Object => out.append("ref"),
        ExpressionKind::Call { .. } => out.append("call"),
        ExpressionKind::Binop { op, .. } => {
            out.append("Binary operation ");
            push_op(out, op);
        },
        ExpressionKind::TypeCast { to_type, .. } => {
            out.append("Type-cast to ");
            push_type(sc.tab, to_type, out);
        },
        ExpressionKind::Literal(l) => match l {
            Literal::Bool(b) => {
                out.append("Bool val=");
                if *b {
                    out.append("true");
                } else {
                    out.append("false");
                }
            },
            Literal::Integer(v) => {
                out.append("Integer val=");
                push_i64(out, *v);
            },
            Literal::Float(_) => out.append("Float val="),
            Literal::String(s) => {
                out.append("String val='");
                out.append(s.as_str());
                out.append("'");
            },
        },
        ExpressionKind::ObjectInitializer { .. } => out.append("Object-initializer"),
        ExpressionKind::TupleLiteral { .. } => out.append("Tuple-literal"),
        ExpressionKind::UnionLiteral { attr, .. } => {
            out.append("Union-literal: ");
            out.append(attr.as_str());
        },
        ExpressionKind::EnumLiteral { enum_type, variant, .. } => {
            out.append("Enum-literal variant=");
            push_variant_name(sc.tab, enum_type.enum_id, *variant, out);
        },
        ExpressionKind::ListLiteral(_) => out.append("List-literal"),
        ExpressionKind::LoadSymbol(s) => match s {
            Symbol::Parameter(id) => {
                out.append("Load-parameter ");
                let n = name_of(sc.params, *id);
                out.append(n.as_str());
            },
            Symbol::LocalVariable(id) => {
                out.append("Load-local(");
                let n = name_of(sc.locals, *id);
                out.append(n.as_str());
                out.append(")");
            },
            Symbol::Function { name, .. } => {
                out.append("Load-symbol-function(");
                let n = name.text();
                out.append(n.as_str());
                out.append(")");
            },
            Symbol::ExternFunction { name, .. } => {
                out.append("Load-symbol-extern-function(name=");
                out.append(name.as_str());
                out.append(")");
            },
            Symbol::Typ(t) => {
                out.append("Load type ");
                push_type(sc.tab, t, out);
            },
            Symbol::Module => out.append("Load-symbol symbol-module(..)"),
            Symbol::Definition(id) => {
                out.append("Load-symbol ref-");
                push_def_ref(sc.tab, *id, out);
            },
            Symbol::Field => out.append("Load-symbol symbol-field(..)"),
            Symbol::EnumVariant => out.append("Load-symbol symbol-enum-variant(..)"),
        },
        ExpressionKind::GetAttr { attr, .. } => {
            out.append("get attr=");
            out.append(attr.as_str());
        },
        ExpressionKind::GetIndex { .. } => out.append("get-index"),
    }
}

fn push_expr_tail(tab: &Vec<TypeDefEntry>, e: &Expression, out: &mut String)
    requires
        ty_printable(infos(tab@), e.typ.ty()),
    ensures
        final(out)@ == old(out)@ + expr_tail(infos(tab@), *e),
{
    let ghost before = out@;
    match &e.typ {
        SlangType::Undefined => {},
        t => {
            out.append(" type=");
            push_type(tab, t, out);
        },
    }
    let ghost mid = out@;
    out.append(" ");
    let loc = e.location.text();
    out.append(loc.as_str());
    out.append("\n");
    proof {
        reveal_strlit("\n");
        assert(out@ =~= before + expr_tail(infos(tab@), *e));
    }
}

/// Append the dump of an expression.
fn print_expr(sc: &DumpEnv, ind: &String, e: &Expression, out: &mut Vec<Piece>)
    requires
        expr_ok(sc.table(), sc.pe(), sc.le(), *e),
    ensures
        segs(final(out)@) == segs(old(out)@) + expr_segs(sc.table(), sc.pe(), sc.le(), ind@, *e),
    decreases e,
{
    let ghost t = sc.table();
    let ghost pe = sc.pe();
    let ghost le = sc.le();
    let ghost before = segs(out@);
    match &e.kind {
        ExpressionKind::Literal(Literal::Float(bits)) => {
            let mut s = String::new();
            s.append(ind.as_str());
            s.append("Float val=");
            emit(out, s);
            emit_float(out, *bits);
            let mut s2 = String::new();
            push_expr_tail(sc.tab, e, &mut s2);
            emit(out, s2);
            proof {
                reveal_strlit("Float val=");
                assert(s@ =~= ind@ + "Float val="@);
            }
        },
        _ => {
            let mut s = String::new();
            s.append(ind.as_str());
            push_expr_head(sc, e, &mut s);
            push_expr_tail(sc.tab, e, &mut s);
            emit(out, s);
            proof {
                assert(s@ =~= ind@ + expr_head(t, pe, le, *e) + expr_tail(t, *e));
            }
        },
    }
    let ghost after_line = segs(out@);
    assert(after_line == before + expr_line(t, pe, le, ind@, *e));
    let d = deeper_ind(ind);
    match &e.kind {
        ExpressionKind::Call { callee, arguments } => {
            print_expr(sc, &d, callee, out);
            print_exprs(sc, &d, arguments, out);
        },
        ExpressionKind::Binop { lhs, rhs, .. } => {
            print_expr(sc, &d, lhs, out);
            print_expr(sc, &d, rhs, out);
        },
        ExpressionKind::TypeCast { value, .. } => print_expr(sc, &d, value, out),
        ExpressionKind::ObjectInitializer { fields, .. } => print_labeled(sc, &d, fields, out),
        ExpressionKind::TupleLiteral { values, .. } => print_exprs(sc, &d, values, out),
        ExpressionKind::UnionLiteral { value, .. } => print_expr(sc, &d, value, out),
        ExpressionKind::ListLiteral(values) => print_exprs(sc, &d, values, out),
        ExpressionKind::EnumLiteral { arguments, .. } => print_exprs(sc, &d, arguments, out),
        ExpressionKind::GetAttr { base, .. } => print_expr(sc, &d, base, out),
        ExpressionKind::GetIndex { base, index } => {
            print_expr(sc, &d, base, out);
            print_expr(sc, &d, index, out);
        },
        _ => {},
    }
    assert(segs(out@) =~= before + expr_segs(t, pe, le, ind@, *e));
}

fn print_exprs(sc: &DumpEnv, ind: &String, es: &Vec<Expression>, out: &mut Vec<Piece>)
    requires
        forall|i: int| 0 <= i < es@.len() ==> expr_ok(sc.table(), sc.pe(), sc.le(), #[trigger] es@[i]),
    ensures
        segs(final(out)@) == segs(old(out)@) + exprs_segs(sc.table(), sc.pe(), sc.le(), ind@, es@),
    decreases es,
{
    let ghost t = sc.table();
    let ghost pe = sc.pe();
    let ghost le = sc.le();
    let mut i: usize = 0;
    assert(es@.take(0) =~= Seq::<Expression>::empty());
    assert(segs(out@) =~= segs(old(out)@) + exprs_segs(t, pe, le, ind@, es@.take(0)));
    while i < es.len()
        invariant
            i <= es@.len(),
            t == sc.table(),
            pe == sc.pe(),
            le == sc.le(),
            forall|j: int| 0 <= j < es@.len() ==> expr_ok(t, pe, le, #[trigger] es@[j]),
            segs(out@) == segs(old(out)@) + exprs_segs(t, pe, le, ind@, es@.take(i as int)),
        decreases es@.len() - i,
    {
        let ghost prev = segs(out@);
        assert(es@.take(i as int + 1).drop_last() =~= es@.take(i as int));
        assert(es@.take(i as int + 1).last() == es@[i as int]);
        print_expr(sc, ind, &es[i], out);
        assert(segs(out@) =~= segs(old(out)@) + exprs_segs(t, pe, le, ind@, es@.take(i as int + 1)));
        i = i + 1;
    }
    assert(es@.take(i as int) =~= es@);
}

fn print_labeled(sc: &DumpEnv, ind: &String, fs: &Vec<LabeledField>, out: &mut Vec<Piece>)
    requires
        forall|i: int| 0 <= i < fs@.len() ==> expr_ok(sc.table(), sc.pe(), sc.le(), *(#[trigger] fs@[i]).value),
    ensures
        segs(final(out)@) == segs(old(out)@) + labeled_segs(sc.table(), sc.pe(), sc.le(), ind@, fs@),
    decreases fs,
{
    let ghost t = sc.table();
    let ghost pe = sc.pe();
    let ghost le = sc.le();
    let mut i: usize = 0;
    assert(fs@.take(0) =~= Seq::<LabeledField>::empty());
    assert(segs(out@) =~= segs(old(out)@) + labeled_segs(t, pe, le, ind@, fs@.take(0)));
    while i < fs.len()
        invariant
            i <= fs@.len(),
            t == sc.table(),
            pe == sc.pe(),
            le == sc.le(),
            forall|j: int| 0 <= j < fs@.len() ==> expr_ok(t, pe, le, *(#[trigger] fs@[j]).value),
            segs(out@) == segs(old(out)@) + labeled_segs(t, pe, le, ind@, fs@.take(i as int)),
        decreases fs@.len() - i,
    {
        assert(fs@.take(i as int + 1).drop_last() =~= fs@.take(i as int));
        assert(fs@.take(i as int + 1).last() == fs@[i as int]);
        print_expr(sc, ind, &fs[i].value, out);
        assert(segs(out@) =~= segs(old(out)@) + labeled_segs(t, pe, le, ind@, fs@.take(i as int + 1)));
        i = i + 1;
    }
    assert(fs@.take(i as int) =~= fs@);
}


fn push_stmt_head(sc: &DumpEnv, s: &Statement, out: &mut String)
    requires
        stmt_ok(sc.table(), sc.pe(), sc.le(), *s),
    ensures
        final(out)@ == old(out)@ + stmt_head(sc.le(), *s),
{
    match &s.kind {
        StatementKind::Break => out.append("break"),
        StatementKind::Continue => out.append("continue"),
        StatementKind::Unreachable => out.append("unreachable"),
        StatementKind::Pass => out.append("pass"),
        StatementKind::Return { .. } => out.append("return"),
        StatementKind::If(_) => out.append("if-statement"),
        StatementKind::While(_) => out.append("while-statement"),
        StatementKind::Loop { .. } => out.append("loop-statement"),
        StatementKind::Compound(_) => out.append("compound-statement"),
        StatementKind::For { loop_var, .. } => {
            out.append("for-statement loop-var-name=");
            let n = name_of(sc.locals, *loop_var);
            out.append(n.as_str());
        },
        StatementKind::Expression(_) => out.append("expression-statement"),
        StatementKind::Assignment { .. } => out.append("assignment-statement"),
        StatementKind::Case(_) => out.append("case-statement"),
        StatementKind::Switch(_) => out.append("switch-statement"),
        StatementKind::Let { local_id, .. } => {
            out.append("let-statement variable-name=");
            let n = name_of(sc.locals, *local_id);
            out.append(n.as_str());
        },
        StatementKind::SetAttr { attr, .. } => {
            out.append("set-attr-statement attr=");
            out.append(attr.as_str());
        },
        StatementKind::SetIndex { .. } => out.append("set-index-statement"),
        StatementKind::StoreLocal { local_id, .. } => {
            out.append("store-local-variable(");
            let n = name_of(sc.locals, *local_id);
            out.append(n.as_str());
            out.append(")");
        },
    }
}

/// Append a line: the indentation, the text and a line break.
fn emit_line(out: &mut Vec<Piece>, ind: &String, text: String)
    ensures
        segs(final(out)@) == segs(old(out)@) + text_segs(line(ind@, text@)),
{
    let mut s = String::new();
    s.append(ind.as_str());
    s.append(text.as_str());
    s.append("\n");
    proof {
        reveal_strlit("\n");
        assert(s@ =~= line(ind@, text@));
    }
    emit(out, s);
}

/// Append the dump of a statement.
fn print_stmt(sc: &DumpEnv, ind: &String, s: &Statement, out: &mut Vec<Piece>)
    requires
        stmt_ok(sc.table(), sc.pe(), sc.le(), *s),
    ensures
        segs(final(out)@) == segs(old(out)@) + stmt_segs(sc.table(), sc.pe(), sc.le(), ind@, *s),
    decreases s, 1nat,
{
    let ghost t = sc.table();
    let ghost pe = sc.pe();
    let ghost le = sc.le();
    let ghost before = segs(out@);
    let mut text = String::new();
    push_stmt_head(sc, s, &mut text);
    text.append(" ");
    let loc = s.location.text();
    text.append(loc.as_str());
    emit_line(out, ind, text);
    let ghost after_line = segs(out@);
    let d = deeper_ind(ind);
    print_stmt_parts(sc, &d, s, out);
    assert(segs(out@) =~= before + stmt_segs(t, pe, le, ind@, *s));
}

/// Append the dumps of the expressions and blocks of a statement.
#[verifier::rlimit(30)]
fn print_stmt_parts(sc: &DumpEnv, d: &String, s: &Statement, out: &mut Vec<Piece>)
    requires
        stmt_ok(sc.table(), sc.pe(), sc.le(), *s),
    ensures
        segs(final(out)@) == segs(old(out)@) + stmt_parts(sc.table(), sc.pe(), sc.le(), d@, *s),
    decreases s, 0nat,
{
    let ghost t = sc.table();
    let ghost pe = sc.pe();
    let ghost le = sc.le();
    let ghost before = segs(out@);
    match &s.kind {
        StatementKind::Return { value } => match value {
            Some(v) => print_expr(sc, d, v, out),
            None => {},
        },
        StatementKind::If(i) => {
            print_expr(sc, d, &i.condition, out);
            print_block(sc, d, &i.if_true, out);
            match &i.if_false {
                Some(b) => print_block(sc, d, b, out),
                None => {},
            }
            assert(segs(out@) =~= before + stmt_parts(t, pe, le, d@, *s));
        },
        StatementKind::While(w) => {
            print_expr(sc, d, &w.condition, out);
            print_block(sc, d, &w.body, out);
            assert(segs(out@) =~= before + stmt_parts(t, pe, le, d@, *s));
        },
        StatementKind::Loop { body } => print_block(sc, d, body, out),
        StatementKind::Compound(b) => print_block(sc, d, b, out),
        StatementKind::For { iterable, body, .. } => {
            print_expr(sc, d, iterable, out);
            print_block(sc, d, body, out);
            assert(segs(out@) =~= before + stmt_parts(t, pe, le, d@, *s));
        },
        StatementKind::Let { value, .. } => print_expr(sc, d, value, out),
        StatementKind::Assignment { target, value } => {
            print_expr(sc, d, target, out);
            print_expr(sc, d, value, out);
            assert(segs(out@) =~= before + stmt_parts(t, pe, le, d@, *s));
        },
        StatementKind::StoreLocal { value, .. } => print_expr(sc, d, value, out),
        StatementKind::SetAttr { base, value, .. } => {
            print_expr(sc, d, base, out);
            print_expr(sc, d, value, out);
            assert(segs(out@) =~= before + stmt_parts(t, pe, le, d@, *s));
        },
        StatementKind::SetIndex { base, index, value } => {
            print_expr(sc, d, base, out);
            print_expr(sc, d, index, out);
            print_expr(sc, d, value, out);
            assert(segs(out@) =~= before + stmt_parts(t, pe, le, d@, *s));
        },
        StatementKind::Case(cs) => {
            print_expr(sc, d, &cs.value, out);
            print_case_arms(sc, d, &cs.arms, out);
            assert(segs(out@) =~= before + stmt_parts(t, pe, le, d@, *s));
        },
        StatementKind::Switch(sw) => {
            print_expr(sc, d, &sw.value, out);
            print_switch_arms(sc, d, &sw.arms, out);
            print_block(sc, d, &sw.default, out);
            assert(segs(out@) =~= before + stmt_parts(t, pe, le, d@, *s));
        },
        StatementKind::Expression(e) => print_expr(sc, d, e, out),
        _ => {
            assert(segs(out@) =~= before + stmt_parts(t, pe, le, d@, *s));
        },
    }
}

fn print_block(sc: &DumpEnv, ind: &String, b: &Vec<Statement>, out: &mut Vec<Piece>)
    requires
        block_ok(sc.table(), sc.pe(), sc.le(), b@),
    ensures
        segs(final(out)@) == segs(old(out)@) + block_segs(sc.table(), sc.pe(), sc.le(), ind@, b@),
    decreases b, 2nat,
{
    let ghost t = sc.table();
    let ghost pe = sc.pe();
    let ghost le = sc.le();
    let mut i: usize = 0;
    assert(b@.take(0) =~= Seq::<Statement>::empty());
    assert(segs(out@) =~= segs(old(out)@) + block_segs(t, pe, le, ind@, b@.take(0)));
    while i < b.len()
        invariant
            i <= b@.len(),
            t == sc.table(),
            pe == sc.pe(),
            le == sc.le(),
            block_ok(t, pe, le, b@),
            segs(out@) == segs(old(out)@) + block_segs(t, pe, le, ind@, b@.take(i as int)),
        decreases b@.len() - i,
    {
        assert(b@.take(i as int + 1).drop_last() =~= b@.take(i as int));
        assert(b@.take(i as int + 1).last() == b@[i as int]);
        print_stmt(sc, ind, &b[i], out);
        assert(segs(out@) =~= segs(old(out)@) + block_segs(t, pe, le, ind@, b@.take(i as int + 1)));
        i = i + 1;
    }
    assert(b@.take(i as int) =~= b@);
}

fn print_case_arms(sc: &DumpEnv, ind: &String, arms: &Vec<CaseArm>, out: &mut Vec<Piece>)
    requires
        forall|k: int| 0 <= k < arms@.len() ==> block_ok(sc.table(), sc.pe(), sc.le(), (#[trigger] arms@[k]).body@),
    ensures
        segs(final(out)@) == segs(old(out)@) + case_arms_segs(sc.table(), sc.pe(), sc.le(), ind@, arms@),
    decreases arms, 2nat,
{
    let ghost t = sc.table();
    let ghost pe = sc.pe();
    let ghost le = sc.le();
    let d = deeper_ind(ind);
    let mut i: usize = 0;
    assert(arms@.take(0) =~= Seq::<CaseArm>::empty());
    assert(segs(out@) =~= segs(old(out)@) + case_arms_segs(t, pe, le, ind@, arms@.take(0)));
    while i < arms.len()
        invariant
            i <= arms@.len(),
            t == sc.table(),
            pe == sc.pe(),
            le == sc.le(),
            d@ == deeper(ind@),
            forall|k: int| 0 <= k < arms@.len() ==> block_ok(t, pe, le, (#[trigger] arms@[k]).body@),
            segs(out@) == segs(old(out)@) + case_arms_segs(t, pe, le, ind@, arms@.take(i as int)),
        decreases arms@.len() - i,
    {
        assert(arms@.take(i as int + 1).drop_last() =~= arms@.take(i as int));
        assert(arms@.take(i as int + 1).last() == arms@[i as int]);
        let mut text = String::new();
        text.append("case-arm:");
        emit_line(out, ind, text);
        print_block(sc, &d, &arms[i].body, out);
        assert(segs(out@) =~= segs(old(out)@) + case_arms_segs(t, pe, le, ind@, arms@.take(i as int + 1)));
        i = i + 1;
    }
    assert(arms@.take(i as int) =~= arms@);
}

fn print_switch_arms(sc: &DumpEnv, ind: &String, arms: &Vec<SwitchArm>, out: &mut Vec<Piece>)
    requires
        forall|k: int| 0 <= k < arms@.len() ==> expr_ok(sc.table(), sc.pe(), sc.le(), (#[trigger] arms@[k]).value) && block_ok(
            sc.table(),
            sc.pe(),
            sc.le(),
            arms@[k].body@,
        ),
    ensures
        segs(final(out)@) == segs(old(out)@) + switch_arms_segs(sc.table(), sc.pe(), sc.le(), ind@, arms@),
    decreases arms, 2nat,
{
    let ghost t = sc.table();
    let ghost pe = sc.pe();
    let ghost le = sc.le();
    let mut i: usize = 0;
    assert(arms@.take(0) =~= Seq::<SwitchArm>::empty());
    assert(segs(out@) =~= segs(old(out)@) + switch_arms_segs(t, pe, le, ind@, arms@.take(0)));
    while i < arms.len()
        invariant
            i <= arms@.len(),
            t == sc.table(),
            pe == sc.pe(),
            le == sc.le(),
            forall|k: int| 0 <= k < arms@.len() ==> expr_ok(t, pe, le, (#[trigger] arms@[k]).value) && block_ok(t, pe, le, arms@[k].body@),
            segs(out@) == segs(old(out)@) + switch_arms_segs(t, pe, le, ind@, arms@.take(i as int)),
        decreases arms@.len() - i,
    {
        assert(arms@.take(i as int + 1).drop_last() =~= arms@.take(i as int));
        assert(arms@.take(i as int + 1).last() == arms@[i as int]);
        print_expr(sc, ind, &arms[i].value, out);
        print_block(sc, ind, &arms[i].body, out);
        assert(segs(out@) =~= segs(old(out)@) + switch_arms_segs(t, pe, le, ind@, arms@.take(i as int + 1)));
        i = i + 1;
    }
    assert(arms@.take(i as int) =~= arms@);
}


/// The names of a function's object parameter and parameters, in order.
fn params_env(f: &FunctionDef) -> (r: Vec<NameNodeId>)
    ensures
        param_names(r@) == fn_penv(*f),
{
    let ghost target = fn_penv(*f);
    let mut r: Vec<NameNodeId> = Vec::new();
    match &f.this_param {
        Some(p) => r.push(p.name.copy()),
        None => {},
    }
    let off = r.len();
    let ps = &f.signature.parameters;
    let mut i: usize = 0;
    while i < ps.len()
        invariant
            i <= ps@.len(),
            ps@ == f.signature.parameters@,
            off == (if f.this_param is Some { 1int } else { 0int }),
            target == fn_penv(*f),
            target.len() == off + ps@.len(),
            r@.len() == off + i,
            forall|j: int| 0 <= j < r@.len() ==> (#[trigger] r@[j]).name@ == target[j].0 && r@[j].id as nat == target[j].1,
        decreases ps@.len() - i,
    {
        assert(target[off + i] == (ps@[i as int].name.name@, ps@[i as int].name.id as nat));
        r.push(ps[i].name.copy());
        i = i + 1;
    }
    assert(param_names(r@) =~= target);
    r
}

/// The names of a function's locals, in order.
fn locals_env(f: &FunctionDef) -> (r: Vec<NameNodeId>)
    ensures
        param_names(r@) == fn_lenv(*f),
{
    let ghost target = fn_lenv(*f);
    let mut r: Vec<NameNodeId> = Vec::new();
    let ls = &f.locals;
    let mut i: usize = 0;
    while i < ls.len()
        invariant
            i <= ls@.len(),
            ls@ == f.locals@,
            target == fn_lenv(*f),
            target.len() == ls@.len(),
            r@.len() == i,
            forall|j: int| 0 <= j < r@.len() ==> (#[trigger] r@[j]).name@ == target[j].0 && r@[j].id as nat == target[j].1,
        decreases ls@.len() - i,
    {
        r.push(ls[i].name.copy());
        i = i + 1;
    }
    assert(param_names(r@) =~= target);
    r
}

fn print_param_lines(tab: &Vec<TypeDefEntry>, ind: &String, ps: &Vec<Parameter>, out: &mut Vec<Piece>)
    requires
        forall|i: int| 0 <= i < ps@.len() ==> ty_printable(infos(tab@), (#[trigger] ps@[i]).typ.ty()),
    ensures
        segs(final(out)@) == segs(old(out)@) + param_lines(infos(tab@), ind@, ps@),
{
    let mut i: usize = 0;
    assert(ps@.take(0) =~= Seq::<Parameter>::empty());
    while i < ps.len()
        invariant
            i <= ps@.len(),
            forall|j: int| 0 <= j < ps@.len() ==> ty_printable(infos(tab@), (#[trigger] ps@[j]).typ.ty()),
            segs(out@) == segs(old(out)@) + param_lines(infos(tab@), ind@, ps@.take(i as int)),
        decreases ps@.len() - i,
    {
        assert(ps@.take(i as int + 1).drop_last() =~= ps@.take(i as int));
        assert(ps@.take(i as int + 1).last() == ps@[i as int]);
        let mut text = ps[i].name.text();
        text.append(" typ=");
        push_type(tab, &ps[i].typ, &mut text);
        emit_line(out, ind, text);
        assert(segs(out@) =~= segs(old(out)@) + param_lines(infos(tab@), ind@, ps@.take(i as int + 1)));
        i = i + 1;
    }
    assert(ps@.take(i as int) =~= ps@);
}

fn print_local_lines(tab: &Vec<TypeDefEntry>, ind: &String, ls: &Vec<LocalVariable>, out: &mut Vec<Piece>)
    requires
        forall|i: int| 0 <= i < ls@.len() ==> ty_printable(infos(tab@), (#[trigger] ls@[i]).typ.ty()),
    ensures
        segs(final(out)@) == segs(old(out)@) + local_lines(infos(tab@), ind@, ls@),
{
    let mut i: usize = 0;
    assert(ls@.take(0) =~= Seq::<LocalVariable>::empty());
    while i < ls.len()
        invariant
            i <= ls@.len(),
            forall|j: int| 0 <= j < ls@.len() ==> ty_printable(infos(tab@), (#[trigger] ls@[j]).typ.ty()),
            segs(out@) == segs(old(out)@) + local_lines(infos(tab@), ind@, ls@.take(i as int)),
        decreases ls@.len() - i,
    {
        assert(ls@.take(i as int + 1).drop_last() =~= ls@.take(i as int));
        assert(ls@.take(i as int + 1).last() == ls@[i as int]);
        let mut text = String::new();
        text.append("index=");
        push_u64(&mut text, i as u64);
        text.append(" ");
        let n = ls[i].name.text();
        text.append(n.as_str());
        text.append(" typ=");
        push_type(tab, &ls[i].typ, &mut text);
        emit_line(out, ind, text);
        assert(segs(out@) =~= segs(old(out)@) + local_lines(infos(tab@), ind@, ls@.take(i as int + 1)));
        i = i + 1;
    }
    assert(ls@.take(i as int) =~= ls@);
}

fn print_fn_header(tab: &Vec<TypeDefEntry>, ind: &String, f: &FunctionDef, out: &mut Vec<Piece>)
    requires
        fn_ok(infos(tab@), *f),
    ensures
        segs(final(out)@) == segs(old(out)@) + fn_header(infos(tab@), ind@, *f),
{
    let ghost t = infos(tab@);
    let ghost before = segs(out@);
    let mut text = String::new();
    text.append("fn ");
    let n = f.name.text();
    text.append(n.as_str());
    text.append(" location=");
    let loc = f.location.text();
    text.append(loc.as_str());
    emit_line(out, ind, text);
    let ghost s1 = segs(out@);
    let d = deeper_ind(ind);
    if f.signature.parameters.len() > 0 {
        let mut h = String::new();
        h.append("parameters:");
        emit_line(out, &d, h);
        let dd = deeper_ind(&d);
        print_param_lines(tab, &dd, &f.signature.parameters, out);
    }
    let ghost s2 = segs(out@);
    match &f.signature.return_type {
        Some(rt) => {
            let mut h = String::new();
            h.append("Return type: ");
            push_type(tab, rt, &mut h);
            emit_line(out, &d, h);
        },
        None => {},
    }
    let ghost s3 = segs(out@);
    if f.locals.len() > 0 {
        let mut h = String::new();
        h.append("locals:");
        emit_line(out, &d, h);
        let dd = deeper_ind(&d);
        print_local_lines(tab, &dd, &f.locals, out);
    }
    let ghost s4 = segs(out@);
    let mut c = String::new();
    c.append("code:");
    emit_line(out, &d, c);
    assert(segs(out@) =~= before + fn_header(t, ind@, *f));
}

/// Append the dump of a function, its body at the indentation `body_ind`.
fn print_fn(tab: &Vec<TypeDefEntry>, ind: &String, f: &FunctionDef, body_ind: &String, out: &mut Vec<Piece>)
    requires
        fn_ok(infos(tab@), *f),
    ensures
        segs(final(out)@) == segs(old(out)@) + fn_segs(infos(tab@), ind@, *f, body_ind@),
{
    let ghost before = segs(out@);
    print_fn_header(tab, ind, f, out);
    let pv = params_env(f);
    let lv = locals_env(f);
    let env = DumpEnv { tab, params: &pv, locals: &lv };
    print_block(&env, body_ind, &f.body, out);
    assert(segs(out@) =~= before + fn_segs(infos(tab@), ind@, *f, body_ind@));
}

fn print_methods(tab: &Vec<TypeDefEntry>, ind: &String, ms: &Vec<FunctionDef>, out: &mut Vec<Piece>)
    requires
        forall|j: int| 0 <= j < ms@.len() ==> fn_ok(infos(tab@), #[trigger] ms@[j]),
    ensures
        segs(final(out)@) == segs(old(out)@) + methods_segs(infos(tab@), ind@, ms@),
{
    let d = deeper_ind(ind);
    let mut i: usize = 0;
    assert(ms@.take(0) =~= Seq::<FunctionDef>::empty());
    while i < ms.len()
        invariant
            i <= ms@.len(),
            d@ == deeper(ind@),
            forall|j: int| 0 <= j < ms@.len() ==> fn_ok(infos(tab@), #[trigger] ms@[j]),
            segs(out@) == segs(old(out)@) + methods_segs(infos(tab@), ind@, ms@.take(i as int)),
        decreases ms@.len() - i,
    {
        assert(ms@.take(i as int + 1).drop_last() =~= ms@.take(i as int));
        assert(ms@.take(i as int + 1).last() == ms@[i as int]);
        print_fn(tab, ind, &ms[i], &d, out);
        assert(segs(out@) =~= segs(old(out)@) + methods_segs(infos(tab@), ind@, ms@.take(i as int + 1)));
        i = i + 1;
    }
    assert(ms@.take(i as int) =~= ms@);
}

fn print_field_lines(tab: &Vec<TypeDefEntry>, ind: &String, fs: &Vec<FieldDef>, out: &mut Vec<Piece>)
    requires
        fields_ok(infos(tab@), fs@),
    ensures
        segs(final(out)@) == segs(old(out)@) + field_lines(infos(tab@), ind@, fs@),
{
    let mut i: usize = 0;
    assert(fs@.take(0) =~= Seq::<FieldDef>::empty());
    while i < fs.len()
        invariant
            i <= fs@.len(),
            fields_ok(infos(tab@), fs@),
            segs(out@) == segs(old(out)@) + field_lines(infos(tab@), ind@, fs@.take(i as int)),
        decreases fs@.len() - i,
    {
        assert(fs@.take(i as int + 1).drop_last() =~= fs@.take(i as int));
        assert(fs@.take(i as int + 1).last() == fs@[i as int]);
        assert(ty_printable(infos(tab@), fs@[i as int].typ.ty()));
        let mut text = String::new();
        text.append("field name=");
        text.append(fs[i].name.as_str());
        text.append(" typ=");
        push_type(tab, &fs[i].typ, &mut text);
        emit_line(out, ind, text);
        assert(segs(out@) =~= segs(old(out)@) + field_lines(infos(tab@), ind@, fs@.take(i as int + 1)));
        i = i + 1;
    }
    assert(fs@.take(i as int) =~= fs@);
}

fn print_field_values(tab: &Vec<TypeDefEntry>, ind: &String, fs: &Vec<FieldDef>, out: &mut Vec<Piece>)
    requires
        fields_ok(infos(tab@), fs@),
    ensures
        segs(final(out)@) == segs(old(out)@) + field_values_segs(infos(tab@), ind@, fs@),
{
    let pv: Vec<NameNodeId> = Vec::new();
    let lv: Vec<NameNodeId> = Vec::new();
    let env = DumpEnv { tab, params: &pv, locals: &lv };
    assert(env.pe() =~= Seq::<(Seq<char>, nat)>::empty());
    assert(env.le() =~= Seq::<(Seq<char>, nat)>::empty());
    let mut i: usize = 0;
    assert(fs@.take(0) =~= Seq::<FieldDef>::empty());
    while i < fs.len()
        invariant
            i <= fs@.len(),
            env.tab == tab,
            env.pe() == Seq::<(Seq<char>, nat)>::empty(),
            env.le() == Seq::<(Seq<char>, nat)>::empty(),
            fields_ok(infos(tab@), fs@),
            segs(out@) == segs(old(out)@) + field_values_segs(infos(tab@), ind@, fs@.take(i as int)),
        decreases fs@.len() - i,
    {
        assert(fs@.take(i as int + 1).drop_last() =~= fs@.take(i as int));
        assert(fs@.take(i as int + 1).last() == fs@[i as int]);
        assert(ty_printable(infos(tab@), fs@[i as int].typ.ty()));
        match &fs[i].value {
            Some(v) => print_expr(&env, ind, v, out),
            None => {},
        }
        assert(segs(out@) =~= segs(old(out)@) + field_values_segs(infos(tab@), ind@, fs@.take(i as int + 1)));
        i = i + 1;
    }
    assert(fs@.take(i as int) =~= fs@);
}

/// Append the texts of the types, joined by `, `.
fn push_type_list(tab: &Vec<TypeDefEntry>, ts: &Vec<SlangType>, out: &mut String)
    requires
        forall|i: int| 0 <= i < ts@.len() ==> ty_printable(infos(tab@), (#[trigger] ts@[i]).ty()),
    ensures
        final(out)@ == old(out)@ + list_text(infos(tab@), tys(ts@)),
{
    let ghost a = tys(ts@);
    proof {
        lemma_tys(ts@);
    }
    let mut i: usize = 0;
    while i < ts.len()
        invariant
            i <= ts@.len(),
            a == tys(ts@),
            a.len() == ts@.len(),
            forall|j: int| 0 <= j < ts@.len() ==> #[trigger] a[j] == ts@[j].ty(),
            forall|j: int| 0 <= j < ts@.len() ==> ty_printable(infos(tab@), (#[trigger] ts@[j]).ty()),
            out@ == old(out)@ + list_text(infos(tab@), a.take(i as int)),
        decreases ts@.len() - i,
    {
        let ghost before = out@;
        let ghost next = a.take(i as int + 1);
        assert(next.drop_last() =~= a.take(i as int));
        assert(next.last() == a[i as int]);
        assert(next.len() == i + 1);
        if i > 0 {
            out.append(", ");
        }
        push_type(tab, &ts[i], out);
        proof {
            if i == 0 {
                assert(next[0] == a[0]);
                assert(out@ =~= before + ty_text(infos(tab@), a[0]));
            } else {
                assert(out@ =~= before + ", "@ + ty_text(infos(tab@), a[i as int]));
            }
        }
        i = i + 1;
    }
    assert(a.take(i as int) =~= a);
}

fn print_variant_lines(tab: &Vec<TypeDefEntry>, ind: &String, vs: &Vec<EnumVariant>, out: &mut Vec<Piece>)
    requires
        forall|j: int, k: int|
            0 <= j < vs@.len() && 0 <= k < vs@[j].data@.len() ==> ty_printable(infos(tab@), (#[trigger] vs@[j].data@[k]).ty()),
    ensures
        segs(final(out)@) == segs(old(out)@) + variant_lines(infos(tab@), ind@, vs@),
{
    let mut i: usize = 0;
    assert(vs@.take(0) =~= Seq::<EnumVariant>::empty());
    while i < vs.len()
        invariant
            i <= vs@.len(),
            forall|j: int, k: int|
                0 <= j < vs@.len() && 0 <= k < vs@[j].data@.len() ==> ty_printable(infos(tab@), (#[trigger] vs@[j].data@[k]).ty()),
            segs(out@) == segs(old(out)@) + variant_lines(infos(tab@), ind@, vs@.take(i as int)),
        decreases vs@.len() - i,
    {
        assert(vs@.take(i as int + 1).drop_last() =~= vs@.take(i as int));
        assert(vs@.take(i as int + 1).last() == vs@[i as int]);
        assert(forall|k: int| 0 <= k < vs@[i as int].data@.len() ==> ty_printable(infos(tab@), (#[trigger] vs@[i as int].data@[k]).ty()));
        let mut text = String::new();
        text.append("variant ");
        text.append(vs[i].name.as_str());
        text.append("(");
        push_type_list(tab, &vs[i].data, &mut text);
        text.append(")");
        emit_line(out, ind, text);
        assert(segs(out@) =~= segs(old(out)@) + variant_lines(infos(tab@), ind@, vs@.take(i as int + 1)));
        i = i + 1;
    }
    assert(vs@.take(i as int) =~= vs@);
}

fn print_struct(tab: &Vec<TypeDefEntry>, ind: &String, word: &str, sd: &StructDef, out: &mut Vec<Piece>)
    requires
        fields_ok(infos(tab@), sd.fields@),
    ensures
        segs(final(out)@) == segs(old(out)@) + struct_segs(infos(tab@), ind@, word@, *sd),
{
    let ghost before = segs(out@);
    let mut text = String::new();
    text.append(word);
    let n = sd.name.text();
    text.append(n.as_str());
    emit_line(out, ind, text);
    let d = deeper_ind(ind);
    print_field_lines(tab, &d, &sd.fields, out);
    print_field_values(tab, &d, &sd.fields, out);
    assert(segs(out@) =~= before + struct_segs(infos(tab@), ind@, word@, *sd));
}

/// Append the dump of a definition.
fn print_def(tab: &Vec<TypeDefEntry>, ind: &String, d: &Definition, out: &mut Vec<Piece>)
    requires
        def_ok(infos(tab@), *d),
    ensures
        segs(final(out)@) == segs(old(out)@) + def_segs(infos(tab@), ind@, *d),
{
    let ghost before = segs(out@);
    let d1 = deeper_ind(ind);
    match d {
        Definition::Function(f) => {
            let d2 = deeper_ind(&d1);
            print_fn(tab, ind, f, &d2, out);
        },
        Definition::Class(c) => {
            let mut text = String::new();
            text.append("class ");
            let n = c.name.text();
            text.append(n.as_str());
            emit_line(out, ind, text);
            print_field_lines(tab, &d1, &c.fields, out);
            print_field_values(tab, &d1, &c.fields, out);
            print_methods(tab, &d1, &c.methods, out);
            assert(segs(out@) =~= before + def_segs(infos(tab@), ind@, *d));
        },
        Definition::Struct(sd) => print_struct(tab, ind, "struct ", sd, out),
        Definition::Union(sd) => print_struct(tab, ind, "union ", sd, out),
        Definition::Enum(e) => {
            let mut text = String::new();
            text.append("enum(");
            let n = e.name.text();
            text.append(n.as_str());
            text.append(")[");
            super::type_text::push_names_text(&e.type_parameters, &mut text);
            text.append("]");
            emit_line(out, ind, text);
            print_variant_lines(tab, &d1, &e.variants, out);
            assert(segs(out@) =~= before + def_segs(infos(tab@), ind@, *d));
        },
    }
}

/// The dump of a program: a title line, then every definition with its
/// fields, functions, statements and expressions, one per line.
pub fn ast_dump(program: &Program) -> (r: Vec<Piece>)
    requires
        program_ok(*program),
    ensures
        segs(r@) == program_segs(*program),
{
    let tab = type_table(&program.definitions);
    let ghost t = def_infos(program.definitions@);
    let mut out: Vec<Piece> = Vec::new();
    let mut title = String::new();
    title.append("======== TYPED AST [");
    title.append(program.name.as_str());
    title.append("] ============>>\n");
    proof {
        reveal_strlit("] ============>>\n");
        reveal_strlit("] ============>>");
        assert(title@ =~= "======== TYPED AST ["@ + program.name@ + "] ============>>"@ + seq!['\n']);
    }
    emit(&mut out, title);
    let ghost start = segs(out@);
    let ind = String::new();
    let ds = &program.definitions;
    let mut i: usize = 0;
    assert(ds@.take(0) =~= Seq::<Definition>::empty());
    while i < ds.len()
        invariant
            i <= ds@.len(),
            ds@ == program.definitions@,
            t == infos(tab@),
            t == def_infos(program.definitions@),
            ind@ == Seq::<char>::empty(),
            program_ok(*program),
            segs(out@) == start + defs_segs(t, ds@.take(i as int)),
        decreases ds@.len() - i,
    {
        assert(ds@.take(i as int + 1).drop_last() =~= ds@.take(i as int));
        assert(ds@.take(i as int + 1).last() == ds@[i as int]);
        assert(def_ok(t, ds@[i as int]));
        print_def(&tab, &ind, &ds[i], &mut out);
        assert(segs(out@) =~= start + defs_segs(t, ds@.take(i as int + 1)));
        i = i + 1;
    }
    assert(ds@.take(i as int) =~= ds@);
    out
}

} // verus!
