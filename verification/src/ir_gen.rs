//! Translation of the typed tree into bytecode.
//!
//! Control flow is compiled with labels: a jump to a label whose place is
//! not known yet is emitted as a `Nop` placeholder and recorded as a
//! relocation, which is patched once the function is complete.

use crate::ast::{BinaryOperator, ComparisonOperator, LogicOperator, MathOperator};
use crate::bytecode::{self, Instruction, Typ, TypeDef, pops, pushes, terminator};
use crate::id_map::IdMap;
use crate::tast;
use crate::tast::{BasicType, Expression, ExpressionKind, NodeId, SlangType, Statement, StatementKind, Symbol, UserType};
use crate::text::str_eq;
use vstd::prelude::*;

verus! {

/// A jump whose target label is not placed yet.
enum Relocation {
    Jump { pc: usize, label: usize },
    JumpIf { pc: usize, true_label: usize, false_label: usize },
    JumpSwitch { pc: usize, default: usize, options: Vec<(i64, usize)> },
}

/// The instruction index that a relocation patches.
spec fn reloc_pc(r: Relocation) -> usize {
    match r {
        Relocation::Jump { pc, .. } => pc,
        Relocation::JumpIf { pc, .. } => pc,
        Relocation::JumpSwitch { pc, .. } => pc,
    }
}

/// All labels that a relocation jumps to satisfy `p`.
spec fn reloc_labels(r: Relocation, p: spec_fn(usize) -> bool) -> bool {
    match r {
        Relocation::Jump { label, .. } => p(label),
        Relocation::JumpIf { true_label, false_label, .. } => p(true_label) && p(false_label),
        Relocation::JumpSwitch { default, options, .. } => p(default) && forall|j: int|
            0 <= j < options@.len() ==> p(#[trigger] options@[j].1),
    }
}

/// A relocation whose labels satisfy `p` has labels that satisfy any weaker `q`.
proof fn lemma_reloc_labels_mono(r: Relocation, p: spec_fn(usize) -> bool, q: spec_fn(usize) -> bool)
    requires
        reloc_labels(r, p),
        forall|l: usize| #[trigger] p(l) ==> q(l),
    ensures
        reloc_labels(r, q),
{
    match r {
        Relocation::JumpSwitch { options, .. } => {
            assert forall|j: int| 0 <= j < options@.len() implies q(#[trigger] options@[j].1) by {
                assert(p(options@[j].1));
            }
        },
        _ => {},
    }
}

/// Every jump in the code goes to an instruction of the code.
/// The instruction that pushes a literal.
pub open spec fn literal_code(l: tast::Literal, i: Instruction) -> bool {
    match l {
        tast::Literal::Bool(b) => i == Instruction::BoolLiteral(b),
        tast::Literal::Integer(v) => i == Instruction::IntLiteral(v),
        tast::Literal::Float(f) => i == Instruction::FloatLiteral(f),
        tast::Literal::String(t) => i matches Instruction::StringLiteral(u) && u@ == t@,
    }
}

/// `code` computes the expression: the code of its operands, each in the
/// order in which they stand, then the instruction of the expression itself.
/// Where `ids` gives the slot of each parameter and local. Tuple, union and
/// list literals are not described.
pub open spec fn expr_code(ids: IdMap, e: Expression, code: Seq<Instruction>) -> bool
    decreases e, 0nat,
{
    match e.kind {
        ExpressionKind::Literal(l) => code.len() == 1 && literal_code(l, code[0]),
        ExpressionKind::Undefined => code == seq![Instruction::UndefinedLiteral],
        ExpressionKind::Binop { lhs, op, rhs } => match op {
            BinaryOperator::Math(m) => {
                &&& code.len() >= 1
                &&& exists|k: int|
                    0 <= k <= code.len() - 1 && expr_code(ids, *lhs, #[trigger] code.take(k)) && expr_code(
                        ids,
                        *rhs,
                        code.subrange(k, code.len() - 1),
                    )
                &&& code.last() matches Instruction::Operator { op: o, .. } && o == math_op(m)
            },
            BinaryOperator::Comparison(c) => {
                &&& code.len() >= 1
                &&& exists|k: int|
                    0 <= k <= code.len() - 1 && expr_code(ids, *lhs, #[trigger] code.take(k)) && expr_code(
                        ids,
                        *rhs,
                        code.subrange(k, code.len() - 1),
                    )
                &&& code.last() matches Instruction::Comparison { op: o, .. } && o == comparison_op(c)
            },
            _ => true,
        },
        ExpressionKind::TypeCast { value, .. } => {
            &&& code.len() >= 1
            &&& expr_code(ids, *value, code.drop_last())
            &&& code.last() is TypeConvert
        },
        ExpressionKind::Call { callee, arguments } => {
            &&& code.len() >= 1
            &&& exists|k: int|
                0 <= k <= code.len() - 1 && expr_code(ids, *callee, #[trigger] code.take(k)) && args_code(
                    ids,
                    arguments@,
                    code.subrange(k, code.len() - 1),
                )
            &&& code.last() matches Instruction::Call { n_args, .. } && n_args == arguments@.len()
        },
        ExpressionKind::GetAttr { base, .. } => {
            &&& code.len() >= 1
            &&& expr_code(ids, *base, code.drop_last())
            &&& code.last() is GetAttr
        },
        ExpressionKind::GetIndex { base, index } => {
            &&& code.len() >= 1
            &&& exists|k: int|
                0 <= k <= code.len() - 1 && expr_code(ids, *base, #[trigger] code.take(k)) && expr_code(
                    ids,
                    *index,
                    code.subrange(k, code.len() - 1),
                )
            &&& code.last() is GetElement
        },
        ExpressionKind::LoadSymbol(sym) => code.len() == 1 && match sym {
            Symbol::LocalVariable(id) => code[0] matches Instruction::LoadLocal { index } && ids.lookup(id) == Some(index),
            Symbol::Parameter(id) => code[0] matches Instruction::LoadParameter { index } && ids.lookup(id) == Some(index),
            Symbol::Function { .. } | Symbol::ExternFunction { .. } => code[0] is LoadGlobalName,
            _ => true,
        },
        _ => true,
    }
}

/// `code` computes the expressions one after the other, in order.
pub open spec fn args_code(ids: IdMap, es: Seq<Expression>, code: Seq<Instruction>) -> bool
    decreases es, 1nat,
{
    if es.len() == 0 {
        code.len() == 0
    } else {
        exists|k: int|
            0 <= k <= code.len() && args_code(ids, es.drop_last(), #[trigger] code.take(k)) && expr_code(
                ids,
                es.last(),
                code.skip(k),
            )
    }
}

/// The bytecode operator of an arithmetic operator.
pub open spec fn math_op(m: MathOperator) -> bytecode::Operator {
    match m {
        MathOperator::Add => bytecode::Operator::Add,
        MathOperator::Sub => bytecode::Operator::Sub,
        MathOperator::Mul => bytecode::Operator::Mul,
        MathOperator::Div => bytecode::Operator::Div,
    }
}

/// The bytecode comparison of a comparison operator.
pub open spec fn comparison_op(c: ComparisonOperator) -> bytecode::Comparison {
    match c {
        ComparisonOperator::Equal => bytecode::Comparison::Equal,
        ComparisonOperator::NotEqual => bytecode::Comparison::NotEqual,
        ComparisonOperator::Gt => bytecode::Comparison::Gt,
        ComparisonOperator::GtEqual => bytecode::Comparison::GtEqual,
        ComparisonOperator::Lt => bytecode::Comparison::Lt,
        ComparisonOperator::LtEqual => bytecode::Comparison::LtEqual,
    }
}

/// Distinct arithmetic operators compile to distinct bytecode operators.
pub proof fn lemma_math_ops_distinct(a: MathOperator, b: MathOperator)
    requires
        a != b,
    ensures
        math_op(a) != math_op(b),
{
}

/// Distinct comparison operators compile to distinct bytecode comparisons.
pub proof fn lemma_comparison_ops_distinct(a: ComparisonOperator, b: ComparisonOperator)
    requires
        a != b,
    ensures
        comparison_op(a) != comparison_op(b),
{
}

pub open spec fn jumps_in_range(code: Seq<Instruction>) -> bool {
    forall|i: int| 0 <= i < code.len() ==> jump_in_range(#[trigger] code[i], code.len() as int)
}

/// A jump instruction's targets are below `len`; other instructions have none.
pub open spec fn jump_in_range(i: Instruction, len: int) -> bool {
    match i {
        Instruction::Jump(t) => t < len,
        Instruction::JumpIf(a, b) => a < len && b < len,
        Instruction::JumpSwitch { default, options } => default < len && forall|j: int|
            0 <= j < options@.len() ==> #[trigger] options@[j].1 < len,
        _ => true,
    }
}

pub proof fn lemma_jumps_in_range_push(code: Seq<Instruction>, i: Instruction)
    requires
        jumps_in_range(code),
        jump_in_range(i, code.len() as int + 1),
    ensures
        jumps_in_range(code.push(i)),
{
    assert forall|k: int| 0 <= k < code.push(i).len() implies jump_in_range(
        #[trigger] code.push(i)[k],
        code.push(i).len() as int,
    ) by {
        if k < code.len() {
            assert(code.push(i)[k] == code[k]);
            assert(jump_in_range(code[k], code.len() as int));
        }
    }
}


/// Structural equality of bytecode types.
pub open spec fn typ_same(a: Typ, b: Typ) -> bool
    decreases a,
{
    match (a, b) {
        (Typ::Void, Typ::Void) => true,
        (Typ::Bool, Typ::Bool) => true,
        (Typ::Int, Typ::Int) => true,
        (Typ::Float, Typ::Float) => true,
        (Typ::String, Typ::String) => true,
        (Typ::Ptr(x), Typ::Ptr(y)) => typ_same(*x, *y),
        (Typ::Composite(x), Typ::Composite(y)) => x == y,
        (Typ::Function { parameters: p1, result: r1 }, Typ::Function { parameters: p2, result: r2 }) => {
            &&& typs_same(p1@, p2@)
            &&& match (r1, r2) {
                (None, None) => true,
                (Some(x), Some(y)) => typ_same(*x, *y),
                _ => false,
            }
        },
        _ => false,
    }
}

/// Structural equality of optional bytecode types.
pub open spec fn opt_typ_same(a: Option<Box<Typ>>, b: Option<Box<Typ>>) -> bool {
    match (a, b) {
        (None, None) => true,
        (Some(x), Some(y)) => typ_same(*x, *y),
        _ => false,
    }
}

/// Element-wise structural equality of sequences of bytecode types.
pub open spec fn typs_same(a: Seq<Typ>, b: Seq<Typ>) -> bool
    decreases a,
{
    if a.len() != b.len() {
        false
    } else if a.len() == 0 {
        true
    } else {
        typ_same(a[0], b[0]) && typs_same(a.drop_first(), b.drop_first())
    }
}

/// Structural equality of entries of the type table, as far as array entries go.
pub open spec fn typedef_same(a: TypeDef, b: TypeDef) -> bool {
    match (a, b) {
        (TypeDef::Array { size: s1, element_type: e1 }, TypeDef::Array { size: s2, element_type: e2 }) =>
            s1 == s2 && typ_same(e1, e2),
        _ => false,
    }
}

/// Structural equality of two bytecode types.
pub fn typ_eq(a: &Typ, b: &Typ) -> (r: bool)
    ensures
        r == typ_same(*a, *b),
    decreases a,
{
    match (a, b) {
        (Typ::Void, Typ::Void) => true,
        (Typ::Bool, Typ::Bool) => true,
        (Typ::Int, Typ::Int) => true,
        (Typ::Float, Typ::Float) => true,
        (Typ::String, Typ::String) => true,
        (Typ::Ptr(x), Typ::Ptr(y)) => typ_eq(x, y),
        (Typ::Composite(x), Typ::Composite(y)) => *x == *y,
        (Typ::Function { parameters: p1, result: r1 }, Typ::Function { parameters: p2, result: r2 }) => {
            let ghost rm = opt_typ_same(*r1, *r2);
            assert(typ_same(*a, *b) == (typs_same(p1@, p2@) && rm));
            if p1.len() != p2.len() {
                return false;
            }
            let mut i: usize = 0;
            assert(p1@.skip(0) =~= p1@);
            assert(p2@.skip(0) =~= p2@);
            while i < p1.len()
                invariant
                    i <= p1@.len(),
                    p1@.len() == p2@.len(),
                    typs_same(p1@, p2@) == typs_same(p1@.skip(i as int), p2@.skip(i as int)),
                    typ_same(*a, *b) == (typs_same(p1@, p2@) && rm),
                    *a == (Typ::Function { parameters: *p1, result: *r1 }),
                decreases p1@.len() - i,
            {
                proof {
                    assert(p1@.skip(i as int).drop_first() =~= p1@.skip(i as int + 1));
                    assert(p2@.skip(i as int).drop_first() =~= p2@.skip(i as int + 1));
                    assert(p1@.skip(i as int)[0] == p1@[i as int]);
                    assert(p2@.skip(i as int)[0] == p2@[i as int]);
                    assert(decreases_to!(*a => (*a)->parameters));
                    assert(decreases_to!((*a)->parameters => (*a)->parameters@));
                    assert(decreases_to!((*a)->parameters@ => (*a)->parameters@[i as int]));
                }
                if !typ_eq(&p1[i], &p2[i]) {
                    return false;
                }
                i = i + 1;
            }
            assert(p1@.skip(i as int).len() == 0);
            match (r1, r2) {
                (None, None) => true,
                (Some(x), Some(y)) => typ_eq(x, y),
                _ => false,
            }
        },
        _ => false,
    }
}

/// The compiled type of a typed-tree type can be computed: no undefined,
/// unresolved, constructor or variable types, and no enum or class types;
/// struct and union types have an entry in the type table.
pub open spec fn typ_ok(known_types: Set<usize>, t: SlangType) -> bool
    decreases t,
{
    match t {
        SlangType::Basic(_) | SlangType::Opaque | SlangType::Void => true,
        SlangType::Array(a) => typ_ok(known_types, *a.element_type),
        SlangType::User(u) => match u {
            UserType::Struct(st) => known_types.contains(st.struct_id),
            UserType::Union(id) => known_types.contains(id),
            UserType::Function(sig) => {
                &&& params_ok(known_types, sig.parameters@)
                &&& match sig.return_type {
                    Some(r) => typ_ok(known_types, r),
                    None => true,
                }
            },
            _ => false,
        },
        _ => false,
    }
}

/// The compiled types of all parameters can be computed.
pub open spec fn params_ok(known_types: Set<usize>, ps: Seq<tast::Parameter>) -> bool
    decreases ps,
{
    if ps.len() == 0 {
        true
    } else {
        typ_ok(known_types, ps[0].typ) && params_ok(known_types, ps.drop_first())
    }
}

/// The compiled type of a typed-tree type, as far as it is fixed before the
/// type table is known: the type of each basic type, pointers to the table
/// entries of struct and union types, function types of the same arity.
pub open spec fn typ_shape(type_ids: IdMap, t: SlangType, r: Typ) -> bool {
    match t {
        SlangType::Basic(BasicType::Bool) => r == Typ::Bool,
        SlangType::Basic(BasicType::Int) => r == Typ::Int,
        SlangType::Basic(BasicType::Float) => r == Typ::Float,
        SlangType::Basic(BasicType::String) => r == Typ::String,
        SlangType::Void => r == Typ::Void,
        SlangType::Opaque => r == Typ::Ptr(Box::new(Typ::Void)),
        SlangType::User(UserType::Struct(st)) => r == Typ::Ptr(
            Box::new(Typ::Composite(type_ids.lookup(st.struct_id).unwrap())),
        ),
        SlangType::User(UserType::Union(id)) => r == Typ::Ptr(
            Box::new(Typ::Composite(type_ids.lookup(id).unwrap())),
        ),
        SlangType::Array(_) => r matches Typ::Ptr(b) && *b is Composite,
        SlangType::User(UserType::Function(sig)) => r matches Typ::Function { parameters, result }
            && parameters@.len() == sig.parameters@.len() && (result is Some
            == sig.return_type is Some),
        _ => false,
    }
}

pub proof fn lemma_params_ok(known_types: Set<usize>, ps: Seq<tast::Parameter>)
    requires
        params_ok(known_types, ps),
    ensures
        forall|i: int| 0 <= i < ps.len() ==> typ_ok(known_types, #[trigger] ps[i].typ),
    decreases ps.len(),
{
    if ps.len() > 0 {
        lemma_params_ok(known_types, ps.drop_first());
        assert forall|i: int| 0 <= i < ps.len() implies typ_ok(known_types, #[trigger] ps[i].typ) by {
            if i > 0 {
                assert(ps[i] == ps.drop_first()[i - 1]);
            }
        }
    }
}

/// Table entry `i` is an array of `size` elements.
pub open spec fn array_entry(types: Seq<TypeDef>, i: int, size: usize) -> bool {
    &&& 0 <= i < types.len()
    &&& types[i] matches TypeDef::Array { size: s, .. }
    &&& s == size
}


// ---------------------------------------------------------------------------
// Stack effects of code segments.

/// The number of values a code segment leaves on the stack, less those it takes.
pub open spec fn net(seg: Seq<Instruction>) -> int
    decreases seg.len(),
{
    if seg.len() == 0 {
        0
    } else {
        net(seg.drop_last()) + pushes(seg.last()) - pops(seg.last())
    }
}

/// The segment never takes a value from the stack that it did not put there.
pub open spec fn stack_safe(seg: Seq<Instruction>) -> bool {
    forall|k: int| 0 <= k < seg.len() ==> net(#[trigger] seg.take(k)) >= pops(seg[k])
}

pub proof fn lemma_net_push(seg: Seq<Instruction>, i: Instruction)
    requires
        stack_safe(seg),
        net(seg) >= pops(i),
    ensures
        stack_safe(seg.push(i)),
        net(seg.push(i)) == net(seg) + pushes(i) - pops(i),
{
    assert(seg.push(i).drop_last() =~= seg);
    assert forall|k: int| 0 <= k < seg.push(i).len() implies net(#[trigger] seg.push(i).take(k)) >= pops(
        seg.push(i)[k],
    ) by {
        if k < seg.len() {
            assert(seg.push(i).take(k) =~= seg.take(k));
        } else {
            assert(seg.push(i).take(k) =~= seg);
        }
    }
}

pub proof fn lemma_net_append(a: Seq<Instruction>, b: Seq<Instruction>)
    ensures
        net(a + b) == net(a) + net(b),
    decreases b.len(),
{
    if b.len() == 0 {
        assert(a + b =~= a);
    } else {
        lemma_net_append(a, b.drop_last());
        assert((a + b).drop_last() =~= a + b.drop_last());
    }
}

pub proof fn lemma_safe_append(a: Seq<Instruction>, b: Seq<Instruction>)
    requires
        stack_safe(a),
        stack_safe(b),
        net(a) >= 0,
    ensures
        stack_safe(a + b),
        net(a + b) == net(a) + net(b),
{
    lemma_net_append(a, b);
    assert forall|k: int| 0 <= k < (a + b).len() implies net(#[trigger] (a + b).take(k)) >= pops((a + b)[k]) by {
        if k < a.len() {
            assert((a + b).take(k) =~= a.take(k));
        } else {
            assert((a + b).take(k) =~= a + b.take(k - a.len()));
            lemma_net_append(a, b.take(k - a.len()));
            assert(net(b.take(k - a.len())) >= pops(b[k - a.len()]));
        }
    }
}

/// A code segment without jumps.
pub open spec fn no_jumps(seg: Seq<Instruction>) -> bool {
    forall|k: int| 0 <= k < seg.len() ==> jump_in_range(#[trigger] seg[k], 0)
}


pub proof fn lemma_skip_push(code: Seq<Instruction>, start: int, i: Instruction)
    requires
        0 <= start <= code.len(),
    ensures
        code.push(i).skip(start) == code.skip(start).push(i),
{
    assert(code.push(i).skip(start) =~= code.skip(start).push(i));
}

pub proof fn lemma_skip_extend(a: Seq<Instruction>, b: Seq<Instruction>, start: int)
    requires
        0 <= start <= a.len() <= b.len(),
        b.take(a.len() as int) == a,
    ensures
        b.skip(start) == a.skip(start) + b.skip(a.len() as int),
{
    assert(b.skip(start) =~= a.skip(start) + b.skip(a.len() as int)) by {
        assert forall|k: int| 0 <= k < b.skip(start).len() implies b.skip(start)[k] == (a.skip(start) + b.skip(
            a.len() as int,
        ))[k] by {
            if start + k < a.len() {
                assert(b[start + k] == b.take(a.len() as int)[start + k]);
            }
        }
    }
}

/// Appending a segment with the given effects to a segment.
pub proof fn lemma_seg_append(seg: Seq<Instruction>, sub: Seq<Instruction>, v: bool, k: int, k2: int)
    requires
        no_jumps(seg),
        no_jumps(sub),
        v ==> stack_safe(seg) && net(seg) == k && k >= 0,
        v ==> stack_safe(sub) && net(sub) == k2,
    ensures
        no_jumps(seg + sub),
        v ==> stack_safe(seg + sub) && net(seg + sub) == k + k2,
{
    assert forall|q: int| 0 <= q < (seg + sub).len() implies jump_in_range(#[trigger] (seg + sub)[q], 0) by {
        if q < seg.len() {
            assert((seg + sub)[q] == seg[q]);
        } else {
            assert((seg + sub)[q] == sub[q - seg.len()]);
        }
    }
    if v {
        lemma_safe_append(seg, sub);
    }
}

/// Appending one instruction without jumps to a segment.
pub proof fn lemma_seg_push(seg: Seq<Instruction>, i: Instruction, v: bool, k: int)
    requires
        no_jumps(seg),
        jump_in_range(i, 0),
        v ==> stack_safe(seg) && net(seg) == k && k >= pops(i),
    ensures
        no_jumps(seg.push(i)),
        v ==> stack_safe(seg.push(i)) && net(seg.push(i)) == k + pushes(i) - pops(i),
{
    assert forall|q: int| 0 <= q < seg.push(i).len() implies jump_in_range(#[trigger] seg.push(i)[q], 0) by {
        if q < seg.len() {
            assert(seg.push(i)[q] == seg[q]);
        }
    }
    if v {
        lemma_net_push(seg, i);
    }
}


/// The segment since `start` after code was appended to the code `a`, giving `b`.
pub proof fn lemma_after_sub(a: Seq<Instruction>, b: Seq<Instruction>, start: int, v: bool, k: int, k2: int)
    requires
        0 <= start <= a.len() <= b.len(),
        forall|i: int| 0 <= i < a.len() ==> #[trigger] b[i] == a[i],
        no_jumps(a.skip(start)),
        v ==> stack_safe(a.skip(start)) && net(a.skip(start)) == k && k >= 0,
        no_jumps(b.skip(a.len() as int)),
        v ==> stack_safe(b.skip(a.len() as int)) && net(b.skip(a.len() as int)) == k2,
    ensures
        no_jumps(b.skip(start)),
        v ==> stack_safe(b.skip(start)) && net(b.skip(start)) == k + k2,
{
    assert(b.take(a.len() as int) =~= a);
    lemma_skip_extend(a, b, start);
    lemma_seg_append(a.skip(start), b.skip(a.len() as int), v, k, k2);
}

pub proof fn lemma_seg_start(code: Seq<Instruction>)
    ensures
        code.skip(code.len() as int) == Seq::<Instruction>::empty(),
        no_jumps(code.skip(code.len() as int)),
        stack_safe(code.skip(code.len() as int)),
        net(code.skip(code.len() as int)) == 0,
{
    assert(code.skip(code.len() as int) =~= Seq::<Instruction>::empty());
}

// ---------------------------------------------------------------------------
// Lookups of struct definitions and fields.

/// The first definition with node id `id` in the list.
pub open spec fn first_def(s: Seq<tast::StructDef>, id: NodeId) -> Option<int>
    decreases s.len(),
{
    if s.len() == 0 {
        None
    } else if s[0].name.id == id {
        Some(0)
    } else {
        match first_def(s.drop_first(), id) {
            Some(k) => Some(k + 1),
            None => None,
        }
    }
}

/// The first field named `attr` in the list.
pub open spec fn first_field(fields: Seq<tast::FieldDef>, attr: Seq<char>) -> Option<int>
    decreases fields.len(),
{
    if fields.len() == 0 {
        None
    } else if fields[0].name@ == attr {
        Some(0)
    } else {
        match first_field(fields.drop_first(), attr) {
            Some(k) => Some(k + 1),
            None => None,
        }
    }
}

/// The field named `attr` of the definition with id `id`, if both exist.
pub open spec fn field_of(s: Seq<tast::StructDef>, id: NodeId, attr: Seq<char>) -> Option<tast::FieldDef> {
    match first_def(s, id) {
        Some(k) => match first_field(s[k].fields@, attr) {
            Some(j) => Some(s[k].fields@[j]),
            None => None,
        },
        None => None,
    }
}

pub proof fn lemma_first_def_bound(s: Seq<tast::StructDef>, id: NodeId)
    ensures
        first_def(s, id) matches Some(k) ==> 0 <= k < s.len() && s[k].name.id == id,
    decreases s.len(),
{
    if s.len() > 0 && s[0].name.id != id {
        lemma_first_def_bound(s.drop_first(), id);
    }
}

pub proof fn lemma_first_field_bound(fields: Seq<tast::FieldDef>, attr: Seq<char>)
    ensures
        first_field(fields, attr) matches Some(k) ==> 0 <= k < fields.len() && fields[k].name@ == attr,
    decreases fields.len(),
{
    if fields.len() > 0 && fields[0].name@ != attr {
        lemma_first_field_bound(fields.drop_first(), attr);
    }
}

/// The definitions that a list of references points to.
pub open spec fn deref_all<'a>(s: Seq<&'a tast::StructDef>) -> Seq<tast::StructDef> {
    s.map_values(|r: &'a tast::StructDef| *r)
}

/// Index of the first definition with node id `id`.
fn find_def<'a>(s: &Vec<&'a tast::StructDef>, id: NodeId) -> (r: Option<usize>)
    ensures
        r matches Some(k) ==> first_def(deref_all(s@), id) == Some(k as int) && k < s@.len(),
        r is None ==> first_def(deref_all(s@), id) is None,
{
    let ghost d = deref_all(s@);
    let mut i: usize = 0;
    assert(d.skip(0) =~= d);
    while i < s.len()
        invariant
            i <= s@.len(),
            d == deref_all(s@),
            d.len() == s@.len(),
            first_def(d, id) == match first_def(d.skip(i as int), id) {
                Some(k) => Some(k + i),
                None => None::<int>,
            },
        decreases s@.len() - i,
    {
        assert(d.skip(i as int).drop_first() =~= d.skip(i as int + 1));
        assert(d[i as int] == *s@[i as int]);
        if s[i].name.id == id {
            return Some(i);
        }
        i = i + 1;
    }
    None
}

/// Index of the first field named `attr`.
fn find_field(fields: &Vec<tast::FieldDef>, attr: &str) -> (r: Option<usize>)
    ensures
        r matches Some(k) ==> first_field(fields@, attr@) == Some(k as int),
        r is None ==> first_field(fields@, attr@) is None,
{
    let mut i: usize = 0;
    assert(fields@.skip(0) =~= fields@);
    while i < fields.len()
        invariant
            i <= fields@.len(),
            first_field(fields@, attr@) == match first_field(fields@.skip(i as int), attr@) {
                Some(k) => Some(k + i),
                None => None::<int>,
            },
        decreases fields@.len() - i,
    {
        assert(fields@.skip(i as int).drop_first() =~= fields@.skip(i as int + 1));
        if str_eq(fields[i].name.as_str(), attr) {
            return Some(i);
        }
        i = i + 1;
    }
    None
}

// ---------------------------------------------------------------------------
// What code generation needs of an expression.

/// The compiled type is a pointer to an allocated object: arrays, structs,
/// unions and opaque objects.
pub open spec fn composite_ok(known_types: Set<usize>, t: SlangType) -> bool {
    &&& typ_ok(known_types, t)
    &&& (t is Array || t is Opaque || t matches SlangType::User(UserType::Struct(_)) || t matches SlangType::User(UserType::Union(_)))
}

/// The type conversion from `from` to `to` is supported.
pub open spec fn cast_ok(known_types: Set<usize>, from: SlangType, to: SlangType) -> bool {
    match (from, to) {
        (SlangType::Basic(BasicType::Int), SlangType::Basic(BasicType::Float)) => true,
        (SlangType::Basic(BasicType::Float), SlangType::Basic(BasicType::Int)) => true,
        (SlangType::User(_), SlangType::Opaque) => true,
        (SlangType::Opaque, SlangType::User(u)) => typ_ok(known_types, SlangType::User(u)),
        _ => false,
    }
}

/// The number of values that the code of an expression leaves on the stack:
/// none for a call of a function without result, one otherwise.
pub open spec fn value_count(e: Expression) -> int {
    match e.kind {
        ExpressionKind::Call { callee, .. } => match callee.typ {
            SlangType::User(UserType::Function(sig)) => if sig.return_type is Some {
                1
            } else {
                0
            },
            _ => 1,
        },
        _ => 1,
    }
}

/// Code can be generated for the expression: it holds no construct that
/// earlier passes rewrite away, its types compile, the fields and symbols it
/// names are known.
pub open spec fn expr_ok(known_types: Set<usize>, known: Set<usize>, structs: Seq<tast::StructDef>, e: Expression) -> bool
    decreases e,
{
    match e.kind {
        ExpressionKind::Undefined | ExpressionKind::Literal(_) => true,
        ExpressionKind::TupleLiteral { typ, values } => composite_ok(known_types, typ) && exprs_ok(
            known_types,
            known,
            structs,
            values@,
        ),
        ExpressionKind::UnionLiteral { attr, value } => {
            &&& e.typ matches SlangType::User(UserType::Union(id))
            &&& typ_ok(known_types, e.typ)
            &&& field_of(structs, id, attr@) is Some
            &&& expr_ok(known_types, known, structs, *value)
        },
        ExpressionKind::ListLiteral(values) => composite_ok(known_types, e.typ) && exprs_ok(
            known_types,
            known,
            structs,
            values@,
        ),
        ExpressionKind::Binop { lhs, op, rhs } => {
            &&& (op is Math || op is Comparison)
            &&& typ_ok(known_types, lhs.typ)
            &&& expr_ok(known_types, known, structs, *lhs)
            &&& expr_ok(known_types, known, structs, *rhs)
        },
        ExpressionKind::TypeCast { value, .. } => cast_ok(known_types, value.typ, e.typ) && expr_ok(
            known_types,
            known,
            structs,
            *value,
        ),
        ExpressionKind::Call { callee, arguments } => {
            &&& callee.typ matches SlangType::User(UserType::Function(sig))
            &&& match sig.return_type {
                Some(r) => typ_ok(known_types, r),
                None => true,
            }
            &&& expr_ok(known_types, known, structs, *callee)
            &&& exprs_ok(known_types, known, structs, arguments@)
        },
        ExpressionKind::GetAttr { base, attr } => {
            &&& base.typ matches SlangType::User(UserType::Struct(st))
            &&& field_of(structs, st.struct_id, attr@) matches Some(f)
            &&& typ_ok(known_types, f.typ)
            &&& expr_ok(known_types, known, structs, *base)
        },
        ExpressionKind::GetIndex { base, index } => {
            &&& typ_ok(known_types, e.typ)
            &&& expr_ok(known_types, known, structs, *base)
            &&& expr_ok(known_types, known, structs, *index)
        },
        ExpressionKind::LoadSymbol(sym) => match sym {
            Symbol::ExternFunction { typ, .. } => typ matches SlangType::User(UserType::Function(_))
                && typ_ok(known_types, typ),
            Symbol::Function { typ, .. } => typ_ok(known_types, typ),
            Symbol::LocalVariable(id) => known.contains(id),
            Symbol::Parameter(id) => known.contains(id),
            _ => false,
        },
        _ => false,
    }
}

/// Code can be generated for each expression of the sequence.
pub open spec fn exprs_ok(known_types: Set<usize>, known: Set<usize>, structs: Seq<tast::StructDef>, es: Seq<Expression>) -> bool
    decreases es,
{
    if es.len() == 0 {
        true
    } else {
        expr_ok(known_types, known, structs, es[0]) && exprs_ok(known_types, known, structs, es.drop_first())
    }
}

/// Every operand of the expression, at any depth, leaves one value on the stack.
pub open spec fn valued(e: Expression) -> bool
    decreases e,
{
    match e.kind {
        ExpressionKind::TupleLiteral { values, .. } => all_valued(values@),
        ExpressionKind::ListLiteral(values) => all_valued(values@),
        ExpressionKind::UnionLiteral { value, .. } => value_count(*value) == 1 && valued(*value),
        ExpressionKind::Binop { lhs, rhs, .. } => value_count(*lhs) == 1 && valued(*lhs)
            && value_count(*rhs) == 1 && valued(*rhs),
        ExpressionKind::TypeCast { value, .. } => value_count(*value) == 1 && valued(*value),
        ExpressionKind::Call { callee, arguments } => value_count(*callee) == 1 && valued(*callee)
            && all_valued(arguments@),
        ExpressionKind::GetAttr { base, .. } => value_count(*base) == 1 && valued(*base),
        ExpressionKind::GetIndex { base, index } => value_count(*base) == 1 && valued(*base)
            && value_count(*index) == 1 && valued(*index),
        _ => true,
    }
}

/// Each expression of the sequence leaves one value and is itself valued.
pub open spec fn all_valued(es: Seq<Expression>) -> bool
    decreases es,
{
    if es.len() == 0 {
        true
    } else {
        value_count(es[0]) == 1 && valued(es[0]) && all_valued(es.drop_first())
    }
}

pub proof fn lemma_exprs_ok(known_types: Set<usize>, known: Set<usize>, structs: Seq<tast::StructDef>, es: Seq<Expression>)
    requires
        exprs_ok(known_types, known, structs, es),
    ensures
        forall|i: int| 0 <= i < es.len() ==> expr_ok(known_types, known, structs, #[trigger] es[i]),
    decreases es.len(),
{
    if es.len() > 0 {
        lemma_exprs_ok(known_types, known, structs, es.drop_first());
        assert forall|i: int| 0 <= i < es.len() implies expr_ok(known_types, known, structs, #[trigger] es[i]) by {
            if i > 0 {
                assert(es[i] == es.drop_first()[i - 1]);
            }
        }
    }
}

pub proof fn lemma_all_valued(es: Seq<Expression>)
    requires
        all_valued(es),
    ensures
        forall|i: int| 0 <= i < es.len() ==> value_count(#[trigger] es[i]) == 1 && valued(es[i]),
    decreases es.len(),
{
    if es.len() > 0 {
        lemma_all_valued(es.drop_first());
        assert forall|i: int| 0 <= i < es.len() implies value_count(#[trigger] es[i]) == 1 && valued(es[i]) by {
            if i > 0 {
                assert(es[i] == es.drop_first()[i - 1]);
            }
        }
    }
}


// ---------------------------------------------------------------------------
// What code generation needs of a statement.

/// Code can be generated for a condition: `and`/`or` of conditions, or an expression.
pub open spec fn cond_ok(known_types: Set<usize>, known: Set<usize>, structs: Seq<tast::StructDef>, e: Expression) -> bool
    decreases e,
{
    match e.kind {
        ExpressionKind::Binop { lhs, op: BinaryOperator::Logic(_), rhs } => cond_ok(
            known_types,
            known,
            structs,
            *lhs,
        ) && cond_ok(known_types, known, structs, *rhs),
        _ => expr_ok(known_types, known, structs, e),
    }
}

/// Labels that the code of a condition creates.
pub open spec fn cond_labels(e: Expression) -> nat
    decreases e,
{
    match e.kind {
        ExpressionKind::Binop { lhs, op: BinaryOperator::Logic(_), rhs } => 1 + cond_labels(*lhs)
            + cond_labels(*rhs),
        _ => 0,
    }
}

/// The number of leaf tests of a condition: its operands, down through
/// `and` and `or`, that are not themselves `and` or `or`.
pub open spec fn leaf_count(e: Expression) -> nat
    decreases e,
{
    match e.kind {
        ExpressionKind::Binop { lhs, op: BinaryOperator::Logic(_), rhs } => leaf_count(*lhs) + leaf_count(*rhs),
        _ => 1,
    }
}

/// The truth of a condition whose leaf tests, from left to right, come out
/// as `vals`: `and` holds when both sides hold, `or` when either does.
pub open spec fn cond_value(e: Expression, vals: Seq<bool>) -> bool
    decreases e,
{
    match e.kind {
        ExpressionKind::Binop { lhs, op: BinaryOperator::Logic(o), rhs } => {
            let nl = leaf_count(*lhs) as int;
            match o {
                LogicOperator::And => cond_value(*lhs, vals.take(nl)) && cond_value(*rhs, vals.skip(nl)),
                LogicOperator::Or => cond_value(*lhs, vals.take(nl)) || cond_value(*rhs, vals.skip(nl)),
            }
        },
        _ => vals[0],
    }
}

/// Code can be generated for the statement: it holds no construct that
/// earlier passes rewrite away, its expressions are fine, `break` and
/// `continue` stand inside a loop, switch arms are integer literals.
pub open spec fn stmt_ok(known_types: Set<usize>, known: Set<usize>, structs: Seq<tast::StructDef>, in_loop: bool, s: Statement) -> bool
    decreases s,
{
    match s.kind {
        StatementKind::Expression(e) => expr_ok(known_types, known, structs, e),
        StatementKind::StoreLocal { local_id, value } => known.contains(local_id) && expr_ok(
            known_types,
            known,
            structs,
            value,
        ),
        StatementKind::SetAttr { base, attr, value } => {
            &&& base.typ matches SlangType::User(UserType::Struct(st))
            &&& field_of(structs, st.struct_id, attr@) is Some
            &&& expr_ok(known_types, known, structs, base)
            &&& expr_ok(known_types, known, structs, value)
        },
        StatementKind::SetIndex { base, index, value } => {
            &&& expr_ok(known_types, known, structs, base)
            &&& expr_ok(known_types, known, structs, index)
            &&& expr_ok(known_types, known, structs, value)
        },
        StatementKind::If(i) => {
            &&& cond_ok(known_types, known, structs, i.condition)
            &&& block_ok(known_types, known, structs, in_loop, i.if_true@)
            &&& match i.if_false {
                Some(b) => block_ok(known_types, known, structs, in_loop, b@),
                None => true,
            }
        },
        StatementKind::Loop { body } => block_ok(known_types, known, structs, true, body@),
        StatementKind::While(w) => cond_ok(known_types, known, structs, w.condition) && block_ok(
            known_types,
            known,
            structs,
            true,
            w.body@,
        ),
        StatementKind::Return { value } => match value {
            Some(v) => expr_ok(known_types, known, structs, v),
            None => true,
        },
        StatementKind::Switch(sw) => {
            &&& expr_ok(known_types, known, structs, sw.value)
            &&& arms_ok(known_types, known, structs, in_loop, sw.arms@)
            &&& block_ok(known_types, known, structs, in_loop, sw.default@)
        },
        StatementKind::Compound(b) => block_ok(known_types, known, structs, in_loop, b@),
        StatementKind::Pass | StatementKind::Unreachable => true,
        StatementKind::Break | StatementKind::Continue => in_loop,
        _ => false,
    }
}

/// Code can be generated for each statement of the block.
pub open spec fn block_ok(known_types: Set<usize>, known: Set<usize>, structs: Seq<tast::StructDef>, in_loop: bool, b: Seq<Statement>) -> bool
    decreases b,
{
    if b.len() == 0 {
        true
    } else {
        stmt_ok(known_types, known, structs, in_loop, b[0]) && block_ok(
            known_types,
            known,
            structs,
            in_loop,
            b.drop_first(),
        )
    }
}

/// Each switch arm is labeled by an integer literal and its body is fine.
pub open spec fn arms_ok(known_types: Set<usize>, known: Set<usize>, structs: Seq<tast::StructDef>, in_loop: bool, arms: Seq<tast::SwitchArm>) -> bool
    decreases arms,
{
    if arms.len() == 0 {
        true
    } else {
        &&& arms[0].value.kind matches ExpressionKind::Literal(tast::Literal::Integer(_))
        &&& block_ok(known_types, known, structs, in_loop, arms[0].body@)
        &&& arms_ok(known_types, known, structs, in_loop, arms.drop_first())
    }
}

/// Labels that the code of a statement creates.
pub open spec fn stmt_labels(s: Statement) -> nat
    decreases s,
{
    match s.kind {
        StatementKind::If(i) => if_labels(i),
        StatementKind::Loop { body } => 2 + block_labels(body@),
        StatementKind::While(w) => 3 + cond_labels(w.condition) + block_labels(w.body@),
        StatementKind::Switch(sw) => switch_labels(sw),
        StatementKind::Compound(b) => block_labels(b@),
        _ => 0,
    }
}

/// Labels that the code of an if statement creates.
pub open spec fn if_labels(i: tast::IfStatement) -> nat
    decreases i,
{
    match i.if_false {
        Some(b) => 3 + cond_labels(i.condition) + block_labels(i.if_true@) + block_labels(b@),
        None => 2 + cond_labels(i.condition) + block_labels(i.if_true@),
    }
}

/// Labels that the code of a switch statement creates.
pub open spec fn switch_labels(sw: tast::SwitchStatement) -> nat
    decreases sw,
{
    2 + sw.arms@.len() + arms_labels(sw.arms@) + block_labels(sw.default@)
}

/// The value that labels a switch arm: its integer literal.
pub open spec fn arm_value(a: tast::SwitchArm) -> i64 {
    match a.value.kind {
        ExpressionKind::Literal(tast::Literal::Integer(v)) => v,
        _ => 0,
    }
}

/// The values that label the arms of a switch, in order.
pub open spec fn arm_values(arms: Seq<tast::SwitchArm>) -> Seq<i64> {
    arms.map_values(|a: tast::SwitchArm| arm_value(a))
}

/// Labels that the code of a block creates.
pub open spec fn block_labels(b: Seq<Statement>) -> nat
    decreases b,
{
    if b.len() == 0 {
        0
    } else {
        stmt_labels(b[0]) + block_labels(b.drop_first())
    }
}

/// Labels that the bodies of switch arms create.
pub open spec fn arms_labels(arms: Seq<tast::SwitchArm>) -> nat
    decreases arms,
{
    if arms.len() == 0 {
        0
    } else {
        block_labels(arms[0].body@) + arms_labels(arms.drop_first())
    }
}

pub proof fn lemma_block_parts(known_types: Set<usize>, known: Set<usize>, structs: Seq<tast::StructDef>, in_loop: bool, b: Seq<Statement>, i: int)
    requires
        0 <= i < b.len(),
    ensures
        block_ok(known_types, known, structs, in_loop, b) ==> stmt_ok(known_types, known, structs, in_loop, b[i])
            && block_ok(known_types, known, structs, in_loop, b.skip(i + 1)),
        block_labels(b) == block_labels(b.take(i)) + stmt_labels(b[i]) + block_labels(b.skip(i + 1)),
    decreases i,
{
    if i > 0 {
        lemma_block_parts(known_types, known, structs, in_loop, b.drop_first(), i - 1);
        assert(b.drop_first().skip(i) =~= b.skip(i + 1));
        assert(b.drop_first()[i - 1] == b[i]);
        assert(b.take(i).drop_first() =~= b.drop_first().take(i - 1));
        assert(b.take(i)[0] == b[0]);
    } else {
        assert(b.skip(1) =~= b.drop_first());
        assert(b.take(0) =~= Seq::<Statement>::empty());
    }
}

pub proof fn lemma_block_labels_split(b: Seq<Statement>, i: int)
    requires
        0 <= i < b.len(),
    ensures
        block_labels(b) == block_labels(b.take(i)) + stmt_labels(b[i]) + block_labels(b.skip(i + 1)),
    decreases i,
{
    if i > 0 {
        lemma_block_labels_split(b.drop_first(), i - 1);
        assert(b.drop_first().skip(i) =~= b.skip(i + 1));
        assert(b.drop_first()[i - 1] == b[i]);
        assert(b.take(i).drop_first() =~= b.drop_first().take(i - 1));
        assert(b.take(i)[0] == b[0]);
    } else {
        assert(b.skip(1) =~= b.drop_first());
        assert(b.take(0) =~= Seq::<Statement>::empty());
    }
}

pub proof fn lemma_arms_parts(known_types: Set<usize>, known: Set<usize>, structs: Seq<tast::StructDef>, in_loop: bool, arms: Seq<tast::SwitchArm>, i: int)
    requires
        0 <= i < arms.len(),
    ensures
        arms_ok(known_types, known, structs, in_loop, arms) ==> (arms[i].value.kind matches ExpressionKind::Literal(
            tast::Literal::Integer(_),
        )) && block_ok(known_types, known, structs, in_loop, arms[i].body@),
        arms_labels(arms) == arms_labels(arms.take(i)) + block_labels(arms[i].body@) + arms_labels(arms.skip(i + 1)),
    decreases i,
{
    if i > 0 {
        lemma_arms_parts(known_types, known, structs, in_loop, arms.drop_first(), i - 1);
        assert(arms.drop_first().skip(i) =~= arms.skip(i + 1));
        assert(arms.drop_first()[i - 1] == arms[i]);
        assert(arms.take(i).drop_first() =~= arms.drop_first().take(i - 1));
        assert(arms.take(i)[0] == arms[0]);
    } else {
        assert(arms.skip(1) =~= arms.drop_first());
        assert(arms.take(0) =~= Seq::<tast::SwitchArm>::empty());
    }
}

pub proof fn lemma_block_labels_step(b: Seq<Statement>, i: int)
    requires
        0 <= i < b.len(),
    ensures
        block_labels(b.take(i + 1)) == block_labels(b.take(i)) + stmt_labels(b[i]),
{
    lemma_block_labels_split(b.take(i + 1), i);
    assert(b.take(i + 1).take(i) =~= b.take(i));
    assert(b.take(i + 1).skip(i + 1) =~= Seq::<Statement>::empty());
}

pub proof fn lemma_arms_labels_split(arms: Seq<tast::SwitchArm>, i: int)
    requires
        0 <= i < arms.len(),
    ensures
        arms_labels(arms) == arms_labels(arms.take(i)) + block_labels(arms[i].body@) + arms_labels(arms.skip(i + 1)),
    decreases i,
{
    if i > 0 {
        lemma_arms_labels_split(arms.drop_first(), i - 1);
        assert(arms.drop_first().skip(i) =~= arms.skip(i + 1));
        assert(arms.drop_first()[i - 1] == arms[i]);
        assert(arms.take(i).drop_first() =~= arms.drop_first().take(i - 1));
        assert(arms.take(i)[0] == arms[0]);
    } else {
        assert(arms.skip(1) =~= arms.drop_first());
        assert(arms.take(0) =~= Seq::<tast::SwitchArm>::empty());
    }
}

pub proof fn lemma_arms_labels_step(arms: Seq<tast::SwitchArm>, i: int)
    requires
        0 <= i < arms.len(),
    ensures
        arms_labels(arms.take(i + 1)) == arms_labels(arms.take(i)) + block_labels(arms[i].body@),
        arms_labels(arms) == arms_labels(arms.take(i)) + block_labels(arms[i].body@) + arms_labels(arms.skip(i + 1)),
{
    lemma_arms_labels_split(arms.take(i + 1), i);
    lemma_arms_labels_split(arms, i);
    assert(arms.take(i + 1).take(i) =~= arms.take(i));
    assert(arms.take(i + 1).skip(i + 1) =~= Seq::<tast::SwitchArm>::empty());
}

/// The labels of the loops on a stack with one more loop pushed.
pub proof fn lemma_loop_label_push(stack: Seq<(usize, usize)>, a: usize, b: usize, l: usize)
    ensures
        loop_label(stack.push((a, b)), l) <==> (loop_label(stack, l) || l == a || l == b),
{
    let s2 = stack.push((a, b));
    if loop_label(s2, l) {
        let i = choose|i: int| 0 <= i < s2.len() && (#[trigger] s2[i]).0 == l || 0 <= i < s2.len() && s2[i].1 == l;
        if i < stack.len() {
            assert(stack[i] == s2[i]);
        }
    }
    if loop_label(stack, l) {
        let i = choose|i: int| 0 <= i < stack.len() && (#[trigger] stack[i]).0 == l || 0 <= i < stack.len() && stack[i].1 == l;
        assert(s2[i] == stack[i]);
    }
    if l == a || l == b {
        assert(s2[stack.len() as int] == (a, b));
    }
}

/// `l` is the continue or break label of an enclosing loop.
pub open spec fn loop_label(stack: Seq<(usize, usize)>, l: usize) -> bool {
    exists|i: int| 0 <= i < stack.len() && (#[trigger] stack[i]).0 == l || 0 <= i < stack.len() && stack[i].1 == l
}

/// No label.
pub open spec fn nothing() -> spec_fn(usize) -> bool {
    |l: usize| false
}

/// One of two labels.
pub open spec fn either(a: usize, b: usize) -> spec_fn(usize) -> bool {
    |l: usize| l == a || l == b
}

/// One of three labels.
pub open spec fn one_of(a: usize, b: usize, c: usize) -> spec_fn(usize) -> bool {
    |l: usize| l == a || l == b || l == c
}

/// A label of an enclosing loop, or one in `lo..hi`.
pub open spec fn within(stack: Seq<(usize, usize)>, lo: int, hi: int) -> spec_fn(usize) -> bool {
    |l: usize| loop_label(stack, l) || lo <= l < hi
}

/// The function has a parameter with node id `id`.
pub open spec fn has_param(f: tast::FunctionDef, id: usize) -> bool {
    exists|i: int| 0 <= i < f.signature.parameters@.len() && (#[trigger] f.signature.parameters@[i]).name.id == id
}

/// The function has a local variable with node id `id`.
pub open spec fn has_local(f: tast::FunctionDef, id: usize) -> bool {
    exists|i: int| 0 <= i < f.locals@.len() && (#[trigger] f.locals@[i]).name.id == id
}

/// Node ids of the parameters and locals of a function.
pub open spec fn func_ids(f: tast::FunctionDef) -> Set<usize> {
    Set::new(|id: usize| has_param(f, id) || has_local(f, id))
}

/// Code can be generated for the function: the types of its parameters,
/// result and locals compile, and its body only names its own parameters and locals.
pub open spec fn func_ok(known_types: Set<usize>, structs: Seq<tast::StructDef>, f: tast::FunctionDef) -> bool {
    &&& params_ok(known_types, f.signature.parameters@)
    &&& (f.signature.return_type matches Some(r) ==> typ_ok(known_types, r))
    &&& forall|i: int| 0 <= i < f.locals@.len() ==> typ_ok(known_types, #[trigger] f.locals@[i].typ)
    &&& block_ok(known_types, func_ids(f), structs, false, f.body@)
}

/// The code of a function ends with a return or a jump, and every jump
/// goes to an instruction of it.
pub open spec fn code_ok(code: Seq<Instruction>) -> bool {
    &&& code.len() > 0
    &&& terminator(code.last())
    &&& jumps_in_range(code)
}

/// `c` is the compiled form of `f`: the same name, the parameters and locals
/// by name with their compiled types, the compiled result type, and code
/// as `code_ok` says.
pub open spec fn compiled(type_ids: IdMap, f: tast::FunctionDef, c: bytecode::Function) -> bool {
    &&& c.name@ == f.name.name@
    &&& c.parameters@.len() == f.signature.parameters@.len()
    &&& forall|i: int| 0 <= i < c.parameters@.len() ==> (#[trigger] c.parameters@[i]).name@
        == f.signature.parameters@[i].name.name@ && typ_shape(type_ids, f.signature.parameters@[i].typ, c.parameters@[i].typ)
    &&& match (f.signature.return_type, c.return_type) {
        (Some(t), Some(r)) => typ_shape(type_ids, t, r),
        (None, None) => true,
        _ => false,
    }
    &&& c.locals@.len() == f.locals@.len()
    &&& forall|i: int| 0 <= i < c.locals@.len() ==> (#[trigger] c.locals@[i]).name@ == f.locals@[i].name.name@
        && typ_shape(type_ids, f.locals@[i].typ, c.locals@[i].typ)
    &&& code_ok(c.code@)
}

/// The struct and union definitions of a list of definitions, in order.
pub open spec fn struct_defs(defs: Seq<tast::Definition>) -> Seq<tast::StructDef>
    decreases defs.len(),
{
    if defs.len() == 0 {
        Seq::empty()
    } else {
        let rest = struct_defs(defs.drop_last());
        match defs.last() {
            tast::Definition::Struct(sd) | tast::Definition::Union(sd) => rest.push(sd),
            _ => rest,
        }
    }
}

/// The function definitions of a list of definitions, in order.
pub open spec fn fn_defs(defs: Seq<tast::Definition>) -> Seq<tast::FunctionDef>
    decreases defs.len(),
{
    if defs.len() == 0 {
        Seq::empty()
    } else {
        let rest = fn_defs(defs.drop_last());
        match defs.last() {
            tast::Definition::Function(f) => rest.push(f),
            _ => rest,
        }
    }
}

/// Labels that the code of the functions of a list of definitions creates.
pub open spec fn defs_labels(defs: Seq<tast::Definition>) -> nat
    decreases defs.len(),
{
    if defs.len() == 0 {
        0
    } else {
        defs_labels(defs.drop_last()) + match defs.last() {
            tast::Definition::Function(f) => block_labels(f.body@),
            _ => 0,
        }
    }
}

/// Node ids of struct and union definitions.
pub open spec fn struct_ids(s: Seq<tast::StructDef>) -> Set<usize> {
    Set::new(|id: usize| exists|i: int| 0 <= i < s.len() && (#[trigger] s[i]).name.id == id)
}

/// The field types of a struct or union compile.
pub open spec fn fields_ok(known_types: Set<usize>, sd: tast::StructDef) -> bool {
    forall|j: int| 0 <= j < sd.fields@.len() ==> typ_ok(known_types, #[trigger] sd.fields@[j].typ)
}

/// Code can be generated for the definition: a function as `func_ok` says,
/// a struct or union whose field types compile; no class or enum, which
/// earlier passes rewrite away.
pub open spec fn def_ok(known_types: Set<usize>, structs: Seq<tast::StructDef>, d: tast::Definition) -> bool {
    match d {
        tast::Definition::Function(f) => func_ok(known_types, structs, f),
        tast::Definition::Struct(sd) => fields_ok(known_types, sd),
        tast::Definition::Union(sd) => fields_ok(known_types, sd),
        _ => false,
    }
}

/// Code can be generated for each definition.
pub open spec fn defs_ok(known_types: Set<usize>, structs: Seq<tast::StructDef>, defs: Seq<tast::Definition>) -> bool {
    forall|i: int| 0 <= i < defs.len() ==> def_ok(known_types, structs, #[trigger] defs[i])
}

/// The struct and union definitions of all programs, in order.
pub open spec fn all_structs(progs: Seq<tast::Program>) -> Seq<tast::StructDef>
    decreases progs.len(),
{
    if progs.len() == 0 {
        Seq::empty()
    } else {
        all_structs(progs.drop_last()) + struct_defs(progs.last().definitions@)
    }
}

/// The function definitions of all programs, in order.
pub open spec fn all_fns(progs: Seq<tast::Program>) -> Seq<tast::FunctionDef>
    decreases progs.len(),
{
    if progs.len() == 0 {
        Seq::empty()
    } else {
        all_fns(progs.drop_last()) + fn_defs(progs.last().definitions@)
    }
}

/// Labels that the code of all functions of all programs creates.
pub open spec fn all_labels(progs: Seq<tast::Program>) -> nat
    decreases progs.len(),
{
    if progs.len() == 0 {
        0
    } else {
        all_labels(progs.drop_last()) + defs_labels(progs.last().definitions@)
    }
}

/// Code can be generated for the programs, in order: each may use the
/// structs and unions of itself and of the programs before it.
pub open spec fn progs_ok(progs: Seq<tast::Program>) -> bool {
    forall|k: int| 0 <= k < progs.len() ==> defs_ok(
        struct_ids(all_structs(progs.take(k + 1))),
        all_structs(progs.take(k + 1)),
        #[trigger] progs[k].definitions@,
    )
}

/// What every compiled function has of its definition: the name, the
/// parameter and local names, and code as `code_ok` says.
pub open spec fn compiled_fn(f: tast::FunctionDef, c: bytecode::Function) -> bool {
    &&& c.name@ == f.name.name@
    &&& c.parameters@.len() == f.signature.parameters@.len()
    &&& forall|i: int| 0 <= i < c.parameters@.len() ==> (#[trigger] c.parameters@[i]).name@
        == f.signature.parameters@[i].name.name@
    &&& c.return_type is Some == f.signature.return_type is Some
    &&& c.locals@.len() == f.locals@.len()
    &&& forall|i: int| 0 <= i < c.locals@.len() ==> (#[trigger] c.locals@[i]).name@ == f.locals@[i].name.name@
    &&& code_ok(c.code@)
}

/// Each external function is imported once.
pub open spec fn imports_distinct(imports: Seq<bytecode::Import>) -> bool {
    forall|i: int, j: int| 0 <= i < j < imports.len() ==> (#[trigger] imports[i]).name@ != (#[trigger] imports[j]).name@
}

pub proof fn lemma_defs_step(defs: Seq<tast::Definition>, i: int)
    requires
        0 <= i < defs.len(),
    ensures
        struct_defs(defs.take(i + 1)) == match defs[i] {
            tast::Definition::Struct(sd) | tast::Definition::Union(sd) => struct_defs(defs.take(i)).push(sd),
            _ => struct_defs(defs.take(i)),
        },
        fn_defs(defs.take(i + 1)) == match defs[i] {
            tast::Definition::Function(f) => fn_defs(defs.take(i)).push(f),
            _ => fn_defs(defs.take(i)),
        },
        defs_labels(defs.take(i + 1)) == defs_labels(defs.take(i)) + match defs[i] {
            tast::Definition::Function(f) => block_labels(f.body@),
            _ => 0,
        },
{
    assert(defs.take(i + 1).drop_last() =~= defs.take(i));
    assert(defs.take(i + 1).last() == defs[i]);
}

pub proof fn lemma_progs_step(progs: Seq<tast::Program>, k: int)
    requires
        0 <= k < progs.len(),
    ensures
        all_structs(progs.take(k + 1)) == all_structs(progs.take(k)) + struct_defs(progs[k].definitions@),
        all_fns(progs.take(k + 1)) == all_fns(progs.take(k)) + fn_defs(progs[k].definitions@),
        all_labels(progs.take(k + 1)) == all_labels(progs.take(k)) + defs_labels(progs[k].definitions@),
{
    assert(progs.take(k + 1).drop_last() =~= progs.take(k));
    assert(progs.take(k + 1).last() == progs[k]);
}

pub proof fn lemma_struct_ids_push(s: Seq<tast::StructDef>, sd: tast::StructDef)
    ensures
        struct_ids(s.push(sd)) =~= struct_ids(s).insert(sd.name.id),
{
    assert forall|id: usize| struct_ids(s.push(sd)).contains(id) implies struct_ids(s).insert(sd.name.id).contains(id) by {
        let i = choose|i: int| 0 <= i < s.push(sd).len() && (#[trigger] s.push(sd)[i]).name.id == id;
        if i < s.len() {
            assert(s[i] == s.push(sd)[i]);
        }
    }
    assert forall|id: usize| struct_ids(s).insert(sd.name.id).contains(id) implies struct_ids(s.push(sd)).contains(id) by {
        if id == sd.name.id {
            assert(s.push(sd)[s.len() as int] == sd);
        } else {
            let i = choose|i: int| 0 <= i < s.len() && (#[trigger] s[i]).name.id == id;
            assert(s.push(sd)[i] == s[i]);
        }
    }
}

pub proof fn lemma_struct_ids_append(a: Seq<tast::StructDef>, b: Seq<tast::StructDef>)
    ensures
        struct_ids(a + b) =~= struct_ids(a).union(struct_ids(b)),
{
    assert forall|id: usize| struct_ids(a + b).contains(id) implies struct_ids(a).union(struct_ids(b)).contains(id) by {
        let i = choose|i: int| 0 <= i < (a + b).len() && (#[trigger] (a + b)[i]).name.id == id;
        if i < a.len() {
            assert(a[i] == (a + b)[i]);
        } else {
            assert(b[i - a.len()] == (a + b)[i]);
        }
    }
    assert forall|id: usize| struct_ids(a).union(struct_ids(b)).contains(id) implies struct_ids(a + b).contains(id) by {
        if struct_ids(a).contains(id) {
            let i = choose|i: int| 0 <= i < a.len() && (#[trigger] a[i]).name.id == id;
            assert((a + b)[i] == a[i]);
        } else {
            let i = choose|i: int| 0 <= i < b.len() && (#[trigger] b[i]).name.id == id;
            assert((a + b)[i + a.len()] == b[i]);
        }
    }
}

/// The code generator's state while it works through the programs.
struct Generator<'a> {
    imports: Vec<bytecode::Import>,
    /// Names of the external functions imported so far.
    imported: Vec<String>,
    functions: Vec<bytecode::Function>,
    /// Code of the function being generated.
    instructions: Vec<Instruction>,
    id_counter: usize,
    /// Continue and break labels of the enclosing loops.
    loop_stack: Vec<(usize, usize)>,
    types: Vec<TypeDef>,
    /// Type table index of each struct and union definition, by node id.
    type_ids: IdMap,
    /// The struct and union definitions seen so far.
    structs: Vec<&'a tast::StructDef>,
    /// Parameter or local index of each parameter and local, by node id.
    index_map: IdMap,
    /// Instruction index of each placed label.
    label_map: IdMap,
    relocations: Vec<Relocation>,
}

impl<'a> Generator<'a> {
    /// The state invariant of the code generator.
    spec fn wf(&self) -> bool {
        &&& forall|l: usize| #[trigger] self.label_map.lookup(l) is Some ==> l < self.id_counter
            && self.label_map.lookup(l).unwrap() <= self.instructions.len()
        &&& forall|i: int| 0 <= i < self.relocations.len() ==> reloc_pc(#[trigger] self.relocations@[i])
            < self.instructions.len()
        &&& jumps_in_range(self.instructions@)
        &&& forall|i: int| 0 <= i < self.loop_stack.len() ==> #[trigger] self.loop_stack@[i].0
            < self.id_counter && self.loop_stack@[i].1 < self.id_counter
        &&& self.imports_ok()
    }

    /// The imported names are those of the imports, each once.
    spec fn imports_ok(&self) -> bool {
        &&& self.imports@.len() == self.imported@.len()
        &&& forall|i: int| 0 <= i < self.imports@.len() ==> (#[trigger] self.imports@[i]).name@ == self.imported@[i]@
        &&& imports_distinct(self.imports@)
    }

    /// The struct and union definitions seen so far.
    spec fn defs(&self) -> Seq<tast::StructDef> {
        deref_all(self.structs@)
    }

    /// Between functions: no code, no pending jumps, no enclosing loops.
    spec fn idle(&self) -> bool {
        &&& self.instructions@.len() == 0
        &&& self.relocations@.len() == 0
        &&& self.loop_stack@.len() == 0
        &&& self.imports_ok()
    }

    /// Labels that are placed or that `allowed` admits.
    spec fn admitted(&self, allowed: spec_fn(usize) -> bool) -> spec_fn(usize) -> bool {
        |l: usize| self.placed(l) || allowed(l)
    }

    /// Labels that are placed inside the code.
    spec fn resolvable(&self) -> spec_fn(usize) -> bool {
        |l: usize| self.placed(l) && self.label_map.lookup(l).unwrap() < self.instructions.len()
    }

    /// The instruction index at which label `l` is placed.
    spec fn pos(&self, l: usize) -> int {
        self.label_map.lookup(l).unwrap() as int
    }

    /// The instruction at `pc` jumps to `label`, once labels are resolved.
    spec fn jump_at(&self, pc: int, label: usize) -> bool {
        exists|r: int|
            0 <= r < self.relocations@.len() && #[trigger] self.relocations@[r] == Relocation::Jump { pc: pc as usize, label }
    }

    /// The labels where the code for each arm of a switch starts, and then
    /// that of its default block.
    spec fn target_label(options: Seq<(i64, usize)>, default: usize, j: int) -> usize {
        if j < options.len() {
            options[j].1
        } else {
            default
        }
    }

    /// A jump table at `pc` over the arm values `values` is laid out as a
    /// switch ending at label `end`: right after the table stands the code of
    /// each arm in turn, then that of the default block, each ending in a
    /// jump to `end`, which is placed just after them. So the table sends
    /// the value of each arm to the start of that arm's code, and every other
    /// value to the start of the default block's code.
    spec fn switch_targets(&self, pc: int, options: Seq<(i64, usize)>, default: usize, values: Seq<i64>, end: usize) -> bool {
        let n = values.len() as int;
        &&& options.len() == n
        &&& forall|j: int| 0 <= j < n ==> (#[trigger] options[j]).0 == values[j]
        &&& forall|j: int| 0 <= j <= n ==> self.placed(#[trigger] Self::target_label(options, default, j))
        &&& self.placed(end)
        &&& self.pos(Self::target_label(options, default, 0)) == pc + 1
        &&& forall|j: int|
            0 <= j < n ==> self.pos(#[trigger] Self::target_label(options, default, j)) < self.pos(
                Self::target_label(options, default, j + 1),
            ) && self.jump_at(self.pos(Self::target_label(options, default, j + 1)) - 1, end)
        &&& self.pos(Self::target_label(options, default, n)) < self.pos(end)
        &&& self.jump_at(self.pos(end) - 1, end)
    }

    /// Relocation `k` is the jump table of a switch over `values` that ends at label `end`.
    spec fn switch_layout(&self, k: int, values: Seq<i64>, end: usize) -> bool {
        &&& 0 <= k < self.relocations@.len()
        &&& self.relocations@[k] matches Relocation::JumpSwitch { pc, default, options } && self.switch_targets(
            pc as int,
            options@,
            default,
            values,
            end,
        )
    }

    /// The code laid out by a switch statement, from the end of its arms (`u0`)
    /// through its default block (`u1` to `u2`) and the closing jump (`u3`)
    /// to the placed end label (`u5`), sends each value as `switch_layout` says.
    #[verifier::spinoff_prover]
    #[verifier::rlimit(30)]
    proof fn lemma_switch_layout(
        u0: &Self,
        u1: &Self,
        u2: &Self,
        u3: &Self,
        u5: &Self,
        table: Seq<(i64, usize)>,
        values: Seq<i64>,
        bounds: Seq<int>,
        jr: Seq<int>,
        base: int,
        pc: int,
        k: int,
        p: spec_fn(usize) -> bool,
        b: int,
    )
        requires
            0 <= base,
            base + 2 + table.len() <= usize::MAX,
            table.len() == values.len(),
            forall|jj: int| 0 <= jj < table.len() ==> (#[trigger] table[jj]).0 == values[jj] && table[jj].1 == base + 2 + jj,
            forall|l: usize| base <= l < base + 2 + table.len() ==> (#[trigger] u0.placed(l) <==> base + 2 <= l),
            bounds.len() == table.len() + 1,
            jr.len() == table.len(),
            bounds[0] == pc + 1,
            u0.instructions@.len() == bounds[table.len() as int],
            forall|q: int|
                0 <= q < table.len() ==> u0.pos((base + 2 + q) as usize) == bounds[q] && bounds[q] < bounds[q + 1] && 0
                    <= #[trigger] jr[q] < u0.relocations@.len() && u0.relocations@[jr[q]] == (Relocation::Jump {
                    pc: (bounds[q + 1] - 1) as usize,
                    label: base as usize,
                }),
            0 <= k < u0.relocations@.len(),
            u0.relocations@[k] matches Relocation::JumpSwitch { pc: p0, default: d, options: o } && p0 == pc
                && d == base + 1 && o@ == table,
            u1.label_map.lookup((base + 1) as usize) == Some(u0.instructions.len() as usize),
            forall|l: usize| l != base + 1 ==> u1.label_map.lookup(l) == u0.label_map.lookup(l),
            u1.instructions == u0.instructions,
            u1.relocations == u0.relocations,
            u2.flow(u1, p, true, b),
            !u2.placed(base as usize),
            u3.relocations@ == u2.relocations@.push(Relocation::Jump { pc: u2.instructions.len() as usize, label: base as usize }),
            u3.instructions@.len() == u2.instructions@.len() + 1,
            u3.label_map == u2.label_map,
            u5.label_map.lookup(base as usize) == Some(u3.instructions.len() as usize),
            forall|l: usize| l != base ==> u5.label_map.lookup(l) == u3.label_map.lookup(l),
            u5.relocations == u3.relocations,
        ensures
            u5.switch_layout(k, values, base as usize),
    {
        let n = table.len() as int;
        let default_label = (base + 1) as usize;
        let final_label = base as usize;
        assert forall|l: usize| #[trigger] u0.placed(l) implies u5.label_map.lookup(l) == u0.label_map.lookup(l) by {
            if l == default_label || l == final_label {
                assert(base <= l < base + 2 + n);
            }
            assert(u1.label_map.lookup(l) == u0.label_map.lookup(l));
            assert(u1.placed(l));
            assert(u2.label_map.lookup(l) == u1.label_map.lookup(l));
        }
        assert forall|i: int| 0 <= i < u0.relocations@.len() implies #[trigger] u5.relocations@[i]
            == u0.relocations@[i] by {
            assert(u2.relocations@[i] == u1.relocations@[i]);
            assert(u3.relocations@[i] == u2.relocations@[i]);
        }
        assert(u5.label_map.lookup(default_label) == Some(u0.instructions.len() as usize)) by {
            assert(u1.placed(default_label));
            assert(u2.label_map.lookup(default_label) == u1.label_map.lookup(default_label));
        }
        assert(u5.pos(final_label) == u2.instructions@.len() + 1);
        assert(u2.instructions@.len() >= u1.instructions@.len());
        let r = u2.relocations@.len() as int;
        assert(u5.relocations@[r] == (Relocation::Jump { pc: u2.instructions.len() as usize, label: final_label }));
        assert(u5.jump_at(u5.pos(final_label) - 1, final_label));
        assert forall|jj: int| 0 <= jj < n implies Self::target_label(table, default_label, jj) == (base + 2
            + jj) as usize && u5.pos(#[trigger] Self::target_label(table, default_label, jj)) == bounds[jj] by {
            assert(0 <= jr[jj] < u0.relocations@.len());
            assert(u0.placed((base + 2 + jj) as usize));
        }
        assert forall|jj: int| 0 <= jj <= n implies u5.pos(#[trigger] Self::target_label(table, default_label, jj))
            == bounds[jj] && u5.placed(Self::target_label(table, default_label, jj)) by {
            if jj < n {
                assert(Self::target_label(table, default_label, jj) == (base + 2 + jj) as usize);
                assert(u0.placed((base + 2 + jj) as usize));
                assert(u5.label_map.lookup((base + 2 + jj) as usize) == u0.label_map.lookup((base + 2 + jj) as usize));
            } else {
                assert(Self::target_label(table, default_label, jj) == default_label);
            }
        }
        assert forall|jj: int| 0 <= jj < n implies u5.pos(#[trigger] Self::target_label(table, default_label, jj))
            < u5.pos(Self::target_label(table, default_label, jj + 1)) && u5.jump_at(
            u5.pos(Self::target_label(table, default_label, jj + 1)) - 1,
            final_label,
        ) by {
            assert(0 <= jr[jj] < u0.relocations@.len());
            assert(u5.pos(Self::target_label(table, default_label, jj)) == bounds[jj]);
            assert(u5.pos(Self::target_label(table, default_label, jj + 1)) == bounds[jj + 1]);
            assert(u5.relocations@[jr[jj]] == u0.relocations@[jr[jj]]);
        }
        assert(u5.pos(Self::target_label(table, default_label, 0)) == pc + 1);
        assert(u5.pos(Self::target_label(table, default_label, n)) == bounds[n]);
        assert(u5.relocations@[k] == u0.relocations@[k]);
        assert(u5.switch_targets(pc, table, default_label, values, final_label));
    }

    /// The label is placed.
    spec fn placed(&self, l: usize) -> bool {
        self.label_map.lookup(l) is Some
    }

    fn new() -> (g: Self)
        ensures
            g.wf(),
            g.idle(),
            g.ids_ok(),
            forall|id: usize| #[trigger] g.type_ids.lookup(id) is None,
            g.structs@.len() == 0,
            g.functions@.len() == 0,
            g.instructions@.len() == 0,
            g.relocations@.len() == 0,
            g.loop_stack@.len() == 0,
            g.id_counter == 0,
    {
        Generator {
            imports: Vec::new(),
            imported: Vec::new(),
            functions: Vec::new(),
            instructions: Vec::new(),
            id_counter: 0,
            loop_stack: Vec::new(),
            types: Vec::new(),
            type_ids: IdMap::new(),
            structs: Vec::new(),
            index_map: IdMap::new(),
            label_map: IdMap::new(),
            relocations: Vec::new(),
        }
    }

    /// Only the type table changed, and only by appending entries.
    spec fn types_grew(&self, before: &Self) -> bool {
        &&& self.types@.len() >= before.types@.len()
        &&& forall|i: int| 0 <= i < before.types@.len() ==> #[trigger] self.types@[i] == before.types@[i]
        &&& self.instructions == before.instructions
        &&& self.id_counter == before.id_counter
        &&& self.label_map == before.label_map
        &&& self.relocations == before.relocations
        &&& self.loop_stack == before.loop_stack
        &&& self.type_ids == before.type_ids
        &&& self.structs == before.structs
        &&& self.index_map == before.index_map
        &&& self.imports == before.imports
        &&& self.imported == before.imported
        &&& self.functions == before.functions
    }

    /// Insert an array entry into the type table, unless an equal entry is
    /// there already; the index of the entry.
    fn inject_type(&mut self, typ: TypeDef) -> (idx: usize)
        requires
            typ is Array,
        ensures
            old(self).wf() ==> final(self).wf(),
            old(self).idle() ==> final(self).idle(),
            final(self).types_grew(old(self)),
            (exists|i: int| 0 <= i < old(self).types@.len() && typedef_same(#[trigger] old(self).types@[i], typ))
                ==> final(self).types@ == old(self).types@ && idx < old(self).types@.len()
                && typedef_same(old(self).types@[idx as int], typ) && forall|i: int| 0 <= i < idx ==> !typedef_same(
                #[trigger] old(self).types@[i], typ),
            !(exists|i: int| 0 <= i < old(self).types@.len() && typedef_same(#[trigger] old(self).types@[i], typ))
                ==> final(self).types@ == old(self).types@.push(typ) && idx == old(self).types@.len(),
    {
        let mut i: usize = 0;
        while i < self.types.len()
            invariant
                i <= self.types@.len(),
                typ is Array,
                    *self == *old(self),
                forall|j: int| 0 <= j < i ==> !typedef_same(#[trigger] self.types@[j], typ),
            decreases self.types@.len() - i,
        {
            let same = match (&self.types[i], &typ) {
                (TypeDef::Array { size: s1, element_type: e1 }, TypeDef::Array { size: s2, element_type: e2 }) =>
                    *s1 == *s2 && typ_eq(e1, e2),
                _ => false,
            };
            if same {
                assert(self.types@.take(self.types@.len() as int) =~= self.types@);
                return i;
            }
            i = i + 1;
        }
        let idx = self.types.len();
        self.types.push(typ);
        idx
    }

    /// The type table index of a struct definition.
    fn get_struct_index(&self, id: NodeId) -> (idx: usize)
        requires
            self.type_ids.lookup(id) is Some,
        ensures
            idx == self.type_ids.lookup(id).unwrap(),
    {
        match self.type_ids.get(id) {
            Some(idx) => idx,
            None => 0,
        }
    }

    /// The type table index of a union definition.
    fn get_union_index(&self, id: NodeId) -> (idx: usize)
        requires
            self.type_ids.lookup(id) is Some,
        ensures
            idx == self.type_ids.lookup(id).unwrap(),
    {
        match self.type_ids.get(id) {
            Some(idx) => idx,
            None => 0,
        }
    }

    /// The type table index of an array type.
    fn get_array_index(&mut self, array_type: &tast::ArrayType) -> (idx: usize)
        requires
            typ_ok(old(self).type_ids.keys(), *array_type.element_type),
        ensures
            old(self).wf() ==> final(self).wf(),
            old(self).idle() ==> final(self).idle(),
            final(self).types_grew(old(self)),
            array_entry(final(self).types@, idx as int, array_type.size),
        decreases array_type,
    {
        let element_type = self.get_bytecode_typ(&array_type.element_type);
        let array_typ = TypeDef::Array { size: array_type.size, element_type };
        let ghost mid = *self;
        let idx = self.inject_type(array_typ);
        proof {
            if exists|i: int| 0 <= i < mid.types@.len() && typedef_same(#[trigger] mid.types@[i], array_typ) {
                assert(typedef_same(mid.types@[idx as int], array_typ));
            }
        }
        idx
    }

    /// The bytecode type of a typed-tree type.
    fn get_bytecode_typ(&mut self, ty: &SlangType) -> (r: Typ)
        requires
            typ_ok(old(self).type_ids.keys(), *ty),
        ensures
            old(self).wf() ==> final(self).wf(),
            old(self).idle() ==> final(self).idle(),
            final(self).types_grew(old(self)),
            typ_shape(old(self).type_ids, *ty, r),
            ty is Array ==> (r matches Typ::Ptr(b) && (*b matches Typ::Composite(i) && array_entry(
                final(self).types@,
                i as int,
                ty->Array_0.size,
            ))),
        decreases ty,
    {
        match ty {
            SlangType::Basic(basic_type) => match basic_type {
                BasicType::Bool => Typ::Bool,
                BasicType::Int => Typ::Int,
                BasicType::Float => Typ::Float,
                BasicType::String => Typ::String,
            },
            SlangType::User(user_type) => self.get_bytecode_typ_for_user_type(user_type),
            SlangType::Array(array_type) => {
                let idx = self.get_array_index(array_type);
                Typ::Ptr(Box::new(Typ::Composite(idx)))
            },
            SlangType::Opaque => Typ::Ptr(Box::new(Typ::Void)),
            SlangType::Void => Typ::Void,
            _ => Typ::Void,
        }
    }

    /// The bytecode type of a user type.
    fn get_bytecode_typ_for_user_type(&mut self, user_type: &UserType) -> (r: Typ)
        requires
            typ_ok(old(self).type_ids.keys(), SlangType::User(*user_type)),
        ensures
            old(self).wf() ==> final(self).wf(),
            old(self).idle() ==> final(self).idle(),
            final(self).types_grew(old(self)),
            typ_shape(old(self).type_ids, SlangType::User(*user_type), r),
        decreases user_type,
    {
        match user_type {
            UserType::Struct(struct_type) => {
                let composite_id = self.get_struct_index(struct_type.struct_id);
                Typ::Ptr(Box::new(Typ::Composite(composite_id)))
            },
            UserType::Union(id) => {
                let composite_id = self.get_union_index(*id);
                Typ::Ptr(Box::new(Typ::Composite(composite_id)))
            },
            UserType::Function(signature) => {
                proof {
                    lemma_params_ok(self.type_ids.keys(), signature.parameters@);
                }
                let mut parameters: Vec<Typ> = Vec::new();
                let mut i: usize = 0;
                while i < signature.parameters.len()
                    invariant
                        i <= signature.parameters@.len(),
                        parameters@.len() == i,
                        old(self).wf() ==> self.wf(),
                        old(self).idle() ==> self.idle(),
                        self.types_grew(old(self)),
                        forall|j: int| 0 <= j < signature.parameters@.len() ==> typ_ok(
                            old(self).type_ids.keys(),
                            #[trigger] signature.parameters@[j].typ,
                        ),
                        *user_type == UserType::Function(*signature),
                    decreases signature.parameters@.len() - i,
                {
                    proof {
                        let ghost f = (*user_type)->Function_0;
                        assert(decreases_to!(*user_type => f));
                        assert(decreases_to!(f => f.parameters));
                        assert(decreases_to!(f.parameters => f.parameters@));
                        assert(decreases_to!(f.parameters@ => f.parameters@[i as int]));
                        assert(decreases_to!(f.parameters@[i as int] => f.parameters@[i as int].typ));
                    }
                    let ghost before = *self;
                    let t = self.get_bytecode_typ(&signature.parameters[i].typ);
                    parameters.push(t);
                    i = i + 1;
                }
                let result = match &signature.return_type {
                    Some(t) => {
                        proof {
                            let ghost f = (*user_type)->Function_0;
                            assert(decreases_to!(*user_type => f));
                            assert(decreases_to!(f => f.return_type));
                        }
                        let ghost before = *self;
                        let r = self.get_bytecode_typ(t);
                        Some(Box::new(r))
                    },
                    None => None,
                };
                Typ::Function { parameters, result }
            },
            _ => Typ::Void,
        }
    }

    /// Only code was appended, the type table grew, and imports may have been added.
    spec fn grew(&self, before: &Self) -> bool {
        &&& self.instructions@.len() >= before.instructions@.len()
        &&& forall|i: int| 0 <= i < before.instructions@.len() ==> #[trigger] self.instructions@[i] == before.instructions@[i]
        &&& self.types@.len() >= before.types@.len()
        &&& forall|i: int| 0 <= i < before.types@.len() ==> #[trigger] self.types@[i] == before.types@[i]
        &&& self.id_counter == before.id_counter
        &&& self.label_map == before.label_map
        &&& self.relocations == before.relocations
        &&& self.loop_stack == before.loop_stack
        &&& self.type_ids == before.type_ids
        &&& self.structs == before.structs
        &&& self.index_map == before.index_map
        &&& self.functions == before.functions
    }

    /// The code appended since index `start`.
    spec fn seg(&self, start: int) -> Seq<Instruction> {
        self.instructions@.skip(start)
    }

    spec fn ok(&self, e: Expression) -> bool {
        expr_ok(self.type_ids.keys(), self.index_map.keys(), self.defs(), e)
    }

    /// Import an external function, once.
    fn import_external(&mut self, func_name: String, import_typ: &SlangType)
        requires
            old(self).wf(),
            import_typ matches SlangType::User(UserType::Function(_)),
            typ_ok(old(self).type_ids.keys(), *import_typ),
        ensures
            final(self).wf(),
            final(self).grew(old(self)),
            final(self).instructions == old(self).instructions,
            final(self).imports@.len() >= old(self).imports@.len(),
            forall|i: int| 0 <= i < old(self).imports@.len() ==> #[trigger] final(self).imports@[i] == old(self).imports@[i],
            exists|i: int| 0 <= i < final(self).imports@.len() && (#[trigger] final(self).imports@[i]).name@ == func_name@,
    {
        let mut i: usize = 0;
        while i < self.imported.len()
            invariant
                i <= self.imported@.len(),
                *self == *old(self),
                old(self).wf(),
                forall|q: int| 0 <= q < i ==> (#[trigger] self.imported@[q])@ != func_name@,
            decreases self.imported@.len() - i,
        {
            if str_eq(self.imported[i].as_str(), func_name.as_str()) {
                assert(self.instructions@.take(self.instructions@.len() as int) =~= self.instructions@);
                assert(self.types@.take(self.types@.len() as int) =~= self.types@);
                assert(self.imports@[i as int].name@ == func_name@);
                return;
            }
            i = i + 1;
        }
        match import_typ {
            SlangType::User(UserType::Function(signature)) => {
                proof {
                    lemma_params_ok(self.type_ids.keys(), signature.parameters@);
                }
                let mut parameter_types: Vec<Typ> = Vec::new();
                let mut k: usize = 0;
                while k < signature.parameters.len()
                    invariant
                        k <= signature.parameters@.len(),
                        self.wf(),
                        self.instructions == old(self).instructions,
                        forall|i: int| 0 <= i < old(self).types@.len() ==> #[trigger] self.types@[i] == old(self).types@[i],
                        self.types@.len() >= old(self).types@.len(),
                        self.id_counter == old(self).id_counter,
                        self.label_map == old(self).label_map,
                        self.relocations == old(self).relocations,
                        self.loop_stack == old(self).loop_stack,
                        self.type_ids == old(self).type_ids,
                        self.structs == old(self).structs,
                        self.index_map == old(self).index_map,
                        self.functions == old(self).functions,
                        self.imports == old(self).imports,
                        self.imported == old(self).imported,
                        forall|j: int| 0 <= j < signature.parameters@.len() ==> typ_ok(
                            old(self).type_ids.keys(),
                            #[trigger] signature.parameters@[j].typ,
                        ),
                    decreases signature.parameters@.len() - k,
                {
                    let t = self.get_bytecode_typ(&signature.parameters[k].typ);
                    parameter_types.push(t);
                    k = k + 1;
                }
                let return_type = match &signature.return_type {
                    Some(t) => {
                        let r = self.get_bytecode_typ(t);
                        Some(r)
                    },
                    None => None,
                };
                let name_copy = func_name.clone();
                self.imported.push(name_copy);
                self.imports.push(bytecode::Import { name: func_name, parameter_types, return_type });
                proof {
                    let n = old(self).imports@.len();
                    assert(self.imports@[n as int].name@ == self.imported@[n as int]@);
                    assert forall|a: int, b: int| 0 <= a < b < self.imports@.len() implies (#[trigger] self.imports@[a]).name@
                        != (#[trigger] self.imports@[b]).name@ by {
                        if b == n {
                            assert(self.imports@[a] == old(self).imports@[a]);
                            assert(old(self).imported@[a]@ != func_name@);
                        } else {
                            assert(self.imports@[a] == old(self).imports@[a]);
                            assert(self.imports@[b] == old(self).imports@[b]);
                        }
                    }
                    assert forall|q: int| 0 <= q < self.imports@.len() implies (#[trigger] self.imports@[q]).name@
                        == self.imported@[q]@ by {
                        if q < n {
                            assert(self.imports@[q] == old(self).imports@[q]);
                            assert(self.imported@[q] == old(self).imported@[q]);
                        }
                    }
                }
            },
            _ => {},
        }
        assert(self.instructions@.take(self.instructions@.len() as int) =~= self.instructions@);
    }

    /// Emit an instruction that makes no jump, as part of an expression's code.
    fn emit_plain(&mut self, instruction: Instruction, Ghost(start): Ghost<int>, Ghost(v): Ghost<bool>, Ghost(k): Ghost<int>)
        requires
            old(self).wf(),
            jump_in_range(instruction, 0),
            0 <= start <= old(self).instructions@.len(),
            no_jumps(old(self).seg(start)),
            v ==> stack_safe(old(self).seg(start)) && net(old(self).seg(start)) == k && k >= pops(instruction),
        ensures
            final(self).wf(),
            final(self).grew(old(self)),
            final(self).imports == old(self).imports,
            final(self).imported == old(self).imported,
            final(self).instructions@ == old(self).instructions@.push(instruction),
            final(self).types == old(self).types,
            no_jumps(final(self).seg(start)),
            v ==> stack_safe(final(self).seg(start)) && net(final(self).seg(start)) == k + pushes(instruction)
                - pops(instruction),
    {
        proof {
            lemma_skip_push(self.instructions@, start, instruction);
            lemma_seg_push(self.seg(start), instruction, v, k);
        }
        self.emit(instruction);
    }

    /// Generate code for a literal value.
    fn gen_literal(&mut self, literal: &tast::Literal)
        requires
            old(self).wf(),
        ensures
            final(self).wf(),
            final(self).grew(old(self)),
            final(self).instructions@.len() == old(self).instructions@.len() + 1,
            no_jumps(final(self).seg(old(self).instructions@.len() as int)),
            stack_safe(final(self).seg(old(self).instructions@.len() as int)),
            net(final(self).seg(old(self).instructions@.len() as int)) == 1,
            literal_code(*literal, final(self).instructions@.last()),
    {
        let ghost start = self.instructions@.len() as int;
        proof {
            lemma_seg_start(self.instructions@);
        }
        match literal {
            tast::Literal::Bool(value) => {
                self.emit_plain(Instruction::BoolLiteral(*value), Ghost(start), Ghost(true), Ghost(0));
            },
            tast::Literal::Integer(value) => {
                self.emit_plain(Instruction::IntLiteral(*value), Ghost(start), Ghost(true), Ghost(0));
            },
            tast::Literal::Float(value) => {
                self.emit_plain(Instruction::FloatLiteral(*value), Ghost(start), Ghost(true), Ghost(0));
            },
            tast::Literal::String(value) => {
                self.emit_plain(Instruction::StringLiteral(value.clone()), Ghost(start), Ghost(true), Ghost(0));
            },
        }
    }

    /// Allocate a composite value: emit the allocation of the type the pointer type points to.
    fn allocate_composite_type(&mut self, typ: &SlangType)
        requires
            old(self).wf(),
            composite_ok(old(self).type_ids.keys(), *typ),
        ensures
            final(self).wf(),
            final(self).grew(old(self)),
            final(self).imports == old(self).imports,
            final(self).imported == old(self).imported,
            final(self).instructions@.len() == old(self).instructions@.len() + 1,
            final(self).instructions@.last() is Malloc,
    {
        let bc_typ = self.get_bytecode_typ(typ);
        let ghost start = self.instructions@.len() as int;
        proof {
            lemma_seg_start(self.instructions@);
        }
        match bc_typ {
            Typ::Ptr(inner) => {
                let ghost mid = *self;
                self.emit_plain(Instruction::Malloc(*inner), Ghost(start), Ghost(true), Ghost(0));
            },
            _ => {
                assert(false);
            },
        }
    }

    /// Generate code that computes the value of an expression onto the stack.
    fn gen_expression(&mut self, expression: &Expression)
        requires
            old(self).wf(),
            old(self).ok(*expression),
        ensures
            final(self).wf(),
            final(self).grew(old(self)),
            no_jumps(final(self).seg(old(self).instructions@.len() as int)),
            valued(*expression) ==> stack_safe(final(self).seg(old(self).instructions@.len() as int))
                && net(final(self).seg(old(self).instructions@.len() as int)) == value_count(*expression),
            expression.kind matches ExpressionKind::Binop { lhs, op, rhs } ==> match op {
                BinaryOperator::Math(m) => final(self).instructions@.len() > old(self).instructions@.len() && (final(self).instructions@.last() matches Instruction::Operator { op: o, typ } && o == math_op(m) && typ_shape(
                    old(self).type_ids,
                    lhs.typ,
                    typ,
                )),
                BinaryOperator::Comparison(c) => final(self).instructions@.len() > old(self).instructions@.len() && (final(self).instructions@.last() matches Instruction::Comparison { op: o, typ } && o == comparison_op(c) && typ_shape(
                    old(self).type_ids,
                    lhs.typ,
                    typ,
                )),
                _ => true,
            },
            expression.kind matches ExpressionKind::Call { callee, arguments } ==> final(self).instructions@.len()
                > old(self).instructions@.len() && (final(self).instructions@.last() matches Instruction::Call {
                n_args,
                typ,
            } && n_args == arguments@.len() && match callee.typ {
                SlangType::User(UserType::Function(sig)) => match sig.return_type {
                    Some(t) => typ matches Some(bt) && typ_shape(old(self).type_ids, t, bt),
                    None => typ is None,
                },
                _ => true,
            }),
            expr_code(old(self).index_map, *expression, final(self).seg(old(self).instructions@.len() as int)),
        decreases expression, 1int,
    {
        let ghost start = self.instructions@.len() as int;
        let ghost v = valued(*expression);
        proof {
            lemma_seg_start(self.instructions@);
        }
        match &expression.kind {
            ExpressionKind::Literal(literal) => {
                self.gen_literal(literal);
                assert(self.seg(start) =~= seq![self.instructions@.last()]);
            },
            ExpressionKind::TupleLiteral { .. } => {
                self.gen_tuple_literal(expression);
            },
            ExpressionKind::UnionLiteral { .. } => {
                self.gen_union_literal(expression);
            },
            ExpressionKind::Undefined => {
                self.emit_plain(Instruction::UndefinedLiteral, Ghost(start), Ghost(v), Ghost(0));
                assert(self.seg(start) =~= seq![Instruction::UndefinedLiteral]);
            },
            ExpressionKind::ListLiteral(_) => {
                self.gen_array_literal(expression);
            },
            ExpressionKind::Binop { .. } => {
                self.gen_binop(expression);
            },
            ExpressionKind::TypeCast { to_type: _, value } => {
                let ghost a = self.instructions@;
                self.gen_expression(value);
                proof {
                    lemma_after_sub(a, self.instructions@, start, v, 0, 1);
                }
                let cast_operation = match (&value.typ, &expression.typ) {
                    (SlangType::Basic(BasicType::Int), SlangType::Basic(BasicType::Float)) => {
                        bytecode::TypeConversion::IntToFloat
                    },
                    (SlangType::Basic(BasicType::Float), SlangType::Basic(BasicType::Int)) => {
                        bytecode::TypeConversion::FloatToInt
                    },
                    (SlangType::User(_), SlangType::Opaque) => bytecode::TypeConversion::UserToOpaque,
                    (SlangType::Opaque, SlangType::User(user_type)) => {
                        let ghost b = self.instructions@;
                        let t = self.get_bytecode_typ_for_user_type(user_type);
                        bytecode::TypeConversion::OpaqueToUser(t)
                    },
                    _ => {
                        assert(false);
                        bytecode::TypeConversion::IntToFloat
                    },
                };
                let ghost mid = *self;
                self.emit_plain(Instruction::TypeConvert(cast_operation), Ghost(start), Ghost(v), Ghost(1));
                assert(self.seg(start).drop_last() =~= mid.instructions@.skip(start));
            },
            ExpressionKind::Call { .. } => {
                self.gen_call(expression);
            },
            ExpressionKind::GetAttr { base, attr } => {
                match &base.typ {
                    SlangType::User(UserType::Struct(struct_type)) => {
                        proof {
                            lemma_first_def_bound(self.defs(), struct_type.struct_id);
                        }
                        match find_def(&self.structs, struct_type.struct_id) {
                            Some(k) => {
                                let struct_def: &tast::StructDef = self.structs[k];
                                proof {
                                    lemma_first_field_bound(struct_def.fields@, attr@);
                                }
                                match find_field(&struct_def.fields, attr.as_str()) {
                                    Some(j) => {
                                        let field = &struct_def.fields[j];
                                        let typ = self.get_bytecode_typ(&field.typ);
                                        let ghost a = self.instructions@;
                                        self.gen_expression(base);
                                        proof {
                                            lemma_after_sub(a, self.instructions@, start, v, 0, 1);
                                        }
                                        let ghost mid = self.instructions@;
                                        self.emit_plain(
                                            Instruction::GetAttr { index: field.index, typ },
                                            Ghost(start),
                                            Ghost(v),
                                            Ghost(1),
                                        );
                                        assert(self.seg(start).drop_last() =~= mid.skip(start));
                                    },
                                    None => {
                                        assert(false);
                                    },
                                }
                            },
                            None => {
                                assert(false);
                            },
                        }
                    },
                    _ => {
                        assert(false);
                    },
                }
            },
            ExpressionKind::GetIndex { base, index } => {
                let typ = self.get_bytecode_typ(&expression.typ);
                let ghost a = self.instructions@;
                self.gen_expression(base);
                proof {
                    lemma_after_sub(a, self.instructions@, start, v, 0, 1);
                }
                let ghost b = self.instructions@;
                self.gen_expression(index);
                proof {
                    lemma_after_sub(b, self.instructions@, start, v, 1, 1);
                }
                let ghost c = self.instructions@;
                self.emit_plain(Instruction::GetElement { typ }, Ghost(start), Ghost(v), Ghost(2));
                proof {
                    let code = self.seg(start);
                    let k = b.len() - start;
                    assert(code.take(k) =~= b.skip(start));
                    assert(code.subrange(k, code.len() - 1) =~= c.skip(b.len() as int));
                }
            },
            ExpressionKind::LoadSymbol(symbol) => match symbol {
                Symbol::ExternFunction { name, typ } => {
                    let mut full_name = "std_".to_owned();
                    full_name.append(name.as_str());
                    let imported_name = full_name.clone();
                    self.import_external(imported_name, typ);
                    let bc_typ = self.get_bytecode_typ(typ);
                    self.emit_plain(
                        Instruction::LoadGlobalName { name: full_name, typ: bc_typ },
                        Ghost(start),
                        Ghost(v),
                        Ghost(0),
                    );
                    assert(self.seg(start) =~= seq![self.instructions@.last()]);
                },
                Symbol::Function { name, typ } => {
                    let function_name = name.name.clone();
                    let bc_typ = self.get_bytecode_typ(typ);
                    self.emit_plain(
                        Instruction::LoadGlobalName { name: function_name, typ: bc_typ },
                        Ghost(start),
                        Ghost(v),
                        Ghost(0),
                    );
                    assert(self.seg(start) =~= seq![self.instructions@.last()]);
                },
                Symbol::LocalVariable(id) => {
                    match self.index_map.get(*id) {
                        Some(index) => {
                            self.emit_plain(Instruction::LoadLocal { index }, Ghost(start), Ghost(v), Ghost(0));
                            assert(self.seg(start) =~= seq![Instruction::LoadLocal { index }]);
                        },
                        None => {
                            assert(false);
                        },
                    }
                },
                Symbol::Parameter(id) => {
                    match self.index_map.get(*id) {
                        Some(index) => {
                            self.emit_plain(Instruction::LoadParameter { index }, Ghost(start), Ghost(v), Ghost(0));
                            assert(self.seg(start) =~= seq![Instruction::LoadParameter { index }]);
                        },
                        None => {
                            assert(false);
                        },
                    }
                },
                _ => {
                    assert(false);
                },
            },
            _ => {
                assert(false);
            },
        }
    }

    /// Generate an array literal: allocate the array, then set each element.
    fn gen_array_literal(&mut self, expression: &Expression)
        requires
            expression.kind is ListLiteral,
            old(self).wf(),
            old(self).ok(*expression),
        ensures
            final(self).wf(),
            final(self).grew(old(self)),
            no_jumps(final(self).seg(old(self).instructions@.len() as int)),
            valued(*expression) ==> stack_safe(final(self).seg(old(self).instructions@.len() as int))
                && net(final(self).seg(old(self).instructions@.len() as int)) == value_count(*expression),
        decreases expression, 0int,
    {
        let ghost start = self.instructions@.len() as int;
        let ghost v = valued(*expression);
        proof {
            lemma_seg_start(self.instructions@);
        }
        match &expression.kind {
            ExpressionKind::ListLiteral(values) => {
                proof {
                    lemma_exprs_ok(self.type_ids.keys(), self.index_map.keys(), self.defs(), values@);
                    if v {
                        lemma_all_valued(values@);
                    }
                }
                let ghost a0 = self.instructions@;
                self.allocate_composite_type(&expression.typ);
                proof {
                    lemma_skip_push(a0, start, self.instructions@.last());
                    assert(self.instructions@ =~= a0.push(self.instructions@.last()));
                    lemma_seg_push(a0.skip(start), self.instructions@.last(), v, 0);
                }
                let mut index: usize = 0;
                while index < values.len()
                    invariant
                        index <= values@.len(),
                        self.wf(),
                        self.grew(old(self)),
                        0 <= start <= self.instructions@.len(),
                        start == old(self).instructions@.len(),
                        no_jumps(self.seg(start)),
                        v ==> stack_safe(self.seg(start)) && net(self.seg(start)) == 1,
                        forall|i: int| 0 <= i < values@.len() ==> expr_ok(
                            old(self).type_ids.keys(),
                            old(self).index_map.keys(),
                            old(self).defs(),
                            #[trigger] values@[i],
                        ),
                        v ==> forall|i: int| 0 <= i < values@.len() ==> value_count(#[trigger] values@[i])
                            == 1 && valued(values@[i]),
                        expression.kind == ExpressionKind::ListLiteral(*values),
                    decreases values@.len() - index,
                {
                    self.emit_plain(Instruction::Duplicate, Ghost(start), Ghost(v), Ghost(1));
                    self.emit_plain(Instruction::IntLiteral(index as i64), Ghost(start), Ghost(v), Ghost(2));
                    proof {
                        assert(decreases_to!(*expression => expression.kind));
                        assert(decreases_to!(expression.kind => expression.kind->ListLiteral_0));
                        assert(decreases_to!(*values => values@));
                        assert(decreases_to!(values@ => values@[index as int]));
                    }
                    let ghost a = self.instructions@;
                    self.gen_expression(&values[index]);
                    proof {
                        lemma_after_sub(a, self.instructions@, start, v, 3, 1);
                    }
                    self.emit_plain(Instruction::SetElement, Ghost(start), Ghost(v), Ghost(4));
                    index = index + 1;
                }
            },
            _ => {
                assert(false);
            },
        }
    }

    /// Generate a tuple literal: allocate the struct, then set each field.
    fn gen_tuple_literal(&mut self, expression: &Expression)
        requires
            expression.kind is TupleLiteral,
            old(self).wf(),
            old(self).ok(*expression),
        ensures
            final(self).wf(),
            final(self).grew(old(self)),
            no_jumps(final(self).seg(old(self).instructions@.len() as int)),
            valued(*expression) ==> stack_safe(final(self).seg(old(self).instructions@.len() as int))
                && net(final(self).seg(old(self).instructions@.len() as int)) == value_count(*expression),
        decreases expression, 0int,
    {
        let ghost start = self.instructions@.len() as int;
        let ghost v = valued(*expression);
        proof {
            lemma_seg_start(self.instructions@);
        }
        match &expression.kind {
            ExpressionKind::TupleLiteral { typ, values } => {
                proof {
                    lemma_exprs_ok(self.type_ids.keys(), self.index_map.keys(), self.defs(), values@);
                    if v {
                        lemma_all_valued(values@);
                    }
                }
                let ghost a0 = self.instructions@;
                self.allocate_composite_type(typ);
                proof {
                    lemma_skip_push(a0, start, self.instructions@.last());
                    assert(self.instructions@ =~= a0.push(self.instructions@.last()));
                    lemma_seg_push(a0.skip(start), self.instructions@.last(), v, 0);
                }
                let mut index: usize = 0;
                while index < values.len()
                    invariant
                        index <= values@.len(),
                        self.wf(),
                        self.grew(old(self)),
                        0 <= start <= self.instructions@.len(),
                        start == old(self).instructions@.len(),
                        no_jumps(self.seg(start)),
                        v ==> stack_safe(self.seg(start)) && net(self.seg(start)) == 1,
                        forall|i: int| 0 <= i < values@.len() ==> expr_ok(
                            old(self).type_ids.keys(),
                            old(self).index_map.keys(),
                            old(self).defs(),
                            #[trigger] values@[i],
                        ),
                        v ==> forall|i: int| 0 <= i < values@.len() ==> value_count(#[trigger] values@[i])
                            == 1 && valued(values@[i]),
                        expression.kind == (ExpressionKind::TupleLiteral { typ: *typ, values: *values }),
                    decreases values@.len() - index,
                {
                    self.emit_plain(Instruction::Duplicate, Ghost(start), Ghost(v), Ghost(1));
                    proof {
                        assert(decreases_to!(*expression => expression.kind));
                        assert(decreases_to!(expression.kind => expression.kind->values));
                        assert(decreases_to!(*values => values@));
                        assert(decreases_to!(values@ => values@[index as int]));
                    }
                    let ghost a = self.instructions@;
                    self.gen_expression(&values[index]);
                    proof {
                        lemma_after_sub(a, self.instructions@, start, v, 2, 1);
                    }
                    self.emit_plain(Instruction::SetAttr { index }, Ghost(start), Ghost(v), Ghost(3));
                    index = index + 1;
                }
            },
            _ => {
                assert(false);
            },
        }
    }

    /// Generate a union literal: allocate the union, then set the chosen field.
    fn gen_union_literal(&mut self, expression: &Expression)
        requires
            expression.kind is UnionLiteral,
            old(self).wf(),
            old(self).ok(*expression),
        ensures
            final(self).wf(),
            final(self).grew(old(self)),
            no_jumps(final(self).seg(old(self).instructions@.len() as int)),
            valued(*expression) ==> stack_safe(final(self).seg(old(self).instructions@.len() as int))
                && net(final(self).seg(old(self).instructions@.len() as int)) == value_count(*expression),
        decreases expression, 0int,
    {
        let ghost start = self.instructions@.len() as int;
        let ghost v = valued(*expression);
        proof {
            lemma_seg_start(self.instructions@);
        }
        match (&expression.kind, &expression.typ) {
            (ExpressionKind::UnionLiteral { attr, value }, SlangType::User(UserType::Union(id))) => {
                proof {
                    lemma_first_def_bound(self.defs(), *id);
                }
                let ghost a0 = self.instructions@;
                self.allocate_composite_type(&expression.typ);
                proof {
                    lemma_skip_push(a0, start, self.instructions@.last());
                    assert(self.instructions@ =~= a0.push(self.instructions@.last()));
                    lemma_seg_push(a0.skip(start), self.instructions@.last(), v, 0);
                }
                match find_def(&self.structs, *id) {
                    Some(k) => {
                        let union_def: &tast::StructDef = self.structs[k];
                        proof {
                            lemma_first_field_bound(union_def.fields@, attr@);
                        }
                        match find_field(&union_def.fields, attr.as_str()) {
                            Some(j) => {
                                let index = union_def.fields[j].index;
                                self.emit_plain(Instruction::Duplicate, Ghost(start), Ghost(v), Ghost(1));
                                let ghost a = self.instructions@;
                                self.gen_expression(value);
                                proof {
                                    lemma_after_sub(a, self.instructions@, start, v, 2, 1);
                                }
                                self.emit_plain(Instruction::SetAttr { index }, Ghost(start), Ghost(v), Ghost(3));
                            },
                            None => {
                                assert(false);
                            },
                        }
                    },
                    None => {
                        assert(false);
                    },
                }
            },
            _ => {
                assert(false);
            },
        }
    }

    /// Generate a call: the callee, the arguments, then the call.
    fn gen_call(&mut self, expression: &Expression)
        requires
            expression.kind is Call,
            old(self).wf(),
            old(self).ok(*expression),
        ensures
            final(self).wf(),
            final(self).grew(old(self)),
            no_jumps(final(self).seg(old(self).instructions@.len() as int)),
            valued(*expression) ==> stack_safe(final(self).seg(old(self).instructions@.len() as int))
                && net(final(self).seg(old(self).instructions@.len() as int)) == value_count(*expression),
            final(self).instructions@.len() > old(self).instructions@.len(),
            expression.kind matches ExpressionKind::Call { callee, arguments } ==> (final(self).instructions@.last() matches Instruction::Call {
                n_args,
                typ,
            } && n_args == arguments@.len() && match callee.typ {
                SlangType::User(UserType::Function(sig)) => match sig.return_type {
                    Some(t) => typ matches Some(bt) && typ_shape(old(self).type_ids, t, bt),
                    None => typ is None,
                },
                _ => true,
            }),
            expr_code(old(self).index_map, *expression, final(self).seg(old(self).instructions@.len() as int)),
        decreases expression, 0int,
    {
        let ghost start = self.instructions@.len() as int;
        let ghost v = valued(*expression);
        proof {
            lemma_seg_start(self.instructions@);
        }
        match &expression.kind {
            ExpressionKind::Call { callee, arguments } => {
                proof {
                    lemma_exprs_ok(self.type_ids.keys(), self.index_map.keys(), self.defs(), arguments@);
                    if v {
                        lemma_all_valued(arguments@);
                    }
                }
                let return_type = match &callee.typ {
                    SlangType::User(UserType::Function(signature)) => match &signature.return_type {
                        Some(t) => Some(self.get_bytecode_typ(t)),
                        None => None,
                    },
                    _ => {
                        assert(false);
                        None
                    },
                };
                let ghost a = self.instructions@;
                self.gen_expression(callee);
                proof {
                    lemma_after_sub(a, self.instructions@, start, v, 0, 1);
                }
                let ghost kc = self.instructions@.len() as int;
                let ghost cc = self.instructions@;
                proof {
                    assert(self.instructions@.subrange(kc, kc) =~= Seq::<Instruction>::empty());
                    assert(arguments@.take(0) =~= Seq::<Expression>::empty());
                }
                let n_args = arguments.len();
                let mut i: usize = 0;
                while i < n_args
                    invariant
                        i <= n_args,
                        n_args == arguments@.len(),
                        self.wf(),
                        self.grew(old(self)),
                        0 <= start <= self.instructions@.len(),
                        start == old(self).instructions@.len(),
                        no_jumps(self.seg(start)),
                        v ==> stack_safe(self.seg(start)) && net(self.seg(start)) == 1 + i,
                        forall|q: int| 0 <= q < arguments@.len() ==> expr_ok(
                            old(self).type_ids.keys(),
                            old(self).index_map.keys(),
                            old(self).defs(),
                            #[trigger] arguments@[q],
                        ),
                        v ==> forall|q: int| 0 <= q < arguments@.len() ==> value_count(
                            #[trigger] arguments@[q],
                        ) == 1 && valued(arguments@[q]),
                        expression.kind == (ExpressionKind::Call { callee: *callee, arguments: *arguments }),
                        start <= kc <= self.instructions@.len(),
                        forall|q: int| 0 <= q < kc ==> #[trigger] self.instructions@[q] == cc[q],
                        cc.len() == kc,
                        expr_code(old(self).index_map, **callee, cc.skip(start)),
                        args_code(old(self).index_map, arguments@.take(i as int), self.instructions@.subrange(kc, self.instructions@.len() as int)),
                    decreases n_args - i,
                {
                    proof {
                        assert(decreases_to!(*expression => expression.kind));
                        assert(decreases_to!(expression.kind => expression.kind->Call_arguments));
                        assert(decreases_to!(*arguments => arguments@));
                        assert(decreases_to!(arguments@ => arguments@[i as int]));
                    }
                    let ghost a = self.instructions@;
                    self.gen_expression(&arguments[i]);
                    proof {
                        lemma_after_sub(a, self.instructions@, start, v, 1 + i, 1);
                        let codes = self.instructions@.subrange(kc, self.instructions@.len() as int);
                        let kk = a.len() - kc;
                        assert(codes.take(kk) =~= a.subrange(kc, a.len() as int));
                        assert(codes.skip(kk) =~= self.instructions@.skip(a.len() as int));
                        assert(arguments@.take(i + 1).drop_last() =~= arguments@.take(i as int));
                        assert(arguments@.take(i + 1).last() == arguments@[i as int]);
                        assert(args_code(old(self).index_map, arguments@.take(i + 1), codes));
                    }
                    i = i + 1;
                }
                let ghost e_before = self.instructions@;
                self.emit_plain(
                    Instruction::Call { n_args, typ: return_type },
                    Ghost(start),
                    Ghost(v),
                    Ghost(1 + n_args),
                );
                proof {
                    let code = self.seg(start);
                    let k = kc - start;
                    assert(code.take(k) =~= cc.skip(start));
                    assert(code.subrange(k, code.len() - 1) =~= e_before.subrange(kc, e_before.len() as int));
                    assert(arguments@.take(n_args as int) =~= arguments@);
                }
            },
            _ => {
                assert(false);
            },
        }
    }

    /// Generate a binary operation: both operands, then the operator.
    fn gen_binop(&mut self, expression: &Expression)
        requires
            expression.kind is Binop,
            old(self).wf(),
            old(self).ok(*expression),
        ensures
            final(self).wf(),
            final(self).grew(old(self)),
            no_jumps(final(self).seg(old(self).instructions@.len() as int)),
            valued(*expression) ==> stack_safe(final(self).seg(old(self).instructions@.len() as int))
                && net(final(self).seg(old(self).instructions@.len() as int)) == value_count(*expression),
            final(self).instructions@.len() > old(self).instructions@.len(),
            expression.kind matches ExpressionKind::Binop { lhs, op, rhs } ==> match op {
                BinaryOperator::Math(m) => final(self).instructions@.last() matches Instruction::Operator { op: o, typ }
                    && o == math_op(m) && typ_shape(old(self).type_ids, lhs.typ, typ),
                BinaryOperator::Comparison(c) => final(self).instructions@.last() matches Instruction::Comparison {
                    op: o,
                    typ,
                } && o == comparison_op(c) && typ_shape(old(self).type_ids, lhs.typ, typ),
                _ => true,
            },
            expr_code(old(self).index_map, *expression, final(self).seg(old(self).instructions@.len() as int)),
        decreases expression, 0int,
    {
        let ghost start = self.instructions@.len() as int;
        let ghost v = valued(*expression);
        proof {
            lemma_seg_start(self.instructions@);
        }
        match &expression.kind {
            ExpressionKind::Binop { lhs, op, rhs } => {
                let typ = self.get_bytecode_typ(&lhs.typ);
                let ghost a = self.instructions@;
                self.gen_expression(lhs);
                proof {
                    lemma_after_sub(a, self.instructions@, start, v, 0, 1);
                }
                let ghost b = self.instructions@;
                self.gen_expression(rhs);
                proof {
                    lemma_after_sub(b, self.instructions@, start, v, 1, 1);
                }
                let ghost c = self.instructions@;
                match op {
                    BinaryOperator::Math(op2) => {
                        let op = match op2 {
                            MathOperator::Add => bytecode::Operator::Add,
                            MathOperator::Sub => bytecode::Operator::Sub,
                            MathOperator::Mul => bytecode::Operator::Mul,
                            MathOperator::Div => bytecode::Operator::Div,
                        };
                        self.emit_plain(Instruction::Operator { op, typ }, Ghost(start), Ghost(v), Ghost(2));
                    },
                    BinaryOperator::Comparison(op2) => {
                        let op = match op2 {
                            ComparisonOperator::Equal => bytecode::Comparison::Equal,
                            ComparisonOperator::NotEqual => bytecode::Comparison::NotEqual,
                            ComparisonOperator::Gt => bytecode::Comparison::Gt,
                            ComparisonOperator::GtEqual => bytecode::Comparison::GtEqual,
                            ComparisonOperator::Lt => bytecode::Comparison::Lt,
                            ComparisonOperator::LtEqual => bytecode::Comparison::LtEqual,
                        };
                        self.emit_plain(Instruction::Comparison { op, typ }, Ghost(start), Ghost(v), Ghost(2));
                    },
                    _ => {
                        assert(false);
                    },
                }
                proof {
                    let code = self.seg(start);
                    let k = b.len() - start;
                    assert(code.take(k) =~= b.skip(start));
                    assert(code.subrange(k, code.len() - 1) =~= c.skip(b.len() as int));
                    assert(code.last() == self.instructions@.last());
                }
            },
            _ => {
                assert(false);
            },
        }
    }

    /// Relative to `before`: code and the type table were appended to; the
    /// relocations added patch instructions appended since and jump to placed
    /// labels or labels that `allowed` admits; labels placed before keep their place; labels placed since are
    /// at least `base` and stand before the end of the code (`strict`) or at
    /// most at its end.
    spec fn flow(&self, before: &Self, allowed: spec_fn(usize) -> bool, strict: bool, base: int) -> bool {
        &&& self.wf()
        &&& self.instructions@.len() >= before.instructions@.len()
        &&& forall|i: int| 0 <= i < before.instructions@.len() ==> #[trigger] self.instructions@[i] == before.instructions@[i]
        &&& self.types@.len() >= before.types@.len()
        &&& forall|i: int| 0 <= i < before.types@.len() ==> #[trigger] self.types@[i] == before.types@[i]
        &&& self.relocations@.len() >= before.relocations@.len()
        &&& forall|i: int| 0 <= i < before.relocations@.len() ==> #[trigger] self.relocations@[i] == before.relocations@[i]
        &&& forall|i: int| before.relocations@.len() <= i < self.relocations@.len() ==> reloc_labels(
            #[trigger] self.relocations@[i],
            self.admitted(allowed),
        ) && reloc_pc(self.relocations@[i]) >= before.instructions@.len()
        &&& forall|l: usize| #[trigger] before.placed(l) ==> self.label_map.lookup(l) == before.label_map.lookup(l)
        &&& forall|l: usize| #[trigger] self.placed(l) && !before.placed(l) ==> base <= l && (if strict {
            self.label_map.lookup(l).unwrap() < self.instructions@.len()
        } else {
            self.label_map.lookup(l).unwrap() <= self.instructions@.len()
        })
        &&& before.id_counter <= self.id_counter
        &&& self.type_ids == before.type_ids
        &&& self.structs == before.structs
        &&& self.index_map == before.index_map
        &&& self.functions == before.functions
    }

    proof fn lemma_flow_trans(
        a: &Self,
        b: &Self,
        c: &Self,
        p1: spec_fn(usize) -> bool,
        s1: bool,
        p2: spec_fn(usize) -> bool,
        s2: bool,
        p3: spec_fn(usize) -> bool,
        s3: bool,
        base1: int,
        base2: int,
        base: int,
    )
        requires
            b.flow(a, p1, s1, base1),
            c.flow(b, p2, s2, base2),
            base <= base1,
            base <= base2,
            forall|l: usize| #[trigger] p1(l) ==> c.placed(l) || p3(l),
            forall|l: usize| #[trigger] p2(l) ==> c.placed(l) || p3(l),
            s3 ==> s2 && (s1 || c.instructions@.len() > b.instructions@.len()),
        ensures
            c.flow(a, p3, s3, base),
    {
        assert forall|i: int| a.relocations@.len() <= i < c.relocations@.len() implies reloc_labels(
            #[trigger] c.relocations@[i],
            c.admitted(p3),
        ) by {
            if i < b.relocations@.len() {
                assert(c.relocations@[i] == b.relocations@[i]);
                let r = b.relocations@[i];
                assert(reloc_labels(r, b.admitted(p1)));
                assert forall|l: usize| b.placed(l) || p1(l) implies c.placed(l) || p3(l) by {
                    if b.placed(l) {
                        assert(c.label_map.lookup(l) == b.label_map.lookup(l));
                    }
                }
                match r {
                    Relocation::JumpSwitch { default, options, .. } => {
                        assert forall|j: int| 0 <= j < options@.len() implies c.placed(#[trigger] options@[j].1) || p3(
                            options@[j].1,
                        ) by {
                            assert(b.placed(options@[j].1) || p1(options@[j].1));
                        }
                    },
                    _ => {},
                }
            } else {
                let r = c.relocations@[i];
                assert(reloc_labels(r, c.admitted(p2)));
                match r {
                    Relocation::JumpSwitch { default, options, .. } => {
                        assert forall|j: int| 0 <= j < options@.len() implies c.placed(#[trigger] options@[j].1) || p3(
                            options@[j].1,
                        ) by {
                            assert(c.placed(options@[j].1) || p2(options@[j].1));
                        }
                    },
                    _ => {},
                }
            }
        }
        assert forall|l: usize| #[trigger] c.placed(l) && !a.placed(l) implies base <= l && (if s3 {
            c.label_map.lookup(l).unwrap() < c.instructions@.len()
        } else {
            c.label_map.lookup(l).unwrap() <= c.instructions@.len()
        }) by {
            if b.placed(l) {
                assert(c.label_map.lookup(l) == b.label_map.lookup(l));
            }
        }
        assert forall|l: usize| #[trigger] a.placed(l) implies c.label_map.lookup(l) == a.label_map.lookup(l) by {
            assert(b.placed(l));
        }
    }

    /// Any step that appends code without placing labels or adding relocations.
    proof fn lemma_flow_code(a: &Self, b: &Self, p: spec_fn(usize) -> bool, base: int)
        requires
            b.wf(),
            b.instructions@.len() >= a.instructions@.len(),
            forall|i: int| 0 <= i < a.instructions@.len() ==> #[trigger] b.instructions@[i] == a.instructions@[i],
            b.types@.len() >= a.types@.len(),
            forall|i: int| 0 <= i < a.types@.len() ==> #[trigger] b.types@[i] == a.types@[i],
            b.relocations == a.relocations,
            b.label_map == a.label_map,
            a.id_counter <= b.id_counter,
            b.type_ids == a.type_ids,
            b.structs == a.structs,
            b.index_map == a.index_map,
            b.functions == a.functions,
        ensures
            b.flow(a, p, true, base),
    {
    }

    /// Placing one label at the end of the code.
    proof fn lemma_flow_label(a: &Self, b: &Self, label: usize, p: spec_fn(usize) -> bool, base: int)
        requires
            b.wf(),
            !a.placed(label),
            base <= label,
            b.label_map.lookup(label) == Some(a.instructions.len() as usize),
            forall|l: usize| l != label ==> b.label_map.lookup(l) == a.label_map.lookup(l),
            b.instructions == a.instructions,
            b.types == a.types,
            b.relocations == a.relocations,
            a.id_counter == b.id_counter,
            b.type_ids == a.type_ids,
            b.structs == a.structs,
            b.index_map == a.index_map,
            b.functions == a.functions,
        ensures
            b.flow(a, p, false, base),
    {
        assert forall|l: usize| #[trigger] a.placed(l) implies b.label_map.lookup(l) == a.label_map.lookup(l) by {
            assert(l != label);
        }
    }

    /// What a flow keeps of labels: those placed stay in place, those below
    /// the base that were not placed stay unplaced.
    proof fn lemma_flow_kept(a: &Self, b: &Self, p: spec_fn(usize) -> bool, s: bool, base: int, l: usize)
        requires
            b.flow(a, p, s, base),
        ensures
            a.placed(l) ==> b.placed(l) && b.label_map.lookup(l) == a.label_map.lookup(l),
            !a.placed(l) && l < base ==> !b.placed(l),
    {
        if a.placed(l) {
            assert(b.label_map.lookup(l) == a.label_map.lookup(l));
        }
    }

    /// A flow that admits the labels of `p` also admits those of a weaker `q`.
    proof fn lemma_flow_weaken(a: &Self, b: &Self, p: spec_fn(usize) -> bool, q: spec_fn(usize) -> bool, s: bool, base: int)
        requires
            b.flow(a, p, s, base),
            forall|l: usize| #[trigger] p(l) ==> b.placed(l) || q(l),
        ensures
            b.flow(a, q, s, base),
    {
        Self::lemma_flow_code(b, b, |l: usize| false, base);
        Self::lemma_flow_trans(a, b, b, p, s, |l: usize| false, true, q, s, base, base, base);
    }

    /// A jump to a label that `p` admits.
    proof fn lemma_flow_jump(a: &Self, b: &Self, label: usize, p: spec_fn(usize) -> bool, base: int)
        requires
            b.wf(),
            p(label),
            b.instructions@.len() == a.instructions@.len() + 1,
            b.instructions@.take(a.instructions@.len() as int) == a.instructions@,
            b.relocations@.len() >= a.relocations@.len(),
            b.relocations@.take(a.relocations@.len() as int) == a.relocations@,
            forall|i: int| a.relocations@.len() <= i < b.relocations@.len() ==> reloc_labels(
                #[trigger] b.relocations@[i],
                |l: usize| l == label,
            ) && reloc_pc(b.relocations@[i]) >= a.instructions@.len(),
            b.id_counter == a.id_counter,
            b.label_map == a.label_map,
            b.types == a.types,
            b.type_ids == a.type_ids,
            b.structs == a.structs,
            b.index_map == a.index_map,
            b.functions == a.functions,
        ensures
            b.flow(a, p, true, base),
    {
        assert forall|i: int| 0 <= i < a.instructions@.len() implies #[trigger] b.instructions@[i] == a.instructions@[i] by {
            assert(b.instructions@.take(a.instructions@.len() as int)[i] == b.instructions@[i]);
        }
        assert forall|i: int| 0 <= i < a.relocations@.len() implies #[trigger] b.relocations@[i] == a.relocations@[i] by {
            assert(b.relocations@.take(a.relocations@.len() as int)[i] == b.relocations@[i]);
        }
        assert forall|i: int| a.relocations@.len() <= i < b.relocations@.len() implies reloc_labels(
            #[trigger] b.relocations@[i],
            b.admitted(p),
        ) && reloc_pc(b.relocations@[i]) >= a.instructions@.len() by {
            assert(reloc_labels(b.relocations@[i], |l: usize| l == label));
        }
    }

    /// Extending a flow by a step whose labels the flow admits.
    proof fn lemma_flow_extend(a: &Self, b: &Self, c: &Self, p: spec_fn(usize) -> bool, q: spec_fn(usize) -> bool, s2: bool, base2: int, base: int)
        requires
            b.flow(a, p, false, base),
            c.flow(b, q, s2, base2),
            base <= base2,
            forall|l: usize| #[trigger] q(l) ==> c.placed(l) || p(l),
        ensures
            c.flow(a, p, false, base),
    {
        Self::lemma_flow_trans(a, b, c, p, false, q, s2, p, false, base, base2, base);
    }

    /// Ending a flow with a step that appends code: labels placed since are
    /// then inside the code; all that `p` admits is placed or admitted by `q`.
    proof fn lemma_flow_finish(a: &Self, b: &Self, c: &Self, p: spec_fn(usize) -> bool, q: spec_fn(usize) -> bool, base: int)
        requires
            b.flow(a, p, false, base),
            c.flow(b, nothing(), true, base),
            c.instructions@.len() > b.instructions@.len(),
            forall|l: usize| #[trigger] p(l) ==> c.placed(l) || q(l),
        ensures
            c.flow(a, q, true, base),
    {
        Self::lemma_flow_trans(a, b, c, p, false, nothing(), true, q, true, base, base, base);
    }

    /// A conditional jump at instruction `q` goes to label `t` or label `f`.
    spec fn branch(&self, q: int, t: usize, f: usize) -> bool {
        exists|r: int|
            0 <= r < self.relocations@.len() && #[trigger] self.relocations@[r] == (Relocation::JumpIf {
                pc: q as usize,
                true_label: t,
                false_label: f,
            })
    }

    /// From instruction `pc` control runs straight to instruction `q`: no
    /// jump and no jump to be patched stands in between.
    spec fn straight(&self, pc: int, q: int) -> bool {
        &&& 0 <= pc <= q < self.instructions@.len()
        &&& forall|k: int| pc <= k < q ==> jump_in_range(#[trigger] self.instructions@[k], 0)
        &&& forall|r: int| 0 <= r < self.relocations@.len() ==> !(pc <= reloc_pc(#[trigger] self.relocations@[r]) < q)
    }

    /// Run from instruction `pc`, where each conditional jump at an
    /// instruction `q` finds `pv(q)`, control comes to instruction `dest`
    /// within `fuel` conditional jumps.
    spec fn reaches(&self, pc: int, pv: spec_fn(int) -> bool, dest: int, fuel: nat) -> bool
        decreases fuel,
    {
        pc == dest || (fuel > 0 && exists|q: int, t: usize, f: usize|
            #[trigger] self.branch(q, t, f) && self.straight(pc, q) && self.reaches(
                self.pos(if pv(q) { t } else { f }),
                pv,
                dest,
                (fuel - 1) as nat,
            ))
    }

    /// The code of condition `e` starts at instruction `start` and leaves
    /// for label `t` or label `f`; `leaves` are the instructions of the
    /// conditional jumps of its leaf tests, from left to right. The left side
    /// of `and` goes on to the right side when it holds and leaves for `f`
    /// when not; that of `or` leaves for `t` when it holds and goes on to the
    /// right side when not.
    spec fn cond_code(&self, e: Expression, start: int, t: usize, f: usize, leaves: Seq<int>) -> bool
        decreases e,
    {
        match e.kind {
            ExpressionKind::Binop { lhs, op: BinaryOperator::Logic(o), rhs } => {
                let nl = leaf_count(*lhs) as int;
                &&& leaves.len() == leaf_count(e)
                &&& exists|m: usize|
                    #[trigger] self.placed(m) && match o {
                        LogicOperator::And => self.cond_code(*lhs, start, m, f, leaves.take(nl)),
                        LogicOperator::Or => self.cond_code(*lhs, start, t, m, leaves.take(nl)),
                    } && self.cond_code(*rhs, self.pos(m), t, f, leaves.skip(nl))
            },
            _ => leaves.len() == 1 && self.straight(start, leaves[0]) && self.branch(leaves[0], t, f),
        }
    }

    proof fn lemma_cond_code_len(&self, e: Expression, start: int, t: usize, f: usize, leaves: Seq<int>)
        requires
            self.cond_code(e, start, t, f, leaves),
        ensures
            leaves.len() == leaf_count(e),
    {
    }

    proof fn lemma_reaches_mono(&self, pc: int, pv: spec_fn(int) -> bool, dest: int, f1: nat, f2: nat)
        requires
            self.reaches(pc, pv, dest, f1),
            f1 <= f2,
        ensures
            self.reaches(pc, pv, dest, f2),
        decreases f1,
    {
        if pc != dest {
            let (q, t, f) = choose|q: int, t: usize, f: usize|
                #[trigger] self.branch(q, t, f) && self.straight(pc, q) && self.reaches(
                    self.pos(if pv(q) { t } else { f }),
                    pv,
                    dest,
                    (f1 - 1) as nat,
                );
            self.lemma_reaches_mono(self.pos(if pv(q) { t } else { f }), pv, dest, (f1 - 1) as nat, (f2 - 1) as nat);
        }
    }

    proof fn lemma_reaches_trans(&self, a: int, b: int, c: int, pv: spec_fn(int) -> bool, f1: nat, f2: nat)
        requires
            self.reaches(a, pv, b, f1),
            self.reaches(b, pv, c, f2),
        ensures
            self.reaches(a, pv, c, f1 + f2),
        decreases f1,
    {
        if a == b {
            self.lemma_reaches_mono(b, pv, c, f2, f1 + f2);
        } else {
            let (q, t, f) = choose|q: int, t: usize, f: usize|
                #[trigger] self.branch(q, t, f) && self.straight(a, q) && self.reaches(
                    self.pos(if pv(q) { t } else { f }),
                    pv,
                    b,
                    (f1 - 1) as nat,
                );
            let next = self.pos(if pv(q) { t } else { f });
            self.lemma_reaches_trans(next, b, c, pv, (f1 - 1) as nat, f2);
            assert((f1 + f2 - 1) as nat == (f1 - 1) as nat + f2);
            assert(self.branch(q, t, f) && self.straight(a, q) && self.reaches(next, pv, c, (f1 + f2 - 1) as nat));
        }
    }

    /// The code of a condition leaves for its true label exactly when the
    /// condition holds: whatever each conditional jump of a leaf test finds
    /// (`pv`), control run from the start of the code comes to the true label
    /// if the condition, on what its leaf tests found, is true, and to the
    /// false label if it is false. So `l and r` leaves for the false label as
    /// soon as `l` fails, and `l or r` for the true label as soon as `l` holds.
    proof fn lemma_cond_code_sound(
        &self,
        e: Expression,
        start: int,
        t: usize,
        f: usize,
        leaves: Seq<int>,
        pv: spec_fn(int) -> bool,
    ) -> (fuel: nat)
        requires
            self.cond_code(e, start, t, f, leaves),
        ensures
            self.reaches(start, pv, self.pos(if cond_value(e, leaves.map_values(pv)) { t } else { f }), fuel),
        decreases e,
    {
        let vals = leaves.map_values(pv);
        match e.kind {
            ExpressionKind::Binop { lhs, op: BinaryOperator::Logic(o), rhs } => {
                let nl = leaf_count(*lhs) as int;
                let m = choose|m: usize|
                    #[trigger] self.placed(m) && match o {
                        LogicOperator::And => self.cond_code(*lhs, start, m, f, leaves.take(nl)),
                        LogicOperator::Or => self.cond_code(*lhs, start, t, m, leaves.take(nl)),
                    } && self.cond_code(*rhs, self.pos(m), t, f, leaves.skip(nl));
                assert(leaves.take(nl).map_values(pv) =~= vals.take(nl));
                assert(leaves.skip(nl).map_values(pv) =~= vals.skip(nl));
                let v1 = cond_value(*lhs, vals.take(nl));
                let v2 = cond_value(*rhs, vals.skip(nl));
                let f2 = self.lemma_cond_code_sound(*rhs, self.pos(m), t, f, leaves.skip(nl), pv);
                match o {
                    LogicOperator::And => {
                        let f1 = self.lemma_cond_code_sound(*lhs, start, m, f, leaves.take(nl), pv);
                        if v1 {
                            self.lemma_reaches_trans(start, self.pos(m), self.pos(if v2 { t } else { f }), pv, f1, f2);
                            f1 + f2
                        } else {
                            f1
                        }
                    },
                    LogicOperator::Or => {
                        let f1 = self.lemma_cond_code_sound(*lhs, start, t, m, leaves.take(nl), pv);
                        if v1 {
                            f1
                        } else {
                            self.lemma_reaches_trans(start, self.pos(m), self.pos(if v2 { t } else { f }), pv, f1, f2);
                            f1 + f2
                        }
                    },
                }
            },
            _ => {
                let q = leaves[0];
                let dest = self.pos(if pv(q) { t } else { f });
                assert(self.reaches(dest, pv, dest, 0));
                assert(self.branch(q, t, f) && self.straight(start, q) && self.reaches(dest, pv, dest, 0));
                1
            },
        }
    }

    /// The code of condition `cond` starts at instruction `start` and leaves
    /// for `t` when it holds and for `f` when not; label `t` is placed after
    /// all of its conditional jumps.
    spec fn if_cond(&self, cond: Expression, start: int, t: usize, f: usize) -> bool {
        &&& self.placed(t)
        &&& exists|leaves: Seq<int>|
            #[trigger] self.cond_code(cond, start, t, f, leaves) && forall|i: int|
                0 <= i < leaves.len() ==> #[trigger] leaves[i] < self.pos(t)
    }

    /// An `if` laid out at `start`: the code of the condition, which leaves
    /// for `t` when it holds and for `f` when not; at `t` the code of the
    /// then-branch, which ends in a jump to `end`; with an else-branch, at `f`
    /// its code, which ends in a jump to `end` too, and without one `f` is `end`.
    spec fn if_layout(&self, cond: Expression, start: int, t: usize, f: usize, end: usize, has_else: bool) -> bool {
        &&& self.if_cond(cond, start, t, f)
        &&& self.placed(f)
        &&& self.placed(end)
        &&& self.jump_at(self.pos(end) - 1, end)
        &&& if has_else {
            &&& self.pos(t) < self.pos(f)
            &&& self.jump_at(self.pos(f) - 1, end)
            &&& self.pos(f) < self.pos(end)
        } else {
            &&& f == end
            &&& self.pos(t) < self.pos(end)
        }
    }

    /// An `if` whose condition and branches are laid out (`s8`) is closed
    /// by a jump to its end (`s9`) and the end label placed after it (`s10`).
    proof fn lemma_if_close(
        s8: &Self,
        s9: &Self,
        s10: &Self,
        s11: &Self,
        p: spec_fn(usize) -> bool,
        base: int,
        cond: Expression,
        start: int,
        t: usize,
        f: usize,
        end: usize,
        has_else: bool,
    )
        requires
            s8.wf(),
            s9.flow(s8, p, true, base),
            s10.flow(s9, nothing(), false, base),
            s11.flow(s10, nothing(), true, base),
            s8.if_cond(cond, start, t, f),
            !s8.placed(end),
            s9.relocations@ == s8.relocations@.push(Relocation::Jump { pc: s8.instructions.len() as usize, label: end }),
            s9.instructions@.len() == s8.instructions@.len() + 1,
            s10.label_map.lookup(end) == Some(s9.instructions.len() as usize),
            s11.label_map == s10.label_map,
            has_else ==> s8.placed(f) && s8.pos(t) < s8.pos(f) && s8.jump_at(s8.pos(f) - 1, end),
            !has_else ==> f == end,
        ensures
            s11.if_layout(cond, start, t, f, end, has_else),
    {
        Self::lemma_if_cond_kept(s8, s9, p, true, base, cond, start, t, f);
        Self::lemma_if_cond_kept(s9, s10, nothing(), false, base, cond, start, t, f);
        Self::lemma_if_cond_kept(s10, s11, nothing(), true, base, cond, start, t, f);
        assert(s9.relocations@[s8.relocations@.len() as int] == Relocation::Jump {
            pc: s8.instructions.len() as usize,
            label: end,
        });
        assert(s9.jump_at(s8.instructions@.len() as int, end));
        Self::lemma_jump_at_kept(s9, s10, nothing(), false, base, s8.instructions@.len() as int, end);
        Self::lemma_jump_at_kept(s10, s11, nothing(), true, base, s8.instructions@.len() as int, end);
        assert(s8.label_map.lookup(t).unwrap() <= s8.instructions.len());
        if has_else {
            Self::lemma_jump_at_kept(s8, s9, p, true, base, s8.pos(f) - 1, end);
            Self::lemma_jump_at_kept(s9, s10, nothing(), false, base, s8.pos(f) - 1, end);
            Self::lemma_jump_at_kept(s10, s11, nothing(), true, base, s8.pos(f) - 1, end);
            assert(s8.label_map.lookup(f).unwrap() <= s8.instructions.len());
            assert(s9.label_map.lookup(f) == s8.label_map.lookup(f));
            assert(s9.placed(f));
            assert(s10.label_map.lookup(f) == s9.label_map.lookup(f));
        }
        assert(s9.label_map.lookup(t) == s8.label_map.lookup(t));
        assert(s9.placed(t));
        assert(s10.label_map.lookup(t) == s9.label_map.lookup(t));
        assert(s11.pos(end) == s8.instructions@.len() + 1);
    }

    /// A `while` laid out at `entry`: a jump to label `head`, placed just
    /// after it, where the code of the condition stands, which leaves for `t`
    /// when it holds and for `end` when not; at `t` the code of the body, which
    /// ends in a jump back to `head`, just before `end`.
    spec fn while_layout(&self, cond: Expression, entry: int, head: usize, t: usize, end: usize) -> bool {
        &&& self.jump_at(entry, head)
        &&& self.placed(head)
        &&& self.pos(head) == entry + 1
        &&& self.if_cond(cond, self.pos(head), t, end)
        &&& self.placed(end)
        &&& self.pos(t) < self.pos(end)
        &&& self.instructions@[self.pos(end) - 1] == Instruction::Jump(self.pos(head) as usize)
    }

    /// Relative to `before`, one instruction was appended: a jump to `label`,
    /// direct if the label was placed and else to be patched.
    spec fn jumps_to(&self, before: &Self, label: usize) -> bool {
        &&& self.instructions@.len() == before.instructions@.len() + 1
        &&& if before.placed(label) {
            self.instructions@.last() == Instruction::Jump(before.pos(label) as usize)
        } else {
            self.jump_at(before.instructions@.len() as int, label)
        }
    }

    /// An endless loop laid out at `entry`: a jump to label `head`, placed
    /// just after it, where the code of the body stands, which ends in a jump
    /// back to `head`, just before `end`.
    spec fn loop_layout(&self, entry: int, head: usize, end: usize) -> bool {
        &&& self.jump_at(entry, head)
        &&& self.placed(head)
        &&& self.pos(head) == entry + 1
        &&& self.placed(end)
        &&& self.pos(head) < self.pos(end)
        &&& self.instructions@[self.pos(end) - 1] == Instruction::Jump(self.pos(head) as usize)
    }

    /// The conditional jumps of the code of a condition stand inside the code.
    proof fn lemma_cond_leaves_below(&self, e: Expression, start: int, t: usize, f: usize, leaves: Seq<int>)
        requires
            self.cond_code(e, start, t, f, leaves),
        ensures
            forall|i: int| 0 <= i < leaves.len() ==> #[trigger] leaves[i] < self.instructions@.len(),
        decreases e,
    {
        match e.kind {
            ExpressionKind::Binop { lhs, op: BinaryOperator::Logic(o), rhs } => {
                let nl = leaf_count(*lhs) as int;
                let m = choose|m: usize|
                    #[trigger] self.placed(m) && match o {
                        LogicOperator::And => self.cond_code(*lhs, start, m, f, leaves.take(nl)),
                        LogicOperator::Or => self.cond_code(*lhs, start, t, m, leaves.take(nl)),
                    } && self.cond_code(*rhs, self.pos(m), t, f, leaves.skip(nl));
                match o {
                    LogicOperator::And => self.lemma_cond_leaves_below(*lhs, start, m, f, leaves.take(nl)),
                    LogicOperator::Or => self.lemma_cond_leaves_below(*lhs, start, t, m, leaves.take(nl)),
                }
                self.lemma_cond_leaves_below(*rhs, self.pos(m), t, f, leaves.skip(nl));
                self.lemma_cond_code_len(*lhs, start, if o is And { m } else { t }, if o is And { f } else { m }, leaves.take(nl));
                assert forall|i: int| 0 <= i < leaves.len() implies #[trigger] leaves[i] < self.instructions@.len() by {
                    if i < nl {
                        assert(leaves.take(nl)[i] == leaves[i]);
                    } else {
                        assert(leaves.skip(nl)[i - nl] == leaves[i]);
                    }
                }
            },
            _ => {},
        }
    }

    proof fn lemma_if_cond_kept(a: &Self, b: &Self, p: spec_fn(usize) -> bool, s: bool, base: int, cond: Expression, start: int, t: usize, f: usize)
        requires
            b.flow(a, p, s, base),
            a.if_cond(cond, start, t, f),
        ensures
            b.if_cond(cond, start, t, f),
    {
        let ll = choose|leaves: Seq<int>|
            #[trigger] a.cond_code(cond, start, t, f, leaves) && forall|i: int|
                0 <= i < leaves.len() ==> #[trigger] leaves[i] < a.pos(t);
        Self::lemma_cond_code_kept(a, b, cond, start, t, f, ll);
        assert(b.label_map.lookup(t) == a.label_map.lookup(t));
        assert(b.cond_code(cond, start, t, f, ll));
    }

    proof fn lemma_jump_at_kept(a: &Self, b: &Self, p: spec_fn(usize) -> bool, s: bool, base: int, pc: int, l: usize)
        requires
            b.flow(a, p, s, base),
            a.jump_at(pc, l),
        ensures
            b.jump_at(pc, l),
    {
        let r = choose|r: int|
            0 <= r < a.relocations@.len() && #[trigger] a.relocations@[r] == Relocation::Jump { pc: pc as usize, label: l };
        assert(b.relocations@[r] == a.relocations@[r]);
    }

    /// Code laid out for a condition stays so as code, jumps and labels are added after it.
    proof fn lemma_cond_code_kept(a: &Self, b: &Self, e: Expression, start: int, t: usize, f: usize, leaves: Seq<int>)
        requires
            a.cond_code(e, start, t, f, leaves),
            b.instructions@.len() >= a.instructions@.len(),
            forall|i: int| 0 <= i < a.instructions@.len() ==> #[trigger] b.instructions@[i] == a.instructions@[i],
            b.relocations@.len() >= a.relocations@.len(),
            forall|i: int| 0 <= i < a.relocations@.len() ==> #[trigger] b.relocations@[i] == a.relocations@[i],
            forall|i: int|
                a.relocations@.len() <= i < b.relocations@.len() ==> reloc_pc(#[trigger] b.relocations@[i])
                    >= a.instructions@.len(),
            forall|l: usize| #[trigger] a.placed(l) ==> b.label_map.lookup(l) == a.label_map.lookup(l),
        ensures
            b.cond_code(e, start, t, f, leaves),
        decreases e,
    {
        match e.kind {
            ExpressionKind::Binop { lhs, op: BinaryOperator::Logic(o), rhs } => {
                let nl = leaf_count(*lhs) as int;
                let m = choose|m: usize|
                    #[trigger] a.placed(m) && match o {
                        LogicOperator::And => a.cond_code(*lhs, start, m, f, leaves.take(nl)),
                        LogicOperator::Or => a.cond_code(*lhs, start, t, m, leaves.take(nl)),
                    } && a.cond_code(*rhs, a.pos(m), t, f, leaves.skip(nl));
                match o {
                    LogicOperator::And => Self::lemma_cond_code_kept(a, b, *lhs, start, m, f, leaves.take(nl)),
                    LogicOperator::Or => Self::lemma_cond_code_kept(a, b, *lhs, start, t, m, leaves.take(nl)),
                }
                Self::lemma_cond_code_kept(a, b, *rhs, a.pos(m), t, f, leaves.skip(nl));
                assert(b.placed(m) && b.pos(m) == a.pos(m));
            },
            _ => {
                let q = leaves[0];
                let r = choose|r: int|
                    0 <= r < a.relocations@.len() && #[trigger] a.relocations@[r] == (Relocation::JumpIf {
                        pc: q as usize,
                        true_label: t,
                        false_label: f,
                    });
                assert(b.relocations@[r] == a.relocations@[r]);
                assert forall|k: int| start <= k < q implies jump_in_range(#[trigger] b.instructions@[k], 0) by {
                    assert(b.instructions@[k] == a.instructions@[k]);
                }
                assert forall|i: int| 0 <= i < b.relocations@.len() implies !(start <= reloc_pc(
                    #[trigger] b.relocations@[i],
                ) < q) by {
                    if i < a.relocations@.len() {
                        assert(b.relocations@[i] == a.relocations@[i]);
                    }
                }
            },
        }
    }

    /// Generate code that jumps to `true_label` where the condition holds and
    /// to `false_label` where it does not; `and` and `or` short-circuit.
    fn gen_condition(&mut self, expression: &Expression, true_label: usize, false_label: usize)
        requires
            old(self).wf(),
            cond_ok(old(self).type_ids.keys(), old(self).index_map.keys(), old(self).defs(), *expression),
            old(self).id_counter + cond_labels(*expression) <= usize::MAX,
        ensures
            final(self).flow(old(self), either(true_label, false_label), true, old(self).id_counter as int),
            final(self).instructions@.len() > old(self).instructions@.len(),
            final(self).loop_stack == old(self).loop_stack,
            final(self).id_counter == old(self).id_counter + cond_labels(*expression),
            exists|leaves: Seq<int>|
                #[trigger] final(self).cond_code(
                    *expression,
                    old(self).instructions@.len() as int,
                    true_label,
                    false_label,
                    leaves,
                ),
        decreases expression,
    {
        let ghost s0 = *self;
        let ghost base = self.id_counter as int;
        match &expression.kind {
            ExpressionKind::Binop { lhs, op: BinaryOperator::Logic(op2), rhs } => {
                let middle_label = self.new_label();
                let ghost s1 = *self;
                let ghost p2 = one_of(true_label, false_label, middle_label);
                proof {
                    Self::lemma_flow_code(&s0, &s1, nothing(), base);
                }
                match op2 {
                    LogicOperator::And => {
                        self.gen_condition(lhs, middle_label, false_label);
                        proof {
                            let ghost s = *self;
                            Self::lemma_flow_weaken(&s1, &s, either(middle_label, false_label), p2, true, s1.id_counter as int);
                        }
                    },
                    LogicOperator::Or => {
                        self.gen_condition(lhs, true_label, middle_label);
                        proof {
                            let ghost s = *self;
                            Self::lemma_flow_weaken(&s1, &s, either(true_label, middle_label), p2, true, s1.id_counter as int);
                        }
                    },
                }
                let ghost s2 = *self;
                proof {
                    Self::lemma_flow_kept(&s1, &s2, p2, true, s1.id_counter as int, middle_label);
                }
                self.set_label(middle_label);
                let ghost s3 = *self;
                proof {
                    Self::lemma_flow_label(&s2, &s3, middle_label, nothing(), base);
                }
                self.gen_condition(rhs, true_label, false_label);
                proof {
                    let ghost s4 = *self;
                    let ghost goal = either(true_label, false_label);
                    Self::lemma_flow_kept(&s3, &s4, goal, true, s3.id_counter as int, middle_label);
                    Self::lemma_flow_trans(&s0, &s1, &s2, nothing(), true, p2, true, p2, true, base, s1.id_counter as int, base);
                    Self::lemma_flow_trans(&s0, &s2, &s3, p2, true, nothing(), false, p2, false, base, base, base);
                    Self::lemma_flow_trans(&s0, &s3, &s4, p2, false, goal, true, goal, true, base, s3.id_counter as int, base);
                    // The layout of the code: the left side, the middle label, the right side.
                    let ghost start = s0.instructions@.len() as int;
                    let ghost (lt, lf) = match op2 {
                        LogicOperator::And => (middle_label, false_label),
                        LogicOperator::Or => (true_label, middle_label),
                    };
                    let ghost ll = choose|leaves: Seq<int>| #[trigger] s2.cond_code(**lhs, start, lt, lf, leaves);
                    let ghost rl = choose|leaves: Seq<int>|
                        #[trigger] s4.cond_code(**rhs, s3.instructions@.len() as int, true_label, false_label, leaves);
                    assert forall|l: usize| #[trigger] s2.placed(l) implies s4.label_map.lookup(l) == s2.label_map.lookup(l) by {
                        assert(s3.label_map.lookup(l) == s2.label_map.lookup(l));
                        assert(s3.placed(l));
                    }
                    assert forall|i: int| 0 <= i < s2.instructions@.len() implies #[trigger] s4.instructions@[i]
                        == s2.instructions@[i] by {
                        assert(s3.instructions@[i] == s2.instructions@[i]);
                    }
                    assert forall|i: int| 0 <= i < s2.relocations@.len() implies #[trigger] s4.relocations@[i]
                        == s2.relocations@[i] by {
                        assert(s3.relocations@[i] == s2.relocations@[i]);
                    }
                    Self::lemma_cond_code_kept(&s2, &s4, **lhs, start, lt, lf, ll);
                    s2.lemma_cond_code_len(**lhs, start, lt, lf, ll);
                    let ghost nl = leaf_count(**lhs) as int;
                    assert((ll + rl).take(nl) =~= ll);
                    assert((ll + rl).skip(nl) =~= rl);
                    s4.lemma_cond_code_len(**rhs, s3.instructions@.len() as int, true_label, false_label, rl);
                    assert(s4.placed(middle_label) && s4.pos(middle_label) == s3.instructions@.len());
                    assert(s4.cond_code(*expression, start, true_label, false_label, ll + rl));
                }
            },
            _ => {
                self.gen_expression(expression);
                let ghost s1 = *self;
                proof {
                    Self::lemma_flow_code(&s0, &s1, nothing(), base);
                }
                self.jump_if(true_label, false_label);
                proof {
                    let ghost s2 = *self;
                    let ghost goal = either(true_label, false_label);
                    assert(s2.flow(&s1, goal, true, base));
                    Self::lemma_flow_trans(&s0, &s1, &s2, nothing(), true, goal, true, goal, true, base, base, base);
                    // A leaf test: its code runs straight to the conditional jump.
                    let ghost start = s0.instructions@.len() as int;
                    let ghost q = s1.instructions@.len() as int;
                    assert forall|k: int| start <= k < q implies jump_in_range(#[trigger] s2.instructions@[k], 0) by {
                        assert(s1.seg(start)[k - start] == s1.instructions@[k]);
                    }
                    assert forall|r: int| 0 <= r < s2.relocations@.len() implies !(start <= reloc_pc(
                        #[trigger] s2.relocations@[r],
                    ) < q) by {
                        if r < s1.relocations@.len() {
                            assert(s2.relocations@[r] == s0.relocations@[r]);
                        }
                    }
                    assert(s2.relocations@[s1.relocations@.len() as int] == (Relocation::JumpIf {
                        pc: q as usize,
                        true_label,
                        false_label,
                    }));
                    assert(s2.branch(q, true_label, false_label));
                    assert(s2.cond_code(*expression, start, true_label, false_label, seq![q]));
                }
            },
        }
    }

    /// Every struct or union id in the table map refers to an entry of the table.
    spec fn ids_ok(&self) -> bool {
        forall|id: usize| #[trigger] self.type_ids.lookup(id) is Some ==> self.type_ids.lookup(id).unwrap() < self.types@.len()
    }

    /// Generate a program: first a table entry for each struct and union,
    /// then their field types, then the code of each function.
    fn gen_prog(&mut self, prog: &'a tast::Program)
        requires
            old(self).idle(),
            old(self).ids_ok(),
            defs_ok(
                old(self).type_ids.keys().union(struct_ids(struct_defs(prog.definitions@))),
                old(self).defs() + struct_defs(prog.definitions@),
                prog.definitions@,
            ),
            old(self).id_counter + defs_labels(prog.definitions@) <= usize::MAX,
        ensures
            final(self).idle(),
            final(self).ids_ok(),
            final(self).type_ids.keys() == old(self).type_ids.keys().union(struct_ids(struct_defs(prog.definitions@))),
            final(self).defs() == old(self).defs() + struct_defs(prog.definitions@),
            final(self).id_counter == old(self).id_counter + defs_labels(prog.definitions@),
            final(self).functions@.len() == old(self).functions@.len() + fn_defs(prog.definitions@).len(),
            forall|i: int| 0 <= i < old(self).functions@.len() ==> #[trigger] final(self).functions@[i] == old(self).functions@[i],
            forall|q: int| 0 <= q < fn_defs(prog.definitions@).len() ==> compiled(
                final(self).type_ids,
                #[trigger] fn_defs(prog.definitions@)[q],
                final(self).functions@[old(self).functions@.len() + q],
            ),
    {
        let defs = &prog.definitions;
        let ghost d = defs@;
        let ghost keys0 = self.type_ids.keys();
        let ghost defs0 = self.defs();
        proof {
            assert(d.take(0) =~= Seq::<tast::Definition>::empty());
            assert(keys0.union(struct_ids(Seq::<tast::StructDef>::empty())) =~= keys0);
            assert(defs0 + Seq::<tast::StructDef>::empty() =~= defs0);
        }
        // Register each struct and union with a placeholder entry.
        let mut i: usize = 0;
        while i < defs.len()
            invariant
                i <= d.len(),
                d == prog.definitions@,
                defs == &prog.definitions,
                self.idle(),
                self.ids_ok(),
                self.type_ids.keys() == keys0.union(struct_ids(struct_defs(d.take(i as int)))),
                self.defs() == defs0 + struct_defs(d.take(i as int)),
                self.id_counter == old(self).id_counter,
                self.functions == old(self).functions,
                forall|q: int| 0 <= q < i ==> match #[trigger] d[q] {
                    tast::Definition::Struct(sd) | tast::Definition::Union(sd) => self.type_ids.lookup(sd.name.id) is Some,
                    _ => true,
                },
            decreases d.len() - i,
        {
            proof {
                lemma_defs_step(d, i as int);
            }
            let ghost before = *self;
            match &defs[i] {
                tast::Definition::Struct(sd) | tast::Definition::Union(sd) => {
                    let idx = self.types.len();
                    self.type_ids.insert(sd.name.id, idx);
                    self.types.push(TypeDef::invalid());
                    self.structs.push(sd);
                    proof {
                        lemma_struct_ids_push(struct_defs(d.take(i as int)), *sd);
                        assert(self.defs() =~= before.defs().push(*sd));
                        assert(self.type_ids.keys() =~= before.type_ids.keys().insert(sd.name.id));
                        assert(self.type_ids.keys() =~= keys0.union(struct_ids(struct_defs(d.take(i + 1)))));
                    }
                },
                _ => {},
            }
            i = i + 1;
        }
        proof {
            assert(d.take(d.len() as int) =~= d);
        }
        let ghost keys1 = self.type_ids.keys();
        let ghost defs1 = self.defs();
        let ghost ids1 = self.type_ids;
        // Fill in the entries with the compiled field types.
        let mut i: usize = 0;
        while i < defs.len()
            invariant
                i <= d.len(),
                d == prog.definitions@,
                defs == &prog.definitions,
                self.idle(),
                self.ids_ok(),
                self.type_ids == ids1,
                self.type_ids.keys() == keys1,
                self.defs() == defs1,
                self.id_counter == old(self).id_counter,
                self.functions == old(self).functions,
                defs_ok(keys1, defs1, d),
                forall|q: int| 0 <= q < d.len() ==> match #[trigger] d[q] {
                    tast::Definition::Struct(sd) | tast::Definition::Union(sd) => ids1.lookup(sd.name.id) is Some,
                    _ => true,
                },
            decreases d.len() - i,
        {
            let ghost di = d[i as int];
            assert(def_ok(keys1, defs1, di));
            match &defs[i] {
                tast::Definition::Struct(sd) => {
                    assert(di == tast::Definition::Struct(*sd));
                    assert(fields_ok(keys1, *sd));
                    let mut fields: Vec<Typ> = Vec::new();
                    let mut j: usize = 0;
                    while j < sd.fields.len()
                        invariant
                            j <= sd.fields@.len(),
                            self.idle(),
                            self.ids_ok(),
                            self.type_ids == ids1,
                            self.type_ids.keys() == keys1,
                            self.defs() == defs1,
                            self.id_counter == old(self).id_counter,
                            self.functions == old(self).functions,
                            forall|q: int| 0 <= q < sd.fields@.len() ==> typ_ok(keys1, #[trigger] sd.fields@[q].typ),
                        decreases sd.fields@.len() - j,
                    {
                        let t = self.get_bytecode_typ(&sd.fields[j].typ);
                        fields.push(t);
                        j = j + 1;
                    }
                    let name = sd.name.name.clone();
                    match self.type_ids.get(sd.name.id) {
                        Some(idx) => {
                            self.types.set(idx, TypeDef::Struct(bytecode::StructDef { name: Some(name), fields }));
                        },
                        None => {
                            assert(false);
                        },
                    }
                },
                tast::Definition::Union(sd) => {
                    assert(di == tast::Definition::Union(*sd));
                    assert(fields_ok(keys1, *sd));
                    let mut choices: Vec<Typ> = Vec::new();
                    let mut j: usize = 0;
                    while j < sd.fields.len()
                        invariant
                            j <= sd.fields@.len(),
                            self.idle(),
                            self.ids_ok(),
                            self.type_ids == ids1,
                            self.type_ids.keys() == keys1,
                            self.defs() == defs1,
                            self.id_counter == old(self).id_counter,
                            self.functions == old(self).functions,
                            forall|q: int| 0 <= q < sd.fields@.len() ==> typ_ok(keys1, #[trigger] sd.fields@[q].typ),
                        decreases sd.fields@.len() - j,
                    {
                        let t = self.get_bytecode_typ(&sd.fields[j].typ);
                        choices.push(t);
                        j = j + 1;
                    }
                    let name = sd.name.name.clone();
                    match self.type_ids.get(sd.name.id) {
                        Some(idx) => {
                            self.types.set(idx, TypeDef::Union(bytecode::UnionDef { name, choices }));
                        },
                        None => {
                            assert(false);
                        },
                    }
                },
                _ => {},
            }
            i = i + 1;
        }
        // Generate the functions.
        let ghost id0 = self.id_counter;
        let ghost n0 = self.functions@.len();
        let mut i: usize = 0;
        while i < defs.len()
            invariant
                i <= d.len(),
                d == prog.definitions@,
                defs == &prog.definitions,
                self.idle(),
                self.ids_ok(),
                self.type_ids == ids1,
                self.type_ids.keys() == keys1,
                self.defs() == defs1,
                id0 == old(self).id_counter,
                n0 == old(self).functions@.len(),
                self.id_counter == id0 + defs_labels(d.take(i as int)),
                old(self).id_counter + defs_labels(d) <= usize::MAX,
                self.functions@.len() == n0 + fn_defs(d.take(i as int)).len(),
                forall|q: int| 0 <= q < n0 ==> #[trigger] self.functions@[q] == old(self).functions@[q],
                forall|q: int| 0 <= q < fn_defs(d.take(i as int)).len() ==> compiled(
                    ids1,
                    #[trigger] fn_defs(d.take(i as int))[q],
                    self.functions@[n0 + q],
                ),
                defs_ok(keys1, defs1, d),
            decreases d.len() - i,
        {
            proof {
                lemma_defs_step(d, i as int);
                lemma_defs_labels_prefix(d, i as int + 1);
            }
            let ghost before = *self;
            let ghost di = d[i as int];
            assert(def_ok(keys1, defs1, di));
            match &defs[i] {
                tast::Definition::Function(f) => {
                    self.gen_func(f);
                    proof {
                        let fs = fn_defs(d.take(i + 1));
                        assert forall|q: int| 0 <= q < fs.len() implies compiled(ids1, #[trigger] fs[q], self.functions@[n0 + q]) by {
                            if q < fs.len() - 1 {
                                assert(fs[q] == fn_defs(d.take(i as int))[q]);
                                assert(self.functions@[n0 + q] == before.functions@[n0 + q]);
                            }
                        }
                    }
                },
                _ => {},
            }
            i = i + 1;
        }
        proof {
            assert(d.take(d.len() as int) =~= d);
        }
    }

    /// Hand out what was generated.
    fn take_program(&mut self) -> (p: bytecode::Program)
        ensures
            p.imports@ == old(self).imports@,
            p.types@ == old(self).types@,
            p.functions@ == old(self).functions@,
    {
        self.imported.clear();
        let mut imports: Vec<bytecode::Import> = Vec::new();
        std::mem::swap(&mut imports, &mut self.imports);
        let mut types: Vec<TypeDef> = Vec::new();
        std::mem::swap(&mut types, &mut self.types);
        let mut functions: Vec<bytecode::Function> = Vec::new();
        std::mem::swap(&mut functions, &mut self.functions);
        bytecode::Program { imports, types, functions }
    }

    /// Generate a function: its parameters and locals get their indices,
    /// the body its code, which ends with a return where it does not end
    /// with a jump or a return, and whose jumps are then resolved.
    fn gen_func(&mut self, func: &tast::FunctionDef)
        requires
            old(self).idle(),
            func_ok(old(self).type_ids.keys(), old(self).defs(), *func),
            old(self).id_counter + block_labels(func.body@) <= usize::MAX,
        ensures
            final(self).idle(),
            final(self).id_counter == old(self).id_counter + block_labels(func.body@),
            final(self).type_ids == old(self).type_ids,
            final(self).structs == old(self).structs,
            final(self).types@.len() >= old(self).types@.len(),
            forall|i: int| 0 <= i < old(self).types@.len() ==> #[trigger] final(self).types@[i] == old(self).types@[i],
            final(self).functions@ == old(self).functions@.push(final(self).functions@.last()),
            compiled(old(self).type_ids, *func, final(self).functions@.last()),
    {
        self.label_map.clear();
        self.index_map.clear();
        let params = &func.signature.parameters;
        proof {
            lemma_params_ok(self.type_ids.keys(), params@);
        }
        let mut parameters: Vec<bytecode::Parameter> = Vec::new();
        let mut i: usize = 0;
        while i < params.len()
            invariant
                i <= params@.len(),
                params == &func.signature.parameters,
                self.wf(),
                self.instructions@.len() == 0,
                self.relocations@.len() == 0,
                self.loop_stack@.len() == 0,
                self.id_counter == old(self).id_counter,
                self.type_ids == old(self).type_ids,
                self.structs == old(self).structs,
                self.functions == old(self).functions,
                self.types@.len() >= old(self).types@.len(),
                forall|q: int| 0 <= q < old(self).types@.len() ==> #[trigger] self.types@[q] == old(self).types@[q],
                forall|l: usize| #[trigger] self.label_map.lookup(l) is None,
                forall|id: usize| #[trigger] self.index_map.lookup(id) is Some <==> exists|q: int| 0 <= q < i
                    && (#[trigger] params@[q]).name.id == id,
                parameters@.len() == i,
                forall|q: int| 0 <= q < i ==> (#[trigger] parameters@[q]).name@ == params@[q].name.name@ && typ_shape(
                    old(self).type_ids,
                    params@[q].typ,
                    parameters@[q].typ,
                ),
                forall|q: int| 0 <= q < params@.len() ==> typ_ok(old(self).type_ids.keys(), #[trigger] params@[q].typ),
            decreases params@.len() - i,
        {
            let parameter = &params[i];
            self.index_map.insert(parameter.name.id, i);
            let typ = self.get_bytecode_typ(&parameter.typ);
            parameters.push(bytecode::Parameter { name: parameter.name.name.clone(), typ });
            i = i + 1;
        }
        let return_type = match &func.signature.return_type {
            Some(t) => Some(self.get_bytecode_typ(t)),
            None => None,
        };
        let ghost s_ret = *self;
        let mut locals: Vec<bytecode::Local> = Vec::new();
        let mut j: usize = 0;
        while j < func.locals.len()
            invariant
                j <= func.locals@.len(),
                self.wf(),
                self.instructions@.len() == 0,
                self.relocations@.len() == 0,
                self.loop_stack@.len() == 0,
                self.id_counter == old(self).id_counter,
                self.type_ids == old(self).type_ids,
                self.structs == old(self).structs,
                self.functions == old(self).functions,
                self.types@.len() >= s_ret.types@.len(),
                forall|q: int| 0 <= q < s_ret.types@.len() ==> #[trigger] self.types@[q] == s_ret.types@[q],
                s_ret.types@.len() >= old(self).types@.len(),
                forall|q: int| 0 <= q < old(self).types@.len() ==> #[trigger] s_ret.types@[q] == old(self).types@[q],
                forall|l: usize| #[trigger] self.label_map.lookup(l) is None,
                forall|id: usize| #[trigger] self.index_map.lookup(id) is Some <==> has_param(*func, id) || exists|q: int|
                    0 <= q < j && (#[trigger] func.locals@[q]).name.id == id,
                locals@.len() == j,
                forall|q: int| 0 <= q < j ==> (#[trigger] locals@[q]).name@ == func.locals@[q].name.name@ && typ_shape(
                    old(self).type_ids,
                    func.locals@[q].typ,
                    locals@[q].typ,
                ),
                func_ok(old(self).type_ids.keys(), old(self).defs(), *func),
            decreases func.locals@.len() - j,
        {
            let local = &func.locals[j];
            self.index_map.insert(local.name.id, j);
            let typ = self.get_bytecode_typ(&local.typ);
            locals.push(bytecode::Local { name: local.name.name.clone(), typ });
            j = j + 1;
        }
        proof {
            assert(self.index_map.keys() =~= func_ids(*func));
        }
        let ghost s_b = *self;
        self.gen_block(&func.body);
        let ghost s_e = *self;
        let n = self.instructions.len();
        if n == 0 || !self.instructions[n - 1].is_terminator() {
            self.emit(Instruction::Return(0));
        }
        proof {
            let ghost s_r = *self;
            let ghost p = within(s_b.loop_stack@, 0, 0);
            assert forall|k: int| 0 <= k < s_r.relocations@.len() implies reloc_labels(
                #[trigger] s_r.relocations@[k],
                s_r.resolvable(),
            ) by {
                let r = s_r.relocations@[k];
                assert(r == s_e.relocations@[k]);
                assert(reloc_labels(r, s_e.admitted(p)));
                assert forall|l: usize| #[trigger] s_e.admitted(p)(l) implies s_r.resolvable()(l) by {
                    assert(!s_b.placed(l));
                    if loop_label(s_b.loop_stack@, l) {
                        let q = choose|q: int| 0 <= q < s_b.loop_stack@.len() && (#[trigger] s_b.loop_stack@[q]).0 == l
                            || 0 <= q < s_b.loop_stack@.len() && s_b.loop_stack@[q].1 == l;
                    }
                }
                lemma_reloc_labels_mono(r, s_e.admitted(p), s_r.resolvable());
            }
        }
        let ghost s_r = *self;
        self.resolve_relocations();
        proof {
            assert(terminator(s_r.instructions@[s_r.instructions@.len() - 1]));
        }
        let mut code: Vec<Instruction> = Vec::new();
        std::mem::swap(&mut code, &mut self.instructions);
        self.functions.push(
            bytecode::Function { name: func.name.name.clone(), parameters, return_type, locals, code },
        );
    }

    /// Generate code for each statement of a block in turn.
    fn gen_block(&mut self, block: &Vec<Statement>)
        requires
            old(self).wf(),
            block_ok(
                old(self).type_ids.keys(),
                old(self).index_map.keys(),
                old(self).defs(),
                old(self).loop_stack@.len() > 0,
                block@,
            ),
            old(self).id_counter + block_labels(block@) <= usize::MAX,
        ensures
            final(self).flow(old(self), within(old(self).loop_stack@, 0, 0), true, old(self).id_counter as int),
            final(self).loop_stack@ == old(self).loop_stack@,
            final(self).id_counter == old(self).id_counter + block_labels(block@),
        decreases block, 0int,
    {
        let ghost s0 = *self;
        let ghost base = s0.id_counter as int;
        let ghost p = within(s0.loop_stack@, 0, 0);
        proof {
            Self::lemma_flow_code(&s0, &s0, p, base);
            assert(block@.take(0) =~= Seq::<Statement>::empty());
        }
        let mut i: usize = 0;
        while i < block.len()
            invariant
                i <= block@.len(),
                self.flow(&s0, p, true, base),
                self.loop_stack@ == s0.loop_stack@,
                self.id_counter == s0.id_counter + block_labels(block@.take(i as int)),
                block_ok(s0.type_ids.keys(), s0.index_map.keys(), s0.defs(), s0.loop_stack@.len() > 0, block@),
                s0.id_counter + block_labels(block@) <= usize::MAX,
                base == s0.id_counter,
                p == within(s0.loop_stack@, 0, 0),
            decreases block@.len() - i,
        {
            proof {
                lemma_block_parts(s0.type_ids.keys(), s0.index_map.keys(), s0.defs(), s0.loop_stack@.len() > 0, block@, i as int);
                lemma_block_labels_step(block@, i as int);
                assert(decreases_to!(*block => block@));
                assert(decreases_to!(block@ => block@[i as int]));
            }
            let ghost s = *self;
            self.gen_statement(&block[i]);
            proof {
                Self::lemma_flow_trans(&s0, &s, self, p, true, p, true, p, true, base, s.id_counter as int, base);
            }
            i = i + 1;
        }
        assert(block@.take(block@.len() as int) =~= block@);
    }

    /// Generate code for a statement.
    fn gen_statement(&mut self, statement: &Statement)
        requires
            old(self).wf(),
            stmt_ok(
                old(self).type_ids.keys(),
                old(self).index_map.keys(),
                old(self).defs(),
                old(self).loop_stack@.len() > 0,
                *statement,
            ),
            old(self).id_counter + stmt_labels(*statement) <= usize::MAX,
        ensures
            final(self).flow(old(self), within(old(self).loop_stack@, 0, 0), true, old(self).id_counter as int),
            final(self).loop_stack@ == old(self).loop_stack@,
            final(self).id_counter == old(self).id_counter + stmt_labels(*statement),
            statement.kind is Break ==> final(self).jumps_to(old(self), old(self).loop_stack@.last().1),
            statement.kind is Continue ==> final(self).jumps_to(old(self), old(self).loop_stack@.last().0),
        decreases statement, 0int,
    {
        let ghost s0 = *self;
        let ghost base = s0.id_counter as int;
        let ghost p = within(s0.loop_stack@, 0, 0);
        proof {
            assert(decreases_to!(*statement => statement.kind));
        }
        match &statement.kind {
            StatementKind::Expression(e) => {
                self.gen_expression(e);
                proof {
                    Self::lemma_flow_code(&s0, self, p, base);
                }
            },
            StatementKind::StoreLocal { local_id, value } => {
                self.gen_expression(value);
                match self.index_map.get(*local_id) {
                    Some(index) => {
                        self.emit(Instruction::StoreLocal { index });
                    },
                    None => {
                        assert(false);
                    },
                }
                proof {
                    Self::lemma_flow_code(&s0, self, p, base);
                }
            },
            StatementKind::SetAttr { base: target, attr, value } => {
                match &target.typ {
                    SlangType::User(UserType::Struct(struct_type)) => {
                        proof {
                            lemma_first_def_bound(self.defs(), struct_type.struct_id);
                        }
                        match find_def(&self.structs, struct_type.struct_id) {
                            Some(k) => {
                                let struct_def: &tast::StructDef = self.structs[k];
                                proof {
                                    lemma_first_field_bound(struct_def.fields@, attr@);
                                }
                                match find_field(&struct_def.fields, attr.as_str()) {
                                    Some(j) => {
                                        let index = struct_def.fields[j].index;
                                        self.gen_expression(target);
                                        self.gen_expression(value);
                                        self.emit(Instruction::SetAttr { index });
                                    },
                                    None => {
                                        assert(false);
                                    },
                                }
                            },
                            None => {
                                assert(false);
                            },
                        }
                    },
                    _ => {
                        assert(false);
                    },
                }
                proof {
                    Self::lemma_flow_code(&s0, self, p, base);
                }
            },
            StatementKind::SetIndex { base: target, index, value } => {
                self.gen_expression(target);
                self.gen_expression(index);
                self.gen_expression(value);
                self.emit(Instruction::SetElement);
                proof {
                    Self::lemma_flow_code(&s0, self, p, base);
                }
            },
            StatementKind::Break => {
                let n = self.loop_stack.len();
                let target_label = self.loop_stack[n - 1].1;
                proof {
                    assert(s0.loop_stack@[n - 1].0 == s0.loop_stack@[n - 1].0);
                    assert(loop_label(s0.loop_stack@, target_label));
                }
                self.jump(target_label);
                proof {
                    Self::lemma_flow_jump(&s0, self, target_label, p, base);
                    if !s0.placed(target_label) {
                        assert(self.relocations@[s0.relocations@.len() as int] == Relocation::Jump {
                            pc: s0.instructions.len() as usize,
                            label: target_label,
                        });
                    }
                }
            },
            StatementKind::Continue => {
                let n = self.loop_stack.len();
                let target_label = self.loop_stack[n - 1].0;
                proof {
                    assert(loop_label(s0.loop_stack@, target_label));
                }
                self.jump(target_label);
                proof {
                    Self::lemma_flow_jump(&s0, self, target_label, p, base);
                    if !s0.placed(target_label) {
                        assert(self.relocations@[s0.relocations@.len() as int] == Relocation::Jump {
                            pc: s0.instructions.len() as usize,
                            label: target_label,
                        });
                    }
                }
            },
            StatementKind::Pass | StatementKind::Unreachable => {
                proof {
                    Self::lemma_flow_code(&s0, self, p, base);
                }
            },
            StatementKind::Return { value } => {
                self.gen_return_statement(value);
                proof {
                    Self::lemma_flow_code(&s0, self, p, base);
                }
            },
            StatementKind::Switch(switch_statement) => {
                proof {
                    assert(decreases_to!(statement.kind => statement.kind->Switch_0));
                }
                self.gen_switch_statement(switch_statement);
            },
            StatementKind::If(if_statement) => {
                proof {
                    assert(decreases_to!(statement.kind => statement.kind->If_0));
                }
                self.gen_if_statement(if_statement);
            },
            StatementKind::Loop { body } => {
                proof {
                    assert(decreases_to!(statement.kind => statement.kind->Loop_body));
                }
                self.gen_loop(body);
            },
            StatementKind::Compound(block) => {
                proof {
                    assert(decreases_to!(statement.kind => statement.kind->Compound_0));
                }
                self.gen_block(block);
            },
            StatementKind::While(while_statement) => {
                proof {
                    assert(decreases_to!(statement.kind => statement.kind->While_0));
                }
                self.gen_while_statement(while_statement);
            },
            _ => {
                assert(false);
            },
        }
    }

    /// Generate a return, with or without a value.
    fn gen_return_statement(&mut self, value: &Option<Expression>)
        requires
            old(self).wf(),
            *value matches Some(v) ==> old(self).ok(v),
        ensures
            final(self).wf(),
            final(self).grew(old(self)),
            final(self).instructions@.len() > old(self).instructions@.len(),
            final(self).instructions@.last() == Instruction::Return(if value is Some { 1 } else { 0 }),
    {
        match value {
            Some(value) => {
                self.gen_expression(value);
                self.emit(Instruction::Return(1));
            },
            None => {
                self.emit(Instruction::Return(0));
            },
        }
    }

    /// Generate an if statement: the condition jumps to the true branch or
    /// to the false branch, which is the end where there is no else block.
    fn gen_if_statement(&mut self, if_statement: &tast::IfStatement)
        requires
            old(self).wf(),
            cond_ok(old(self).type_ids.keys(), old(self).index_map.keys(), old(self).defs(), if_statement.condition),
            block_ok(
                old(self).type_ids.keys(),
                old(self).index_map.keys(),
                old(self).defs(),
                old(self).loop_stack@.len() > 0,
                if_statement.if_true@,
            ),
            if_statement.if_false matches Some(b) ==> block_ok(
                old(self).type_ids.keys(),
                old(self).index_map.keys(),
                old(self).defs(),
                old(self).loop_stack@.len() > 0,
                b@,
            ),
            old(self).id_counter + if_labels(*if_statement) <= usize::MAX,
        ensures
            final(self).flow(old(self), within(old(self).loop_stack@, 0, 0), true, old(self).id_counter as int),
            final(self).loop_stack@ == old(self).loop_stack@,
            final(self).id_counter == old(self).id_counter + if_labels(*if_statement),
            final(self).if_layout(
                if_statement.condition,
                old(self).instructions@.len() as int,
                old(self).id_counter as usize,
                (if if_statement.if_false is Some { old(self).id_counter + 2 } else { old(self).id_counter + 1 }) as usize,
                (old(self).id_counter + 1) as usize,
                if_statement.if_false is Some,
            ),
        decreases if_statement, 0int,
    {
        let ghost s0 = *self;
        let ghost base = s0.id_counter as int;
        let ghost stack = s0.loop_stack@;
        let ghost k: int = if if_statement.if_false is Some { 3 } else { 2 };
        let ghost p = within(stack, base, base + k);
        let true_label = self.new_label();
        let final_label = self.new_label();
        match &if_statement.if_false {
            Some(if_false) => {
                let false_label = self.new_label();
                let ghost s1 = *self;
                proof {
                    Self::lemma_flow_code(&s0, &s1, p, base);
                }
                self.gen_condition(&if_statement.condition, true_label, false_label);
                let ghost s2 = *self;
                proof {
                    Self::lemma_flow_extend(&s0, &s1, &s2, p, either(true_label, false_label), true, s1.id_counter as int, base);
                    Self::lemma_flow_kept(&s1, &s2, either(true_label, false_label), true, s1.id_counter as int, true_label);
                    Self::lemma_flow_kept(&s1, &s2, either(true_label, false_label), true, s1.id_counter as int, false_label);
                    Self::lemma_flow_kept(&s1, &s2, either(true_label, false_label), true, s1.id_counter as int, final_label);
                }
                self.set_label(true_label);
                let ghost s3 = *self;
                proof {
                    Self::lemma_flow_label(&s2, &s3, true_label, nothing(), base);
                    Self::lemma_flow_extend(&s0, &s2, &s3, p, nothing(), false, base, base);
                    assert(decreases_to!(*if_statement => if_statement.if_true));
                }
                self.gen_block(&if_statement.if_true);
                let ghost s4 = *self;
                proof {
                    Self::lemma_flow_extend(&s0, &s3, &s4, p, within(stack, 0, 0), true, s3.id_counter as int, base);
                    Self::lemma_flow_kept(&s3, &s4, within(stack, 0, 0), true, s3.id_counter as int, true_label);
                    Self::lemma_flow_kept(&s3, &s4, within(stack, 0, 0), true, s3.id_counter as int, false_label);
                    Self::lemma_flow_kept(&s3, &s4, within(stack, 0, 0), true, s3.id_counter as int, final_label);
                }
                self.jump(final_label);
                let ghost s5 = *self;
                proof {
                    Self::lemma_flow_jump(&s4, &s5, final_label, p, base);
                    Self::lemma_flow_extend(&s0, &s4, &s5, p, p, true, base, base);
                }
                self.set_label(false_label);
                let ghost s6 = *self;
                proof {
                    Self::lemma_flow_label(&s5, &s6, false_label, nothing(), base);
                    Self::lemma_flow_extend(&s0, &s5, &s6, p, nothing(), false, base, base);
                    assert(decreases_to!(*if_statement => if_statement.if_false));
                    assert(decreases_to!(if_statement.if_false => if_statement.if_false->Some_0));
                }
                self.gen_block(if_false);
                let ghost s7 = *self;
                proof {
                    Self::lemma_flow_extend(&s0, &s6, &s7, p, within(stack, 0, 0), true, s6.id_counter as int, base);
                    Self::lemma_flow_kept(&s6, &s7, within(stack, 0, 0), true, s6.id_counter as int, true_label);
                    Self::lemma_flow_kept(&s6, &s7, within(stack, 0, 0), true, s6.id_counter as int, false_label);
                    Self::lemma_flow_kept(&s6, &s7, within(stack, 0, 0), true, s6.id_counter as int, final_label);
                    // The layout so far: condition, then-branch, jump to the end, else-branch.
                    let ghost start = s0.instructions@.len() as int;
                    let ghost cond = if_statement.condition;
                    let ghost ll = choose|leaves: Seq<int>| #[trigger] s2.cond_code(cond, start, true_label, false_label, leaves);
                    s2.lemma_cond_leaves_below(cond, start, true_label, false_label, ll);
                    Self::lemma_cond_code_kept(&s2, &s3, cond, start, true_label, false_label, ll);
                    assert(s3.cond_code(cond, start, true_label, false_label, ll));
                    assert(s3.if_cond(cond, start, true_label, false_label));
                    Self::lemma_if_cond_kept(&s3, &s4, within(stack, 0, 0), true, s3.id_counter as int, cond, start, true_label, false_label);
                    Self::lemma_flow_jump(&s4, &s5, final_label, p, base);
                    Self::lemma_if_cond_kept(&s4, &s5, p, true, base, cond, start, true_label, false_label);
                    Self::lemma_if_cond_kept(&s5, &s6, nothing(), false, base, cond, start, true_label, false_label);
                    Self::lemma_if_cond_kept(&s6, &s7, within(stack, 0, 0), true, s6.id_counter as int, cond, start, true_label, false_label);
                    assert(s5.relocations@[s4.relocations@.len() as int] == Relocation::Jump {
                        pc: s4.instructions.len() as usize,
                        label: final_label,
                    });
                    assert(s5.jump_at(s4.instructions@.len() as int, final_label));
                    Self::lemma_jump_at_kept(&s5, &s6, nothing(), false, base, s4.instructions@.len() as int, final_label);
                    Self::lemma_jump_at_kept(&s6, &s7, within(stack, 0, 0), true, s6.id_counter as int, s4.instructions@.len() as int, final_label);
                    assert(s7.pos(false_label) == s4.instructions@.len() + 1);
                    assert(s7.pos(true_label) == s2.instructions@.len());
                }
            },
            None => {
                let ghost s1 = *self;
                proof {
                    Self::lemma_flow_code(&s0, &s1, p, base);
                }
                self.gen_condition(&if_statement.condition, true_label, final_label);
                let ghost s2 = *self;
                proof {
                    Self::lemma_flow_extend(&s0, &s1, &s2, p, either(true_label, final_label), true, s1.id_counter as int, base);
                    Self::lemma_flow_kept(&s1, &s2, either(true_label, final_label), true, s1.id_counter as int, true_label);
                    Self::lemma_flow_kept(&s1, &s2, either(true_label, final_label), true, s1.id_counter as int, final_label);
                }
                self.set_label(true_label);
                let ghost s3 = *self;
                proof {
                    Self::lemma_flow_label(&s2, &s3, true_label, nothing(), base);
                    Self::lemma_flow_extend(&s0, &s2, &s3, p, nothing(), false, base, base);
                    assert(decreases_to!(*if_statement => if_statement.if_true));
                }
                self.gen_block(&if_statement.if_true);
                let ghost s4 = *self;
                proof {
                    Self::lemma_flow_extend(&s0, &s3, &s4, p, within(stack, 0, 0), true, s3.id_counter as int, base);
                    Self::lemma_flow_kept(&s3, &s4, within(stack, 0, 0), true, s3.id_counter as int, true_label);
                    Self::lemma_flow_kept(&s3, &s4, within(stack, 0, 0), true, s3.id_counter as int, final_label);
                    // The layout so far: condition, then-branch.
                    let ghost start = s0.instructions@.len() as int;
                    let ghost cond = if_statement.condition;
                    let ghost ll = choose|leaves: Seq<int>| #[trigger] s2.cond_code(cond, start, true_label, final_label, leaves);
                    s2.lemma_cond_leaves_below(cond, start, true_label, final_label, ll);
                    Self::lemma_cond_code_kept(&s2, &s3, cond, start, true_label, final_label, ll);
                    assert(s3.cond_code(cond, start, true_label, final_label, ll));
                    assert(s3.if_cond(cond, start, true_label, final_label));
                    Self::lemma_if_cond_kept(&s3, &s4, within(stack, 0, 0), true, s3.id_counter as int, cond, start, true_label, final_label);
                    assert(s4.pos(true_label) == s2.instructions@.len());
                }
            },
        }
        let ghost s8 = *self;
        self.jump(final_label);
        let ghost s9 = *self;
        proof {
            Self::lemma_flow_jump(&s8, &s9, final_label, p, base);
            Self::lemma_flow_extend(&s0, &s8, &s9, p, p, true, base, base);
        }
        self.set_label(final_label);
        let ghost s10 = *self;
        proof {
            Self::lemma_flow_label(&s9, &s10, final_label, nothing(), base);
            Self::lemma_flow_extend(&s0, &s9, &s10, p, nothing(), false, base, base);
        }
        self.emit(Instruction::Nop);
        proof {
            let ghost s11 = *self;
            Self::lemma_flow_code(&s10, &s11, nothing(), base);
            Self::lemma_flow_kept(&s10, &s11, nothing(), true, base, true_label);
            Self::lemma_flow_kept(&s10, &s11, nothing(), true, base, final_label);
            Self::lemma_flow_kept(&s10, &s11, nothing(), true, base, (base + 2) as usize);
            Self::lemma_flow_finish(&s0, &s10, &s11, p, within(stack, 0, 0), base);
            // Close the layout: the jump to the end and the end label.
            let ghost f = (if if_statement.if_false is Some { base + 2 } else { base + 1 }) as usize;
            Self::lemma_if_close(&s8, &s9, &s10, &s11, p, base, if_statement.condition, s0.instructions@.len() as int, true_label, f, final_label, if_statement.if_false is Some);
        }
    }

    /// Generate an endless loop; `break` jumps to its end, `continue` to its start.
    fn gen_loop(&mut self, body: &Vec<Statement>)
        requires
            old(self).wf(),
            block_ok(old(self).type_ids.keys(), old(self).index_map.keys(), old(self).defs(), true, body@),
            old(self).id_counter + 2 + block_labels(body@) <= usize::MAX,
        ensures
            final(self).flow(old(self), within(old(self).loop_stack@, 0, 0), true, old(self).id_counter as int),
            final(self).loop_stack@ == old(self).loop_stack@,
            final(self).id_counter == old(self).id_counter + 2 + block_labels(body@),
            final(self).loop_layout(
                old(self).instructions@.len() as int,
                old(self).id_counter as usize,
                (old(self).id_counter + 1) as usize,
            ),
        decreases body, 1int,
    {
        let ghost s0 = *self;
        let ghost base = s0.id_counter as int;
        let ghost stack = s0.loop_stack@;
        let ghost p = within(stack, base, base + 2);
        let loop_start_label = self.new_label();
        let final_label = self.new_label();
        let ghost s1 = *self;
        proof {
            Self::lemma_flow_code(&s0, &s1, p, base);
        }
        self.jump(loop_start_label);
        let ghost s2 = *self;
        proof {
            Self::lemma_flow_jump(&s1, &s2, loop_start_label, p, base);
            Self::lemma_flow_extend(&s0, &s1, &s2, p, p, true, base, base);
        }
        self.set_label(loop_start_label);
        let ghost s3 = *self;
        proof {
            Self::lemma_flow_label(&s2, &s3, loop_start_label, nothing(), base);
            Self::lemma_flow_extend(&s0, &s2, &s3, p, nothing(), false, base, base);
        }
        self.loop_stack.push((loop_start_label, final_label));
        let ghost s4 = *self;
        proof {
            assert forall|i: int| 0 <= i < s4.loop_stack@.len() implies #[trigger] s4.loop_stack@[i].0 < s4.id_counter
                && s4.loop_stack@[i].1 < s4.id_counter by {
                if i < s3.loop_stack@.len() {
                    assert(s4.loop_stack@[i] == s3.loop_stack@[i]);
                }
            }
            Self::lemma_flow_code(&s3, &s4, nothing(), base);
            Self::lemma_flow_extend(&s0, &s3, &s4, p, nothing(), true, base, base);
        }
        self.gen_block(body);
        let ghost s5 = *self;
        proof {
            assert forall|l: usize| #[trigger] within(s4.loop_stack@, 0, 0)(l) implies s5.placed(l) || p(l) by {
                lemma_loop_label_push(stack, loop_start_label, final_label, l);
            }
            Self::lemma_flow_extend(&s0, &s4, &s5, p, within(s4.loop_stack@, 0, 0), true, s4.id_counter as int, base);
            Self::lemma_flow_kept(&s4, &s5, within(s4.loop_stack@, 0, 0), true, s4.id_counter as int, loop_start_label);
            Self::lemma_flow_kept(&s4, &s5, within(s4.loop_stack@, 0, 0), true, s4.id_counter as int, final_label);
        }
        self.loop_stack.pop();
        let ghost s6 = *self;
        proof {
            assert(s6.loop_stack@ =~= stack);
            Self::lemma_flow_code(&s5, &s6, nothing(), base);
            Self::lemma_flow_extend(&s0, &s5, &s6, p, nothing(), true, base, base);
        }
        self.jump(loop_start_label);
        let ghost s7 = *self;
        proof {
            Self::lemma_flow_jump(&s6, &s7, loop_start_label, p, base);
            Self::lemma_flow_extend(&s0, &s6, &s7, p, p, true, base, base);
        }
        self.set_label(final_label);
        let ghost s8 = *self;
        proof {
            Self::lemma_flow_label(&s7, &s8, final_label, nothing(), base);
            Self::lemma_flow_extend(&s0, &s7, &s8, p, nothing(), false, base, base);
        }
        self.emit(Instruction::Nop);
        proof {
            let ghost s9 = *self;
            Self::lemma_flow_code(&s8, &s9, nothing(), base);
            Self::lemma_flow_kept(&s8, &s9, nothing(), true, base, loop_start_label);
            Self::lemma_flow_kept(&s8, &s9, nothing(), true, base, final_label);
            Self::lemma_flow_finish(&s0, &s8, &s9, p, within(stack, 0, 0), base);
            // The layout: entry jump, the body at the head, the jump back.
            let ghost entry = s1.instructions@.len() as int;
            let ghost head = s2.instructions@.len() as int;
            assert(s2.relocations@[s1.relocations@.len() as int] == Relocation::Jump {
                pc: s1.instructions.len() as usize,
                label: loop_start_label,
            });
            assert(s2.jump_at(entry, loop_start_label));
            Self::lemma_jump_at_kept(&s2, &s3, nothing(), false, base, entry, loop_start_label);
            Self::lemma_jump_at_kept(&s3, &s4, nothing(), true, base, entry, loop_start_label);
            Self::lemma_jump_at_kept(&s4, &s5, within(s4.loop_stack@, 0, 0), true, s4.id_counter as int, entry, loop_start_label);
            Self::lemma_jump_at_kept(&s5, &s6, nothing(), true, base, entry, loop_start_label);
            Self::lemma_jump_at_kept(&s6, &s7, p, true, base, entry, loop_start_label);
            Self::lemma_jump_at_kept(&s7, &s8, nothing(), false, base, entry, loop_start_label);
            Self::lemma_jump_at_kept(&s8, &s9, nothing(), true, base, entry, loop_start_label);
            assert(s7.instructions@[s6.instructions@.len() as int] == Instruction::Jump(head as usize));
            assert(s9.instructions@[s6.instructions@.len() as int] == Instruction::Jump(head as usize));
            assert(s9.pos(final_label) == s6.instructions@.len() + 1);
            assert(s9.pos(loop_start_label) == head);
            assert(s9.loop_layout(s0.instructions@.len() as int, loop_start_label, final_label));
        }
    }

    /// Generate a while loop: the condition is tested at the start of each round.
    fn gen_while_statement(&mut self, while_statement: &tast::WhileStatement)
        requires
            old(self).wf(),
            cond_ok(old(self).type_ids.keys(), old(self).index_map.keys(), old(self).defs(), while_statement.condition),
            block_ok(old(self).type_ids.keys(), old(self).index_map.keys(), old(self).defs(), true, while_statement.body@),
            old(self).id_counter + 3 + cond_labels(while_statement.condition) + block_labels(while_statement.body@)
                <= usize::MAX,
        ensures
            final(self).flow(old(self), within(old(self).loop_stack@, 0, 0), true, old(self).id_counter as int),
            final(self).loop_stack@ == old(self).loop_stack@,
            final(self).id_counter == old(self).id_counter + 3 + cond_labels(while_statement.condition)
                + block_labels(while_statement.body@),
            final(self).while_layout(
                while_statement.condition,
                old(self).instructions@.len() as int,
                old(self).id_counter as usize,
                (old(self).id_counter + 1) as usize,
                (old(self).id_counter + 2) as usize,
            ),
        decreases while_statement, 0int,
    {
        let ghost s0 = *self;
        let ghost base = s0.id_counter as int;
        let ghost stack = s0.loop_stack@;
        let ghost p = within(stack, base, base + 3);
        let loop_start_label = self.new_label();
        let true_label = self.new_label();
        let final_label = self.new_label();
        let ghost s1 = *self;
        proof {
            Self::lemma_flow_code(&s0, &s1, p, base);
        }
        self.jump(loop_start_label);
        let ghost s2 = *self;
        proof {
            Self::lemma_flow_jump(&s1, &s2, loop_start_label, p, base);
            Self::lemma_flow_extend(&s0, &s1, &s2, p, p, true, base, base);
        }
        self.set_label(loop_start_label);
        let ghost s3 = *self;
        proof {
            Self::lemma_flow_label(&s2, &s3, loop_start_label, nothing(), base);
            Self::lemma_flow_extend(&s0, &s2, &s3, p, nothing(), false, base, base);
        }
        self.gen_condition(&while_statement.condition, true_label, final_label);
        let ghost s4 = *self;
        proof {
            Self::lemma_flow_extend(&s0, &s3, &s4, p, either(true_label, final_label), true, s3.id_counter as int, base);
            Self::lemma_flow_kept(&s3, &s4, either(true_label, final_label), true, s3.id_counter as int, loop_start_label);
            Self::lemma_flow_kept(&s3, &s4, either(true_label, final_label), true, s3.id_counter as int, true_label);
            Self::lemma_flow_kept(&s3, &s4, either(true_label, final_label), true, s3.id_counter as int, final_label);
        }
        self.set_label(true_label);
        let ghost s5 = *self;
        proof {
            Self::lemma_flow_label(&s4, &s5, true_label, nothing(), base);
            Self::lemma_flow_extend(&s0, &s4, &s5, p, nothing(), false, base, base);
        }
        self.loop_stack.push((loop_start_label, final_label));
        let ghost s6 = *self;
        proof {
            Self::lemma_flow_code(&s5, &s6, nothing(), base);
            Self::lemma_flow_extend(&s0, &s5, &s6, p, nothing(), true, base, base);
            assert(decreases_to!(*while_statement => while_statement.body));
        }
        self.gen_block(&while_statement.body);
        let ghost s7 = *self;
        proof {
            assert forall|l: usize| #[trigger] within(s6.loop_stack@, 0, 0)(l) implies s7.placed(l) || p(l) by {
                lemma_loop_label_push(stack, loop_start_label, final_label, l);
            }
            Self::lemma_flow_extend(&s0, &s6, &s7, p, within(s6.loop_stack@, 0, 0), true, s6.id_counter as int, base);
            Self::lemma_flow_kept(&s6, &s7, within(s6.loop_stack@, 0, 0), true, s6.id_counter as int, loop_start_label);
            Self::lemma_flow_kept(&s6, &s7, within(s6.loop_stack@, 0, 0), true, s6.id_counter as int, true_label);
            Self::lemma_flow_kept(&s6, &s7, within(s6.loop_stack@, 0, 0), true, s6.id_counter as int, final_label);
        }
        self.loop_stack.pop();
        let ghost s8 = *self;
        proof {
            assert(s8.loop_stack@ =~= stack);
            Self::lemma_flow_code(&s7, &s8, nothing(), base);
            Self::lemma_flow_extend(&s0, &s7, &s8, p, nothing(), true, base, base);
        }
        self.jump(loop_start_label);
        let ghost s9 = *self;
        proof {
            Self::lemma_flow_jump(&s8, &s9, loop_start_label, p, base);
            Self::lemma_flow_extend(&s0, &s8, &s9, p, p, true, base, base);
        }
        self.set_label(final_label);
        let ghost s10 = *self;
        proof {
            Self::lemma_flow_label(&s9, &s10, final_label, nothing(), base);
            Self::lemma_flow_extend(&s0, &s9, &s10, p, nothing(), false, base, base);
        }
        self.emit(Instruction::Nop);
        proof {
            let ghost s11 = *self;
            Self::lemma_flow_code(&s10, &s11, nothing(), base);
            Self::lemma_flow_kept(&s10, &s11, nothing(), true, base, loop_start_label);
            Self::lemma_flow_kept(&s10, &s11, nothing(), true, base, true_label);
            Self::lemma_flow_kept(&s10, &s11, nothing(), true, base, final_label);
            Self::lemma_flow_finish(&s0, &s10, &s11, p, within(stack, 0, 0), base);
            // The layout: entry jump, the test at the head, the body, the jump back.
            let ghost entry = s1.instructions@.len() as int;
            let ghost head = s2.instructions@.len() as int;
            let ghost cond = while_statement.condition;
            assert(s2.relocations@[s1.relocations@.len() as int] == Relocation::Jump {
                pc: s1.instructions.len() as usize,
                label: loop_start_label,
            });
            assert(s2.jump_at(entry, loop_start_label));
            Self::lemma_jump_at_kept(&s2, &s3, nothing(), false, base, entry, loop_start_label);
            Self::lemma_jump_at_kept(&s3, &s4, either(true_label, final_label), true, s3.id_counter as int, entry, loop_start_label);
            let ghost ll = choose|leaves: Seq<int>| #[trigger] s4.cond_code(cond, head, true_label, final_label, leaves);
            s4.lemma_cond_leaves_below(cond, head, true_label, final_label, ll);
            Self::lemma_cond_code_kept(&s4, &s5, cond, head, true_label, final_label, ll);
            assert(s5.cond_code(cond, head, true_label, final_label, ll));
            assert(s5.if_cond(cond, head, true_label, final_label));
            Self::lemma_jump_at_kept(&s4, &s5, nothing(), false, base, entry, loop_start_label);
            Self::lemma_if_cond_kept(&s5, &s6, nothing(), true, base, cond, head, true_label, final_label);
            Self::lemma_jump_at_kept(&s5, &s6, nothing(), true, base, entry, loop_start_label);
            Self::lemma_if_cond_kept(&s6, &s7, within(s6.loop_stack@, 0, 0), true, s6.id_counter as int, cond, head, true_label, final_label);
            Self::lemma_jump_at_kept(&s6, &s7, within(s6.loop_stack@, 0, 0), true, s6.id_counter as int, entry, loop_start_label);
            Self::lemma_if_cond_kept(&s7, &s8, nothing(), true, base, cond, head, true_label, final_label);
            Self::lemma_jump_at_kept(&s7, &s8, nothing(), true, base, entry, loop_start_label);
            Self::lemma_if_cond_kept(&s8, &s9, p, true, base, cond, head, true_label, final_label);
            Self::lemma_jump_at_kept(&s8, &s9, p, true, base, entry, loop_start_label);
            Self::lemma_if_cond_kept(&s9, &s10, nothing(), false, base, cond, head, true_label, final_label);
            Self::lemma_jump_at_kept(&s9, &s10, nothing(), false, base, entry, loop_start_label);
            Self::lemma_if_cond_kept(&s10, &s11, nothing(), true, base, cond, head, true_label, final_label);
            Self::lemma_jump_at_kept(&s10, &s11, nothing(), true, base, entry, loop_start_label);
            assert(s9.instructions@[s8.instructions@.len() as int] == Instruction::Jump(head as usize));
            assert(s11.instructions@[s8.instructions@.len() as int] == Instruction::Jump(head as usize));
            assert(s11.pos(final_label) == s8.instructions@.len() + 1);
            assert(s11.pos(loop_start_label) == head);
            assert(s11.pos(true_label) == s4.instructions@.len());
            assert(s11.while_layout(cond, entry, loop_start_label, true_label, final_label));
        }
    }

    /// Generate a switch statement: a jump table on the value, then the code
    /// of each arm and of the default block, each of which ends in a jump to the end.
    fn gen_switch_statement(&mut self, switch_statement: &tast::SwitchStatement)
        requires
            old(self).wf(),
            old(self).ok(switch_statement.value),
            arms_ok(
                old(self).type_ids.keys(),
                old(self).index_map.keys(),
                old(self).defs(),
                old(self).loop_stack@.len() > 0,
                switch_statement.arms@,
            ),
            block_ok(
                old(self).type_ids.keys(),
                old(self).index_map.keys(),
                old(self).defs(),
                old(self).loop_stack@.len() > 0,
                switch_statement.default@,
            ),
            old(self).id_counter + switch_labels(*switch_statement) <= usize::MAX,
        ensures
            final(self).flow(old(self), within(old(self).loop_stack@, 0, 0), true, old(self).id_counter as int),
            final(self).loop_stack@ == old(self).loop_stack@,
            final(self).id_counter == old(self).id_counter + switch_labels(*switch_statement),
            exists|k: int|
                #[trigger] final(self).switch_layout(k, arm_values(switch_statement.arms@), old(self).id_counter as usize),
        decreases switch_statement, 0int,
    {
        let ghost s0 = *self;
        let ghost base = s0.id_counter as int;
        let ghost stack = s0.loop_stack@;
        let ghost in_loop = stack.len() > 0;
        let ghost arms = switch_statement.arms@;
        let ghost n = arms.len() as int;
        let ghost p = within(stack, base, base + 2 + n);
        let final_label = self.new_label();
        let default_label = self.new_label();
        let mut options: Vec<(i64, usize)> = Vec::new();
        let mut arm_labels: Vec<usize> = Vec::new();
        let mut i: usize = 0;
        while i < switch_statement.arms.len()
            invariant
                i <= n,
                n == switch_statement.arms@.len(),
                arms == switch_statement.arms@,
                self.wf(),
                self.id_counter == base + 2 + i,
                self.label_map == s0.label_map,
                self.instructions == s0.instructions,
                self.types == s0.types,
                self.relocations == s0.relocations,
                self.loop_stack == s0.loop_stack,
                self.type_ids == s0.type_ids,
                self.structs == s0.structs,
                self.index_map == s0.index_map,
                self.functions == s0.functions,
                options@.len() == i,
                arm_labels@.len() == i,
                forall|q: int| 0 <= q < i ==> #[trigger] arm_labels@[q] == base + 2 + q,
                forall|q: int| 0 <= q < i ==> (#[trigger] options@[q]).1 == base + 2 + q,
                forall|q: int| 0 <= q < i ==> (#[trigger] options@[q]).0 == arm_value(arms[q]),
                arms_ok(s0.type_ids.keys(), s0.index_map.keys(), s0.defs(), in_loop, arms),
                base + switch_labels(*switch_statement) <= usize::MAX,
            decreases n - i,
        {
            proof {
                lemma_arms_parts(s0.type_ids.keys(), s0.index_map.keys(), s0.defs(), in_loop, arms, i as int);
            }
            let arm_label = self.new_label();
            let arm_value: i64 = match &switch_statement.arms[i].value.kind {
                ExpressionKind::Literal(tast::Literal::Integer(value)) => *value,
                _ => {
                    assert(false);
                    0
                },
            };
            options.push((arm_value, arm_label));
            arm_labels.push(arm_label);
            i = i + 1;
        }
        let ghost s1 = *self;
        proof {
            Self::lemma_flow_code(&s0, &s1, p, base);
        }
        self.gen_expression(&switch_statement.value);
        let ghost s2 = *self;
        proof {
            Self::lemma_flow_code(&s1, &s2, nothing(), base);
            Self::lemma_flow_extend(&s0, &s1, &s2, p, nothing(), true, base, base);
        }
        let ghost table = options@;
        self.jump_table(default_label, options);
        let ghost s3 = *self;
        proof {
            assert forall|q: int| 0 <= q < table.len() implies p((#[trigger] table[q]).1) by {}
            assert(reloc_labels(s3.relocations@.last(), s3.admitted(p)));
            assert(s3.flow(&s2, p, true, base));
            Self::lemma_flow_extend(&s0, &s2, &s3, p, p, true, base, base);
            assert forall|l: usize| base <= l < base + 2 + n implies !(#[trigger] s3.placed(l)) by {}
            assert(arms.take(0) =~= Seq::<tast::SwitchArm>::empty());
        }
        let ghost pc = s2.instructions@.len() as int;
        let ghost k = s2.relocations@.len() as int;
        let ghost mut bounds: Seq<int> = seq![pc + 1];
        let ghost mut jr: Seq<int> = Seq::empty();
        let mut j: usize = 0;
        while j < switch_statement.arms.len()
            invariant
                j <= n,
                n == switch_statement.arms@.len(),
                arms == switch_statement.arms@,
                self.flow(&s0, p, false, base),
                self.loop_stack@ == stack,
                self.id_counter == base + 2 + n + arms_labels(arms.take(j as int)),
                forall|l: usize| base <= l < base + 2 + n ==> (#[trigger] self.placed(l) <==> base + 2 <= l < base + 2 + j),
                arm_labels@.len() == n,
                forall|q: int| 0 <= q < n ==> #[trigger] arm_labels@[q] == base + 2 + q,
                final_label == base,
                default_label == base + 1,
                arms_ok(s0.type_ids.keys(), s0.index_map.keys(), s0.defs(), in_loop, arms),
                base + switch_labels(*switch_statement) <= usize::MAX,
                in_loop == (stack.len() > 0),
                p == within(stack, base, base + 2 + n),
                pc == s2.instructions@.len(),
                k == s2.relocations@.len(),
                k < self.relocations@.len(),
                self.relocations@[k] == s3.relocations@[k],
                bounds.len() == j + 1,
                jr.len() == j,
                bounds[0] == pc + 1,
                self.instructions@.len() == bounds[j as int],
                forall|q: int|
                    0 <= q < j ==> self.pos((base + 2 + q) as usize) == bounds[q] && bounds[q] < bounds[q + 1] && 0
                        <= #[trigger] jr[q] < self.relocations@.len() && self.relocations@[jr[q]] == (Relocation::Jump {
                        pc: (bounds[q + 1] - 1) as usize,
                        label: final_label,
                    }),
            decreases n - j,
        {
            proof {
                lemma_arms_parts(s0.type_ids.keys(), s0.index_map.keys(), s0.defs(), in_loop, arms, j as int);
                lemma_arms_labels_step(arms, j as int);
                assert(decreases_to!(*switch_statement => switch_statement.arms));
                assert(decreases_to!(switch_statement.arms => switch_statement.arms@));
                assert(decreases_to!(switch_statement.arms@ => switch_statement.arms@[j as int]));
                assert(decreases_to!(switch_statement.arms@[j as int] => switch_statement.arms@[j as int].body));
            }
            let ghost t0 = *self;
            let arm_label = arm_labels[j];
            assert(arm_label == base + 2 + j);
            self.set_label(arm_label);
            let ghost t1 = *self;
            proof {
                assert forall|l: usize| base <= l < base + 2 + n implies (#[trigger] t1.placed(l) <==> base + 2 <= l < base + 2 + j + 1) by {
                    if l != arm_label {
                        assert(t1.label_map.lookup(l) == t0.label_map.lookup(l));
                        assert(t0.placed(l) <==> base + 2 <= l < base + 2 + j);
                    }
                }
                Self::lemma_flow_label(&t0, &t1, arm_label, nothing(), base);
                Self::lemma_flow_extend(&s0, &t0, &t1, p, nothing(), false, base, base);
            }
            self.gen_block(&switch_statement.arms[j].body);
            let ghost t2 = *self;
            proof {
                Self::lemma_flow_extend(&s0, &t1, &t2, p, within(stack, 0, 0), true, t1.id_counter as int, base);
                assert forall|l: usize| base <= l < base + 2 + n implies (#[trigger] t2.placed(l) <==> t1.placed(l)) by {
                    Self::lemma_flow_kept(&t1, &t2, within(stack, 0, 0), true, t1.id_counter as int, l);
                }
            }
            self.jump(final_label);
            proof {
                let ghost t3 = *self;
                Self::lemma_flow_jump(&t2, &t3, final_label, p, base);
                Self::lemma_flow_extend(&s0, &t2, &t3, p, p, true, base, base);
                assert forall|l: usize| base <= l < base + 2 + n implies (#[trigger] t3.placed(l) <==> base + 2 <= l
                    < base + 2 + j + 1) by {
                    assert(t2.placed(l) <==> t1.placed(l));
                    assert(t1.placed(l) <==> base + 2 <= l < base + 2 + j + 1);
                    assert(t3.label_map.lookup(l) == t2.label_map.lookup(l));
                }
                assert(!t2.placed(final_label)) by {
                    assert(t2.placed(final_label) <==> t1.placed(final_label));
                }
                assert(t3.relocations@ == t2.relocations@.push(
                    Relocation::Jump { pc: t2.instructions.len() as usize, label: final_label },
                ));
                let ghost nb = bounds.push(t3.instructions@.len() as int);
                let ghost nj = jr.push(t2.relocations@.len() as int);
                assert(t3.relocations@[k] == s3.relocations@[k]) by {
                    assert(t2.relocations@[k] == t1.relocations@[k]);
                }
                assert forall|q: int|
                    0 <= q < j + 1 implies t3.pos((base + 2 + q) as usize) == nb[q] && nb[q] < nb[q + 1] && 0
                        <= #[trigger] nj[q] < t3.relocations@.len() && t3.relocations@[nj[q]] == (Relocation::Jump {
                        pc: (nb[q + 1] - 1) as usize,
                        label: final_label,
                    }) by {
                    let l = (base + 2 + q) as usize;
                    if q < j {
                        assert(0 <= jr[q] < t0.relocations@.len());
                        assert(t0.pos(l) == bounds[q]);
                        assert(jr[q] == nj[q]);
                        assert(bounds[q] == nb[q] && bounds[q + 1] == nb[q + 1]);
                        assert(t0.placed(l));
                        assert(t1.label_map.lookup(l) == t0.label_map.lookup(l));
                        assert(t1.placed(l));
                        assert(t2.label_map.lookup(l) == t1.label_map.lookup(l));
                        assert(t2.relocations@[jr[q]] == t1.relocations@[jr[q]]);
                        assert(t3.pos(l) == nb[q]);
                        assert(nb[q] < nb[q + 1]);
                        assert(t3.relocations@[nj[q]] == t0.relocations@[jr[q]]);
                    } else {
                        assert(l == arm_label);
                        assert(t1.placed(l));
                        assert(t2.label_map.lookup(l) == t1.label_map.lookup(l));
                        assert(t3.pos(l) == bounds[j as int]);
                        assert(nb[q] == bounds[j as int]);
                        assert(nb[q + 1] == t3.instructions@.len());
                        assert(t2.instructions@.len() >= t1.instructions@.len());
                        assert(nb[q] < nb[q + 1]);
                        assert(nj[q] == t2.relocations@.len());
                        assert(t3.relocations@[nj[q]] == (Relocation::Jump { pc: t2.instructions.len() as usize, label: final_label }));
                    }
                }
                bounds = nb;
                jr = nj;
            }
            j = j + 1;
        }
        proof {
            assert(arms.take(n) =~= arms);
        }
        let ghost u0 = *self;
        self.set_label(default_label);
        let ghost u1 = *self;
        proof {
            Self::lemma_flow_label(&u0, &u1, default_label, nothing(), base);
            Self::lemma_flow_extend(&s0, &u0, &u1, p, nothing(), false, base, base);
            assert(decreases_to!(*switch_statement => switch_statement.default));
        }
        self.gen_block(&switch_statement.default);
        let ghost u2 = *self;
        proof {
            Self::lemma_flow_extend(&s0, &u1, &u2, p, within(stack, 0, 0), true, u1.id_counter as int, base);
            assert forall|l: usize| base <= l < base + 2 + n implies (#[trigger] u2.placed(l) <==> u1.placed(l)) by {
                Self::lemma_flow_kept(&u1, &u2, within(stack, 0, 0), true, u1.id_counter as int, l);
            }
        }
        self.jump(final_label);
        let ghost u3 = *self;
        proof {
            assert(!u0.placed(final_label));
            assert(u1.label_map.lookup(final_label) == u0.label_map.lookup(final_label));
            assert(!u1.placed(final_label));
            assert(!u2.placed(final_label));
            assert(!u3.placed(final_label));
            Self::lemma_flow_jump(&u2, &u3, final_label, p, base);
            Self::lemma_flow_extend(&s0, &u2, &u3, p, p, true, base, base);
        }
        self.set_label(final_label);
        let ghost u4 = *self;
        proof {
            Self::lemma_flow_label(&u3, &u4, final_label, nothing(), base);
            Self::lemma_flow_extend(&s0, &u3, &u4, p, nothing(), false, base, base);
        }
        self.emit(Instruction::Nop);
        proof {
            let ghost u5 = *self;
            Self::lemma_flow_code(&u4, &u5, nothing(), base);
            assert forall|l: usize| base <= l < base + 2 + n implies #[trigger] u5.placed(l) by {
                if l != final_label {
                    if l != default_label {
                        assert(u0.placed(l));
                        assert(u1.label_map.lookup(l) == u0.label_map.lookup(l));
                    }
                    assert(u1.placed(l));
                    assert(u2.placed(l));
                    assert(u3.placed(l));
                    assert(u4.label_map.lookup(l) == u3.label_map.lookup(l));
                }
                assert(u4.placed(l));
                Self::lemma_flow_kept(&u4, &u5, nothing(), true, base, l);
            }
            Self::lemma_flow_finish(&s0, &u4, &u5, p, within(stack, 0, 0), base);
            assert forall|jj: int| 0 <= jj < n implies (#[trigger] table[jj]).0 == arm_values(arms)[jj] && table[jj].1 == base + 2 + jj by {}
            Self::lemma_switch_layout(&u0, &u1, &u2, &u3, &u5, table, arm_values(arms), bounds, jr, base, pc, k, within(stack, 0, 0), u1.id_counter as int);
        }
    }

    /// Emit a single instruction.
    fn emit(&mut self, instruction: Instruction)
        requires
            jump_in_range(instruction, old(self).instructions.len() as int + 1),
            old(self).wf(),
        ensures
            final(self).wf(),
            final(self).instructions@ == old(self).instructions@.push(instruction),
            final(self).id_counter == old(self).id_counter,
            final(self).label_map == old(self).label_map,
            final(self).relocations == old(self).relocations,
            final(self).loop_stack == old(self).loop_stack,
            final(self).types == old(self).types,
            final(self).type_ids == old(self).type_ids,
            final(self).structs == old(self).structs,
            final(self).index_map == old(self).index_map,
            final(self).imports == old(self).imports,
            final(self).imported == old(self).imported,
            final(self).functions == old(self).functions,
    {
        proof {
            lemma_jumps_in_range_push(self.instructions@, instruction);
        }
        self.instructions.push(instruction);
    }

    /// A new label: the value of the label counter, which then advances.
    fn new_label(&mut self) -> (label: usize)
        requires
            old(self).wf(),
            old(self).id_counter < usize::MAX,
        ensures
            final(self).wf(),
            label == old(self).id_counter,
            final(self).id_counter == old(self).id_counter + 1,
            !final(self).placed(label),
            final(self).instructions == old(self).instructions,
            final(self).label_map == old(self).label_map,
            final(self).relocations == old(self).relocations,
            final(self).loop_stack == old(self).loop_stack,
            final(self).types == old(self).types,
            final(self).type_ids == old(self).type_ids,
            final(self).structs == old(self).structs,
            final(self).index_map == old(self).index_map,
            final(self).imports == old(self).imports,
            final(self).imported == old(self).imported,
            final(self).functions == old(self).functions,
    {
        let x = self.id_counter;
        self.id_counter += 1;
        x
    }

    /// Place the label at the current instruction index.
    fn set_label(&mut self, label: usize)
        requires
            old(self).wf(),
            !old(self).placed(label),
            label < old(self).id_counter,
        ensures
            final(self).wf(),
            final(self).label_map.lookup(label) == Some(old(self).instructions.len() as usize),
            forall|l: usize| l != label ==> final(self).label_map.lookup(l) == old(self).label_map.lookup(l),
            final(self).instructions == old(self).instructions,
            final(self).id_counter == old(self).id_counter,
            final(self).relocations == old(self).relocations,
            final(self).loop_stack == old(self).loop_stack,
            final(self).types == old(self).types,
            final(self).type_ids == old(self).type_ids,
            final(self).structs == old(self).structs,
            final(self).index_map == old(self).index_map,
            final(self).imports == old(self).imports,
            final(self).imported == old(self).imported,
            final(self).functions == old(self).functions,
    {
        let current_pc = self.instructions.len();
        self.label_map.insert(label, current_pc);
    }

    /// Jump to the label: directly if it is placed, else through a relocation.
    fn jump(&mut self, label: usize)
        requires
            old(self).wf(),
        ensures
            final(self).wf(),
            final(self).instructions@.len() == old(self).instructions@.len() + 1,
            final(self).instructions@.take(old(self).instructions@.len() as int) == old(self).instructions@,
            final(self).relocations@.len() >= old(self).relocations@.len(),
            final(self).relocations@.take(old(self).relocations@.len() as int) == old(self).relocations@,
            forall|i: int| old(self).relocations@.len() <= i < final(self).relocations@.len() ==> reloc_labels(
                #[trigger] final(self).relocations@[i],
                |l: usize| l == label,
            ) && reloc_pc(final(self).relocations@[i]) >= old(self).instructions@.len(),
            !old(self).placed(label) ==> final(self).relocations@ == old(self).relocations@.push(
                Relocation::Jump { pc: old(self).instructions.len() as usize, label },
            ),
            old(self).placed(label) ==> final(self).instructions@.last() == Instruction::Jump(
                old(self).label_map.lookup(label).unwrap(),
            ) && final(self).relocations@ == old(self).relocations@,
            final(self).id_counter == old(self).id_counter,
            final(self).label_map == old(self).label_map,
            final(self).loop_stack == old(self).loop_stack,
            final(self).types == old(self).types,
            final(self).type_ids == old(self).type_ids,
            final(self).structs == old(self).structs,
            final(self).index_map == old(self).index_map,
            final(self).imports == old(self).imports,
            final(self).imported == old(self).imported,
            final(self).functions == old(self).functions,
    {
        match self.label_map.get(label) {
            Some(dest) => {
                self.emit(Instruction::Jump(dest));
                assert(self.relocations@.take(old(self).relocations@.len() as int) =~= self.relocations@);
            },
            None => {
                let pc = self.instructions.len();
                self.emit(Instruction::Nop);
                self.relocations.push(Relocation::Jump { pc, label });
                assert(self.relocations@.take(old(self).relocations@.len() as int) =~= old(self).relocations@);
            },
        }
        assert(self.instructions@.take(old(self).instructions@.len() as int) =~= old(self).instructions@);
    }

    /// Jump to one of two labels, as the value on top of the stack is true or false.
    fn jump_if(&mut self, true_label: usize, false_label: usize)
        requires
            old(self).wf(),
        ensures
            final(self).wf(),
            final(self).instructions@ == old(self).instructions@.push(Instruction::Nop),
            final(self).relocations@ == old(self).relocations@.push(
                Relocation::JumpIf { pc: old(self).instructions.len() as usize, true_label, false_label },
            ),
            final(self).id_counter == old(self).id_counter,
            final(self).label_map == old(self).label_map,
            final(self).loop_stack == old(self).loop_stack,
            final(self).types == old(self).types,
            final(self).type_ids == old(self).type_ids,
            final(self).structs == old(self).structs,
            final(self).index_map == old(self).index_map,
            final(self).imports == old(self).imports,
            final(self).imported == old(self).imported,
            final(self).functions == old(self).functions,
    {
        let pc = self.instructions.len();
        self.emit(Instruction::Nop);
        self.relocations.push(Relocation::JumpIf { pc, true_label, false_label });
    }

    /// Jump to the label of the option whose value is on top of the stack, or to `default`.
    fn jump_table(&mut self, default: usize, options: Vec<(i64, usize)>)
        requires
            old(self).wf(),
        ensures
            final(self).wf(),
            final(self).instructions@ == old(self).instructions@.push(Instruction::Nop),
            final(self).relocations@ == old(self).relocations@.push(
                Relocation::JumpSwitch { pc: old(self).instructions.len() as usize, default, options },
            ),
            final(self).id_counter == old(self).id_counter,
            final(self).label_map == old(self).label_map,
            final(self).loop_stack == old(self).loop_stack,
            final(self).types == old(self).types,
            final(self).type_ids == old(self).type_ids,
            final(self).structs == old(self).structs,
            final(self).index_map == old(self).index_map,
            final(self).imports == old(self).imports,
            final(self).imported == old(self).imported,
            final(self).functions == old(self).functions,
    {
        let pc = self.instructions.len();
        self.emit(Instruction::Nop);
        self.relocations.push(Relocation::JumpSwitch { pc, default, options });
    }

    /// The instruction index of a placed label.
    fn get_jump_dest(&self, label: usize) -> (dst: usize)
        requires
            self.placed(label),
            self.label_map.lookup(label).unwrap() < self.instructions.len(),
        ensures
            dst == self.label_map.lookup(label).unwrap(),
    {
        match self.label_map.get(label) {
            Some(dst) => dst,
            None => 0,
        }
    }

    /// Patch every relocation with the index of its labels.
    fn resolve_relocations(&mut self)
        requires
            old(self).wf(),
            forall|i: int| 0 <= i < old(self).relocations.len() ==> reloc_labels(
                #[trigger] old(self).relocations@[i],
                old(self).resolvable(),
            ),
        ensures
            final(self).wf(),
            final(self).relocations@.len() == 0,
            final(self).instructions@.len() == old(self).instructions@.len(),
            forall|i: int| 0 <= i < old(self).instructions@.len() && terminator(old(self).instructions@[i]) ==> terminator(
                #[trigger] final(self).instructions@[i],
            ),
            forall|i: int| 0 <= i < old(self).instructions@.len() && !(exists|k: int| 0 <= k < old(self).relocations@.len()
                && reloc_pc(#[trigger] old(self).relocations@[k]) == i) ==> final(self).instructions@[i]
                == old(self).instructions@[i],
            final(self).id_counter == old(self).id_counter,
            final(self).label_map == old(self).label_map,
            final(self).loop_stack == old(self).loop_stack,
            final(self).types == old(self).types,
            final(self).type_ids == old(self).type_ids,
            final(self).structs == old(self).structs,
            final(self).index_map == old(self).index_map,
            final(self).imports == old(self).imports,
            final(self).imported == old(self).imported,
            final(self).functions == old(self).functions,
    {
        let n = self.relocations.len();
        let mut k: usize = 0;
        while k < n
            invariant
                n == self.relocations@.len(),
                k <= n,
                self.relocations == old(self).relocations,
                self.label_map == old(self).label_map,
                self.wf(),
                self.instructions@.len() == old(self).instructions@.len(),
                forall|i: int| 0 <= i < old(self).instructions@.len() && terminator(old(self).instructions@[i]) ==> terminator(
                    #[trigger] self.instructions@[i],
                ),
                forall|i: int| 0 <= i < old(self).instructions@.len() && !(exists|k2: int| 0 <= k2 < k
                    && reloc_pc(#[trigger] old(self).relocations@[k2]) == i) ==> self.instructions@[i]
                    == old(self).instructions@[i],
                forall|i: int| 0 <= i < old(self).relocations.len() ==> reloc_labels(
                    #[trigger] old(self).relocations@[i],
                    old(self).resolvable(),
                ),
                self.id_counter == old(self).id_counter,
                self.loop_stack == old(self).loop_stack,
                self.types == old(self).types,
                self.type_ids == old(self).type_ids,
                self.structs == old(self).structs,
                self.index_map == old(self).index_map,
                self.imports == old(self).imports,
                self.imported == old(self).imported,
                self.functions == old(self).functions,
            decreases n - k,
        {
            let ghost r = self.relocations@[k as int];
            assert(reloc_labels(
                r,
                old(self).resolvable(),
            ));
            let len = self.instructions.len();
            let (pc, patched) = match &self.relocations[k] {
                Relocation::Jump { pc, label } => {
                    let target = self.get_jump_dest(*label);
                    (*pc, Instruction::Jump(target))
                },
                Relocation::JumpIf { pc, true_label, false_label } => {
                    let true_index = self.get_jump_dest(*true_label);
                    let false_index = self.get_jump_dest(*false_label);
                    (*pc, Instruction::JumpIf(true_index, false_index))
                },
                Relocation::JumpSwitch { pc, default, options } => {
                    let default = self.get_jump_dest(*default);
                    let mut resolved: Vec<(i64, usize)> = Vec::new();
                    let mut j: usize = 0;
                    while j < options.len()
                        invariant
                            j <= options@.len(),
                            resolved@.len() == j,
                            forall|q: int| 0 <= q < j ==> #[trigger] resolved@[q].1 < len,
                            forall|q: int| 0 <= q < options@.len() ==> old(self).placed(
                                #[trigger] options@[q].1,
                            ) && old(self).label_map.lookup(options@[q].1).unwrap() < len,
                            self.label_map == old(self).label_map,
                            len == self.instructions.len(),
                            len == old(self).instructions.len(),
                        decreases options@.len() - j,
                    {
                        let (v, t) = options[j];
                        let target = self.get_jump_dest(t);
                        resolved.push((v, target));
                        j = j + 1;
                    }
                    (*pc, Instruction::JumpSwitch { default, options: resolved })
                },
            };
            proof {
                lemma_jump_patch(self.instructions@, pc as int, patched);
                assert(terminator(patched));
            }
            self.instructions.set(pc, patched);
            assert(pc == reloc_pc(old(self).relocations@[k as int]));
            k = k + 1;
        }
        self.relocations.clear();
    }
}

pub proof fn lemma_defs_labels_prefix(defs: Seq<tast::Definition>, i: int)
    requires
        0 <= i <= defs.len(),
    ensures
        defs_labels(defs.take(i)) <= defs_labels(defs),
    decreases defs.len(),
{
    if i < defs.len() {
        lemma_defs_labels_prefix(defs.drop_last(), i);
        assert(defs.drop_last().take(i) =~= defs.take(i));
    } else {
        assert(defs.take(i) =~= defs);
    }
}

pub proof fn lemma_all_labels_prefix(progs: Seq<tast::Program>, k: int)
    requires
        0 <= k <= progs.len(),
    ensures
        all_labels(progs.take(k)) <= all_labels(progs),
    decreases progs.len(),
{
    if k < progs.len() {
        lemma_all_labels_prefix(progs.drop_last(), k);
        assert(progs.drop_last().take(k) =~= progs.take(k));
    } else {
        assert(progs.take(k) =~= progs);
    }
}

/// Compile typed programs into one bytecode program. Each function of the
/// programs, in order, becomes one function of the result, with its name,
/// parameters and locals, and code that ends with a return or a jump and
/// whose jumps stay inside it; each external function is imported once.
pub fn generate_bytecode(progs: &[tast::Program]) -> (p: bytecode::Program)
    requires
        progs_ok(progs@),
        all_labels(progs@) <= usize::MAX,
    ensures
        p.functions@.len() == all_fns(progs@).len(),
        forall|i: int| 0 <= i < p.functions@.len() ==> compiled_fn(all_fns(progs@)[i], #[trigger] p.functions@[i]),
        imports_distinct(p.imports@),
{
    let mut generator = Generator::new();
    let mut k: usize = 0;
    proof {
        assert(progs@.take(0) =~= Seq::<tast::Program>::empty());
        assert(generator.type_ids.keys() =~= struct_ids(Seq::<tast::StructDef>::empty()));
        assert(generator.defs() =~= Seq::<tast::StructDef>::empty());
    }
    while k < progs.len()
        invariant
            k <= progs@.len(),
            generator.idle(),
            generator.ids_ok(),
            generator.type_ids.keys() == struct_ids(all_structs(progs@.take(k as int))),
            generator.defs() == all_structs(progs@.take(k as int)),
            generator.id_counter == all_labels(progs@.take(k as int)),
            generator.functions@.len() == all_fns(progs@.take(k as int)).len(),
            forall|i: int| 0 <= i < generator.functions@.len() ==> compiled_fn(
                all_fns(progs@.take(k as int))[i],
                #[trigger] generator.functions@[i],
            ),
            progs_ok(progs@),
            all_labels(progs@) <= usize::MAX,
        decreases progs@.len() - k,
    {
        proof {
            lemma_progs_step(progs@, k as int);
            lemma_all_labels_prefix(progs@, k as int + 1);
            lemma_struct_ids_append(all_structs(progs@.take(k as int)), struct_defs(progs@[k as int].definitions@));
            assert(defs_ok(
                struct_ids(all_structs(progs@.take(k + 1))),
                all_structs(progs@.take(k + 1)),
                progs@[k as int].definitions@,
            ));
        }
        let ghost before = generator;
        generator.gen_prog(&progs[k]);
        proof {
            let fs = all_fns(progs@.take(k + 1));
            let n0 = before.functions@.len();
            assert forall|i: int| 0 <= i < generator.functions@.len() implies compiled_fn(
                fs[i],
                #[trigger] generator.functions@[i],
            ) by {
                if i < n0 {
                    assert(fs[i] == all_fns(progs@.take(k as int))[i]);
                    assert(generator.functions@[i] == before.functions@[i]);
                } else {
                    let q = i - n0;
                    assert(fs[i] == fn_defs(progs@[k as int].definitions@)[q]);
                    assert(compiled(generator.type_ids, fn_defs(progs@[k as int].definitions@)[q], generator.functions@[n0 + q]));
                }
            }
        }
        k = k + 1;
    }
    proof {
        assert(progs@.take(progs@.len() as int) =~= progs@);
    }
    generator.take_program()
}

/// Replacing an instruction by a jump into the code keeps all jumps in range.
pub proof fn lemma_jump_patch(code: Seq<Instruction>, pc: int, i: Instruction)
    requires
        jumps_in_range(code),
        0 <= pc < code.len(),
        jump_in_range(i, code.len() as int),
    ensures
        jumps_in_range(code.update(pc, i)),
{
    assert forall|k: int| 0 <= k < code.update(pc, i).len() implies jump_in_range(
        #[trigger] code.update(pc, i)[k],
        code.update(pc, i).len() as int,
    ) by {
        if k != pc {
            assert(jump_in_range(code[k], code.len() as int));
        }
    }
}

} // verus!
