//! What the type checker asks of a program, and what it promises of the
//! program it leaves behind.

use crate::ast::{BinaryOperator, MathOperator};
use crate::tast::type_system::{attr_ty, def_infos, info_of, struct_field_tys, subst, subst_all, table_wf, tys, ty_wf, DefInfo, DefKind, Ty};
use crate::tast::{
    CaseArm, EnumType, VariantRef, BasicType, Block, ClassDef, Definition, Expression, FieldDef, FunctionDef, ExpressionKind, LocalVariable, Literal, Parameter, Statement, StatementKind,
    SwitchArm, Symbol,
};
use vstd::prelude::*;

verus! {

pub open spec fn int_ty() -> Ty {
    Ty::Basic(BasicType::Int)
}

pub open spec fn bool_ty() -> Ty {
    Ty::Basic(BasicType::Bool)
}

pub open spec fn float_ty() -> Ty {
    Ty::Basic(BasicType::Float)
}

pub open spec fn literal_ty(l: Literal) -> Ty {
    match l {
        Literal::Bool(_) => bool_ty(),
        Literal::Integer(_) => int_ty(),
        Literal::String(_) => Ty::Basic(BasicType::String),
        Literal::Float(_) => float_ty(),
    }
}

pub open spec fn has_param(params: Seq<usize>, id: usize) -> bool {
    params.contains(id)
}

/// The node ids of the parameters.
pub open spec fn param_ids(params: Seq<Parameter>) -> Seq<usize> {
    params.map_values(|p: Parameter| p.name.id)
}

pub open spec fn has_local(locals: Seq<usize>, id: usize) -> bool {
    locals.contains(id)
}

/// The node ids of the local variables.
pub open spec fn local_ids(locals: Seq<LocalVariable>) -> Seq<usize> {
    locals.map_values(|l: LocalVariable| l.name.id)
}

// ---------------------------------------------------------------------------
// Enums.

/// The value of an enum type.
pub open spec fn enum_ty(et: EnumType) -> Ty {
    Ty::Enum(et.enum_id as nat, tys(et.type_arguments@))
}

/// The number of variants of an enum type.
pub open spec fn variant_count(tab: Seq<DefInfo>, t: Ty) -> nat {
    match t {
        Ty::Enum(id, _) => info_of(tab, id, DefKind::Enum)->0.variants.len(),
        _ => 0,
    }
}

/// The types of the payload of variant `v` of an enum type, with its type
/// arguments put in.
pub open spec fn variant_data_tys(tab: Seq<DefInfo>, t: Ty, v: int) -> Seq<Ty> {
    match t {
        Ty::Enum(id, args) => {
            let d = info_of(tab, id, DefKind::Enum)->0;
            subst_all(d.params, args, d.variants[v].1)
        },
        _ => Seq::empty(),
    }
}

/// The position of the first variant named `name`.
pub open spec fn first_variant(vs: Seq<(Seq<char>, Seq<Ty>)>, name: Seq<char>) -> Option<int>
    decreases vs.len(),
{
    if vs.len() == 0 {
        None
    } else if vs[0].0 == name {
        Some(0)
    } else {
        match first_variant(vs.drop_first(), name) {
            Some(k) => Some(k + 1),
            None => None,
        }
    }
}

/// An arm of a case statement can be checked: it names its variant, names
/// locals that exist, and its body can be checked.
pub open spec fn case_arm_wf(tab: Seq<DefInfo>, params: Seq<usize>, locals: Seq<usize>, arm: CaseArm) -> bool {
    &&& arm.variant is Name
    &&& forall|j: int| 0 <= j < arm.local_ids@.len() ==> has_local(locals, #[trigger] arm.local_ids@[j])
    &&& bwf(tab, params, locals, arm.body@)
}

// ---------------------------------------------------------------------------
// What the checker asks of its input.

/// The expression can be checked: its types are well formed, it names
/// parameters and locals that exist, and it holds none of the constructs that
/// earlier passes remove (object initializers, unresolved names, loaded types,
/// fields or enum variants) nor an enum literal or a bit operation.
pub open spec fn ewf(tab: Seq<DefInfo>, params: Seq<usize>, locals: Seq<usize>, e: Expression) -> bool
    decreases e,
{
    &&& ty_wf(tab, e.typ.ty())
    &&& match e.kind {
        ExpressionKind::Undefined | ExpressionKind::Literal(_) => true,
        ExpressionKind::TupleLiteral { typ, values } => {
            &&& typ.ty() matches Ty::Struct(id, _)
            &&& ty_wf(tab, typ.ty())
            &&& info_of(tab, id, DefKind::Struct)->0.fields.len() == values@.len()
            &&& ewf_all(tab, params, locals, values@)
        },
        ExpressionKind::UnionLiteral { value, .. } => e.typ.ty() is Union && ewf(tab, params, locals, *value),
        ExpressionKind::ListLiteral(values) => values@.len() > 0 && ewf_all(tab, params, locals, values@),
        ExpressionKind::EnumLiteral { enum_type, variant, arguments } => {
            &&& ty_wf(tab, enum_ty(enum_type))
            &&& variant < variant_count(tab, enum_ty(enum_type))
            &&& ewf_all(tab, params, locals, arguments@)
        },
        ExpressionKind::LoadSymbol(sym) => match sym {
            Symbol::Function { typ, .. } => ty_wf(tab, typ.ty()),
            Symbol::ExternFunction { typ, .. } => ty_wf(tab, typ.ty()),
            Symbol::Parameter(id) => has_param(params, id),
            Symbol::LocalVariable(id) => has_local(locals, id),
            Symbol::Module | Symbol::Definition(_) => true,
            _ => false,
        },
        ExpressionKind::Call { callee, arguments } => {
            &&& match callee.kind {
                ExpressionKind::LoadSymbol(Symbol::Typ(t)) => ty_wf(tab, t.ty()),
                _ => ewf(tab, params, locals, *callee),
            }
            &&& ewf_all(tab, params, locals, arguments@)
        },
        ExpressionKind::TypeCast { to_type, value } => ty_wf(tab, to_type.ty()) && ewf(tab, params, locals, *value),
        ExpressionKind::GetAttr { base, .. } => ewf(tab, params, locals, *base),
        ExpressionKind::GetIndex { base, index } => ewf(tab, params, locals, *base) && ewf(
            tab,
            params,
            locals,
            *index,
        ),
        ExpressionKind::Binop { lhs, op, rhs } => !(op is Bit) && ewf(tab, params, locals, *lhs) && ewf(
            tab,
            params,
            locals,
            *rhs,
        ),
        _ => false,
    }
}

pub open spec fn ewf_all(tab: Seq<DefInfo>, params: Seq<usize>, locals: Seq<usize>, s: Seq<Expression>) -> bool
    decreases s,
{
    if s.len() == 0 {
        true
    } else {
        ewf(tab, params, locals, s[0]) && ewf_all(tab, params, locals, s.drop_first())
    }
}

/// The statement can be checked: its expressions can, the types it names are
/// well formed, the locals it names exist, and it is no enum case statement.
pub open spec fn swf(tab: Seq<DefInfo>, params: Seq<usize>, locals: Seq<usize>, s: Statement) -> bool
    decreases s,
{
    match s.kind {
        StatementKind::Expression(e) => ewf(tab, params, locals, e),
        StatementKind::Let { local_id, type_hint, value } => {
            &&& has_local(locals, local_id)
            &&& match type_hint {
                Some(h) => ty_wf(tab, h.ty()),
                None => true,
            }
            &&& ewf(tab, params, locals, value)
        },
        StatementKind::Assignment { target, value } => ewf(tab, params, locals, target) && ewf(
            tab,
            params,
            locals,
            value,
        ),
        StatementKind::StoreLocal { local_id, value } => has_local(locals, local_id) && ewf(
            tab,
            params,
            locals,
            value,
        ),
        StatementKind::SetAttr { base, value, .. } => ewf(tab, params, locals, base) && ewf(
            tab,
            params,
            locals,
            value,
        ),
        StatementKind::SetIndex { base, index, value } => {
            &&& ewf(tab, params, locals, base)
            &&& ewf(tab, params, locals, index)
            &&& ewf(tab, params, locals, value)
        },
        StatementKind::If(i) => {
            &&& ewf(tab, params, locals, i.condition)
            &&& bwf(tab, params, locals, i.if_true@)
            &&& match i.if_false {
                Some(b) => bwf(tab, params, locals, b@),
                None => true,
            }
        },
        StatementKind::Loop { body } => bwf(tab, params, locals, body@),
        StatementKind::Compound(body) => bwf(tab, params, locals, body@),
        StatementKind::While(w) => ewf(tab, params, locals, w.condition) && bwf(tab, params, locals, w.body@),
        StatementKind::For { loop_var, iterable, body } => {
            &&& has_local(locals, loop_var)
            &&& ewf(tab, params, locals, iterable)
            &&& bwf(tab, params, locals, body@)
        },
        StatementKind::Return { value } => match value {
            Some(v) => ewf(tab, params, locals, v),
            None => true,
        },
        StatementKind::Switch(sw) => {
            &&& ewf(tab, params, locals, sw.value)
            &&& armswf(tab, params, locals, sw.arms@)
            &&& bwf(tab, params, locals, sw.default@)
        },
        StatementKind::Case(cs) => ewf(tab, params, locals, cs.value) && case_arms_wf(tab, params, locals, cs.arms@),
        _ => true,
    }
}

pub open spec fn case_arms_wf(tab: Seq<DefInfo>, params: Seq<usize>, locals: Seq<usize>, arms: Seq<CaseArm>) -> bool
    decreases arms,
{
    if arms.len() == 0 {
        true
    } else {
        &&& arms[0].variant is Name
        &&& forall|j: int| 0 <= j < arms[0].local_ids@.len() ==> has_local(locals, #[trigger] arms[0].local_ids@[j])
        &&& bwf(tab, params, locals, arms[0].body@)
        &&& case_arms_wf(tab, params, locals, arms.drop_first())
    }
}

pub open spec fn bwf(tab: Seq<DefInfo>, params: Seq<usize>, locals: Seq<usize>, b: Seq<Statement>) -> bool
    decreases b,
{
    if b.len() == 0 {
        true
    } else {
        swf(tab, params, locals, b[0]) && bwf(tab, params, locals, b.drop_first())
    }
}

pub open spec fn armswf(tab: Seq<DefInfo>, params: Seq<usize>, locals: Seq<usize>, arms: Seq<SwitchArm>) -> bool
    decreases arms,
{
    if arms.len() == 0 {
        true
    } else {
        &&& ewf(tab, params, locals, arms[0].value)
        &&& bwf(tab, params, locals, arms[0].body@)
        &&& armswf(tab, params, locals, arms.drop_first())
    }
}

// ---------------------------------------------------------------------------
// What the checker promises.

/// Some part of the expression has an undefined type.
pub open spec fn has_undef(e: Expression) -> bool
    decreases e,
{
    ||| e.typ.ty() is Undefined
    ||| match e.kind {
        ExpressionKind::TupleLiteral { values, .. } => any_undef(values@),
        ExpressionKind::UnionLiteral { value, .. } => has_undef(*value),
        ExpressionKind::ListLiteral(values) => any_undef(values@),
        ExpressionKind::EnumLiteral { arguments, .. } => any_undef(arguments@),
        ExpressionKind::Call { callee, arguments } => has_undef(*callee) || any_undef(arguments@),
        ExpressionKind::TypeCast { value, .. } => has_undef(*value),
        ExpressionKind::GetAttr { base, .. } => has_undef(*base),
        ExpressionKind::GetIndex { base, index } => has_undef(*base) || has_undef(*index),
        ExpressionKind::Binop { lhs, rhs, .. } => has_undef(*lhs) || has_undef(*rhs),
        _ => false,
    }
}

pub open spec fn any_undef(s: Seq<Expression>) -> bool
    decreases s,
{
    if s.len() == 0 {
        false
    } else {
        has_undef(s[0]) || any_undef(s.drop_first())
    }
}

/// Each expression is well typed and has the type that the sequence gives
/// for its position, or has an undefined part.
pub open spec fn args_fit(tab: Seq<DefInfo>, types: Seq<Ty>, args: Seq<Expression>) -> bool
    decreases args,
{
    if args.len() == 0 {
        true
    } else {
        &&& (wt(tab, args[0]) && args[0].typ.ty() == types[0]) || has_undef(args[0])
        &&& args_fit(tab, types.drop_first(), args.drop_first())
    }
}

/// Each expression is well typed and has the type that the sequence gives
/// for its position.
pub open spec fn all_fit(tab: Seq<DefInfo>, types: Seq<Ty>, values: Seq<Expression>) -> bool
    decreases values,
{
    if values.len() == 0 {
        true
    } else {
        &&& wt(tab, values[0])
        &&& values[0].typ.ty() == types[0]
        &&& all_fit(tab, types.drop_first(), values.drop_first())
    }
}

/// The expression is well typed: each node carries the type that its parts
/// give it, operands agree with their operators, calls with the signature of
/// what they call.
pub open spec fn wt(tab: Seq<DefInfo>, e: Expression) -> bool
    decreases e,
{
    match e.kind {
        ExpressionKind::Undefined => true,
        ExpressionKind::Literal(l) => e.typ.ty() == literal_ty(l),
        ExpressionKind::TupleLiteral { typ, values } => {
            &&& e.typ.ty() == typ.ty()
            &&& all_fit(tab, struct_field_tys(tab, typ.ty()), values@)
        },
        ExpressionKind::UnionLiteral { attr, value } => {
            &&& wt(tab, *value)
            &&& attr_ty(tab, e.typ.ty(), attr@) == Some(value.typ.ty())
        },
        ExpressionKind::ListLiteral(values) => {
            &&& values@.len() > 0
            &&& all_fit(tab, Seq::new(values@.len(), |i: int| values@[0].typ.ty()), values@)
            &&& e.typ.ty() == Ty::Array(Box::new(values@[0].typ.ty()), values@.len())
        },
        ExpressionKind::EnumLiteral { enum_type, variant, arguments } => {
            &&& arguments@.len() == variant_data_tys(tab, enum_ty(enum_type), variant as int).len()
            &&& args_fit(tab, variant_data_tys(tab, enum_ty(enum_type), variant as int), arguments@)
            &&& e.typ.ty() == enum_ty(enum_type)
        },
        ExpressionKind::LoadSymbol(sym) => match sym {
            Symbol::Function { typ, .. } => e.typ.ty() == typ.ty(),
            Symbol::ExternFunction { typ, .. } => e.typ.ty() == typ.ty(),
            Symbol::Parameter(_) | Symbol::LocalVariable(_) => true,
            _ => false,
        },
        ExpressionKind::Call { callee, arguments } => match callee.kind {
            ExpressionKind::LoadSymbol(Symbol::Typ(t)) => t.ty() is Class && e.typ.ty() == t.ty(),
            _ => {
                &&& wt(tab, *callee)
                &&& callee.typ.ty() matches Ty::Function(ps, r)
                &&& arguments@.len() == ps.len()
                &&& args_fit(tab, ps, arguments@)
                &&& e.typ.ty() == match r {
                    Some(b) => *b,
                    None => Ty::Void,
                }
            },
        },
        ExpressionKind::TypeCast { to_type, value } => wt(tab, *value) && e.typ.ty() == to_type.ty(),
        ExpressionKind::GetAttr { base, attr } => {
            &&& wt(tab, *base)
            &&& attr_ty(tab, base.typ.ty(), attr@) == Some(e.typ.ty())
        },
        ExpressionKind::GetIndex { base, index } => {
            &&& wt(tab, *base)
            &&& wt(tab, *index)
            &&& base.typ.ty() matches Ty::Array(el, _)
            &&& index.typ.ty() == int_ty()
            &&& e.typ.ty() == *el
        },
        ExpressionKind::Binop { lhs, op, rhs } => {
            &&& wt(tab, *lhs)
            &&& wt(tab, *rhs)
            &&& match op {
                BinaryOperator::Comparison(_) => lhs.typ.ty() == rhs.typ.ty() && e.typ.ty() == bool_ty(),
                BinaryOperator::Math(m) => {
                    &&& lhs.typ.ty() == e.typ.ty()
                    &&& rhs.typ.ty() == e.typ.ty()
                    &&& (m == MathOperator::Div ==> e.typ.ty() != int_ty())
                },
                BinaryOperator::Logic(_) => {
                    &&& lhs.typ.ty() == bool_ty()
                    &&& rhs.typ.ty() == bool_ty()
                    &&& e.typ.ty() == bool_ty()
                },
                BinaryOperator::Bit(_) => false,
            }
        },
        _ => false,
    }
}

/// A condition: a well-typed expression of type `bool`.
pub open spec fn cond_wt(tab: Seq<DefInfo>, e: Expression) -> bool {
    wt(tab, e) && e.typ.ty() == bool_ty()
}

/// The statement is well typed, in a function with the given return type.
pub open spec fn wt_stmt(tab: Seq<DefInfo>, ret: Option<Ty>, s: Statement) -> bool
    decreases s,
{
    match s.kind {
        StatementKind::Expression(e) => wt(tab, e),
        StatementKind::Let { type_hint, value, .. } => wt(tab, value) && match type_hint {
            Some(h) => value.typ.ty() == h.ty(),
            None => true,
        },
        StatementKind::Assignment { target, value } => {
            &&& wt(tab, target)
            &&& wt(tab, value)
            &&& value.typ.ty() == target.typ.ty()
        },
        StatementKind::StoreLocal { value, .. } => wt(tab, value),
        StatementKind::SetAttr { base, value, .. } => wt(tab, base) && wt(tab, value),
        StatementKind::SetIndex { base, index, value } => wt(tab, base) && wt(tab, index) && wt(tab, value),
        StatementKind::If(i) => {
            &&& cond_wt(tab, i.condition)
            &&& block_fine(tab, ret, i.if_true@)
            &&& match i.if_false {
                Some(b) => block_fine(tab, ret, b@),
                None => true,
            }
        },
        StatementKind::Loop { body } => block_fine(tab, ret, body@),
        StatementKind::Compound(body) => block_fine(tab, ret, body@),
        StatementKind::While(w) => cond_wt(tab, w.condition) && block_fine(tab, ret, w.body@),
        StatementKind::For { iterable, body, .. } => {
            &&& wt(tab, iterable)
            &&& iterable.typ.ty() is Array
            &&& block_fine(tab, ret, body@)
        },
        StatementKind::Return { value } => match (value, ret) {
            (Some(v), Some(r)) => wt(tab, v) && v.typ.ty() == r,
            (None, None) => true,
            _ => false,
        },
        StatementKind::Switch(sw) => {
            &&& wt(tab, sw.value)
            &&& sw.value.typ.ty() == int_ty()
            &&& arms_fine(tab, ret, sw.arms@)
            &&& block_fine(tab, ret, sw.default@)
        },
        StatementKind::Case(cs) => {
            &&& wt(tab, cs.value)
            &&& cs.value.typ.ty() is Enum
            &&& case_arms_fine(tab, ret, cs.value.typ.ty(), cs.arms@)
            &&& forall|j: int, k: int| 0 <= j < k < cs.arms@.len() ==> (#[trigger] cs.arms@[j]).variant != (#[trigger] cs.arms@[k]).variant
            &&& forall|v: int| 0 <= v < variant_count(tab, cs.value.typ.ty()) ==> #[trigger] has_arm_for(cs.arms@, v)
        },
        _ => true,
    }
}

/// Some expression of the statement itself (not of the blocks it holds) has
/// an undefined part.
pub open spec fn stmt_undef(s: Statement) -> bool {
    match s.kind {
        StatementKind::Expression(e) => has_undef(e),
        StatementKind::Let { value, .. } => has_undef(value),
        StatementKind::Assignment { target, value } => has_undef(target) || has_undef(value),
        StatementKind::StoreLocal { value, .. } => has_undef(value),
        StatementKind::SetAttr { base, value, .. } => has_undef(base) || has_undef(value),
        StatementKind::SetIndex { base, index, value } => has_undef(base) || has_undef(index) || has_undef(value),
        StatementKind::If(i) => has_undef(i.condition),
        StatementKind::While(w) => has_undef(w.condition),
        StatementKind::For { iterable, .. } => has_undef(iterable),
        StatementKind::Return { value } => match value {
            Some(v) => has_undef(v),
            None => false,
        },
        StatementKind::Case(cs) => has_undef(cs.value),
        StatementKind::Switch(sw) => has_undef(sw.value) || exists|i: int|
            0 <= i < sw.arms@.len() && has_undef(#[trigger] sw.arms@[i].value),
        _ => false,
    }
}

/// Each statement of the block is well typed, or was passed over because an
/// expression of its own has an undefined part.
pub open spec fn block_fine(tab: Seq<DefInfo>, ret: Option<Ty>, b: Seq<Statement>) -> bool
    decreases b,
{
    if b.len() == 0 {
        true
    } else {
        (wt_stmt(tab, ret, b[0]) || stmt_undef(b[0])) && block_fine(tab, ret, b.drop_first())
    }
}

/// Some arm is for variant `v`.
pub open spec fn has_arm_for(arms: Seq<CaseArm>, v: int) -> bool {
    exists|j: int| 0 <= j < arms.len() && (#[trigger] arms[j]).variant == VariantRef::Variant(v as usize)
}

/// Each arm of a case statement on a value of enum type `t` names a variant
/// of it, has a local for each part of its payload, and a body that is fine.
pub open spec fn case_arms_fine(tab: Seq<DefInfo>, ret: Option<Ty>, t: Ty, arms: Seq<CaseArm>) -> bool
    decreases arms,
{
    if arms.len() == 0 {
        true
    } else {
        &&& arms[0].variant matches VariantRef::Variant(v) && v < variant_count(tab, t)
            && arms[0].local_ids@.len() == variant_data_tys(tab, t, v as int).len()
        &&& block_fine(tab, ret, arms[0].body@)
        &&& case_arms_fine(tab, ret, t, arms.drop_first())
    }
}

pub open spec fn arms_fine(tab: Seq<DefInfo>, ret: Option<Ty>, arms: Seq<SwitchArm>) -> bool
    decreases arms,
{
    if arms.len() == 0 {
        true
    } else {
        &&& wt(tab, arms[0].value)
        &&& arms[0].value.typ.ty() == int_ty()
        &&& block_fine(tab, ret, arms[0].body@)
        &&& arms_fine(tab, ret, arms.drop_first())
    }
}


pub proof fn lemma_ewf_all(tab: Seq<DefInfo>, params: Seq<usize>, locals: Seq<usize>, s: Seq<Expression>)
    ensures
        ewf_all(tab, params, locals, s) <==> forall|i: int| 0 <= i < s.len() ==> ewf(tab, params, locals, #[trigger] s[i]),
    decreases s.len(),
{
    if s.len() > 0 {
        lemma_ewf_all(tab, params, locals, s.drop_first());
        if forall|i: int| 0 <= i < s.len() ==> ewf(tab, params, locals, #[trigger] s[i]) {
            assert forall|i: int| 0 <= i < s.len() - 1 implies ewf(tab, params, locals, #[trigger] s.drop_first()[i]) by {
                assert(ewf(tab, params, locals, s[i + 1]));
            }
        }
        if ewf_all(tab, params, locals, s) {
            assert forall|i: int| 0 <= i < s.len() implies ewf(tab, params, locals, #[trigger] s[i]) by {
                if i > 0 {
                    assert(s[i] == s.drop_first()[i - 1]);
                }
            }
        }
    }
}

pub proof fn lemma_any_undef(s: Seq<Expression>)
    ensures
        any_undef(s) <==> exists|i: int| 0 <= i < s.len() && has_undef(#[trigger] s[i]),
    decreases s.len(),
{
    if s.len() > 0 {
        lemma_any_undef(s.drop_first());
        if exists|i: int| 0 <= i < s.len() && has_undef(#[trigger] s[i]) {
            let i = choose|i: int| 0 <= i < s.len() && has_undef(#[trigger] s[i]);
            if i > 0 {
                assert(has_undef(s.drop_first()[i - 1]));
            }
        }
        if any_undef(s.drop_first()) {
            let i = choose|i: int| 0 <= i < s.drop_first().len() && has_undef(#[trigger] s.drop_first()[i]);
            assert(has_undef(s[i + 1]));
        }
    }
}

/// The expression fits the type, or has an undefined part.
pub open spec fn fits_or_undef(tab: Seq<DefInfo>, t: Ty, e: Expression) -> bool {
    (wt(tab, e) && e.typ.ty() == t) || has_undef(e)
}

pub proof fn lemma_args_fit(tab: Seq<DefInfo>, types: Seq<Ty>, s: Seq<Expression>)
    requires
        types.len() == s.len(),
    ensures
        args_fit(tab, types, s) <==> forall|i: int| 0 <= i < s.len() ==> fits_or_undef(tab, types[i], #[trigger] s[i]),
    decreases s.len(),
{
    if s.len() > 0 {
        lemma_args_fit(tab, types.drop_first(), s.drop_first());
        if forall|i: int| 0 <= i < s.len() ==> fits_or_undef(tab, types[i], #[trigger] s[i]) {
            assert forall|i: int| 0 <= i < s.len() - 1 implies fits_or_undef(tab, types.drop_first()[i], #[trigger] s.drop_first()[i]) by {
                assert(fits_or_undef(tab, types[i + 1], s[i + 1]));
            }
            assert(fits_or_undef(tab, types[0], s[0]));
        }
        if args_fit(tab, types, s) {
            assert forall|i: int| 0 <= i < s.len() implies fits_or_undef(tab, types[i], #[trigger] s[i]) by {
                if i > 0 {
                    assert(s[i] == s.drop_first()[i - 1]);
                    assert(types[i] == types.drop_first()[i - 1]);
                }
            }
        }
    }
}

/// The expression is well typed and fits the type.
pub open spec fn fits(tab: Seq<DefInfo>, t: Ty, e: Expression) -> bool {
    wt(tab, e) && e.typ.ty() == t
}

pub proof fn lemma_all_fit(tab: Seq<DefInfo>, types: Seq<Ty>, s: Seq<Expression>)
    requires
        types.len() == s.len(),
    ensures
        all_fit(tab, types, s) <==> forall|i: int| 0 <= i < s.len() ==> fits(tab, types[i], #[trigger] s[i]),
    decreases s.len(),
{
    if s.len() > 0 {
        lemma_all_fit(tab, types.drop_first(), s.drop_first());
        if forall|i: int| 0 <= i < s.len() ==> fits(tab, types[i], #[trigger] s[i]) {
            assert forall|i: int| 0 <= i < s.len() - 1 implies fits(tab, types.drop_first()[i], #[trigger] s.drop_first()[i]) by {
                assert(fits(tab, types[i + 1], s[i + 1]));
            }
            assert(fits(tab, types[0], s[0]));
        }
        if all_fit(tab, types, s) {
            assert forall|i: int| 0 <= i < s.len() implies fits(tab, types[i], #[trigger] s[i]) by {
                if i > 0 {
                    assert(s[i] == s.drop_first()[i - 1]);
                    assert(types[i] == types.drop_first()[i - 1]);
                }
            }
        }
    }
}


pub proof fn lemma_bwf(tab: Seq<DefInfo>, params: Seq<usize>, locals: Seq<usize>, b: Seq<Statement>)
    ensures
        bwf(tab, params, locals, b) <==> forall|i: int| 0 <= i < b.len() ==> swf(tab, params, locals, #[trigger] b[i]),
    decreases b.len(),
{
    if b.len() > 0 {
        lemma_bwf(tab, params, locals, b.drop_first());
        if forall|i: int| 0 <= i < b.len() ==> swf(tab, params, locals, #[trigger] b[i]) {
            assert forall|i: int| 0 <= i < b.len() - 1 implies swf(tab, params, locals, #[trigger] b.drop_first()[i]) by {
                assert(swf(tab, params, locals, b[i + 1]));
            }
        }
        if bwf(tab, params, locals, b) {
            assert forall|i: int| 0 <= i < b.len() implies swf(tab, params, locals, #[trigger] b[i]) by {
                if i > 0 {
                    assert(b[i] == b.drop_first()[i - 1]);
                }
            }
        }
    }
}

/// The statement is well typed, or was passed over because of an undefined part.
pub open spec fn stmt_fine(tab: Seq<DefInfo>, ret: Option<Ty>, s: Statement) -> bool {
    wt_stmt(tab, ret, s) || stmt_undef(s)
}

pub proof fn lemma_block_fine(tab: Seq<DefInfo>, ret: Option<Ty>, b: Seq<Statement>)
    ensures
        block_fine(tab, ret, b) <==> forall|i: int| 0 <= i < b.len() ==> stmt_fine(tab, ret, #[trigger] b[i]),
    decreases b.len(),
{
    if b.len() > 0 {
        lemma_block_fine(tab, ret, b.drop_first());
        if forall|i: int| 0 <= i < b.len() ==> stmt_fine(tab, ret, #[trigger] b[i]) {
            assert forall|i: int| 0 <= i < b.len() - 1 implies stmt_fine(tab, ret, #[trigger] b.drop_first()[i]) by {
                assert(stmt_fine(tab, ret, b[i + 1]));
            }
            assert(stmt_fine(tab, ret, b[0]));
        }
        if block_fine(tab, ret, b) {
            assert forall|i: int| 0 <= i < b.len() implies stmt_fine(tab, ret, #[trigger] b[i]) by {
                if i > 0 {
                    assert(b[i] == b.drop_first()[i - 1]);
                }
            }
        }
    }
}

/// An arm can be checked.
pub open spec fn arm_wf(tab: Seq<DefInfo>, params: Seq<usize>, locals: Seq<usize>, arm: SwitchArm) -> bool {
    ewf(tab, params, locals, arm.value) && bwf(tab, params, locals, arm.body@)
}

/// An arm is well typed.
pub open spec fn arm_fine(tab: Seq<DefInfo>, ret: Option<Ty>, arm: SwitchArm) -> bool {
    &&& wt(tab, arm.value)
    &&& arm.value.typ.ty() == int_ty()
    &&& block_fine(tab, ret, arm.body@)
}

pub proof fn lemma_armswf(tab: Seq<DefInfo>, params: Seq<usize>, locals: Seq<usize>, arms: Seq<SwitchArm>)
    ensures
        armswf(tab, params, locals, arms) <==> forall|i: int| 0 <= i < arms.len() ==> arm_wf(tab, params, locals, #[trigger] arms[i]),
    decreases arms.len(),
{
    if arms.len() > 0 {
        lemma_armswf(tab, params, locals, arms.drop_first());
        if forall|i: int| 0 <= i < arms.len() ==> arm_wf(tab, params, locals, #[trigger] arms[i]) {
            assert forall|i: int| 0 <= i < arms.len() - 1 implies arm_wf(tab, params, locals, #[trigger] arms.drop_first()[i]) by {
                assert(arm_wf(tab, params, locals, arms[i + 1]));
            }
            assert(arm_wf(tab, params, locals, arms[0]));
        }
        if armswf(tab, params, locals, arms) {
            assert forall|i: int| 0 <= i < arms.len() implies arm_wf(tab, params, locals, #[trigger] arms[i]) by {
                if i > 0 {
                    assert(arms[i] == arms.drop_first()[i - 1]);
                }
            }
        }
    }
}

pub proof fn lemma_arms_fine(tab: Seq<DefInfo>, ret: Option<Ty>, arms: Seq<SwitchArm>)
    ensures
        arms_fine(tab, ret, arms) <==> forall|i: int| 0 <= i < arms.len() ==> arm_fine(tab, ret, #[trigger] arms[i]),
    decreases arms.len(),
{
    if arms.len() > 0 {
        lemma_arms_fine(tab, ret, arms.drop_first());
        if forall|i: int| 0 <= i < arms.len() ==> arm_fine(tab, ret, #[trigger] arms[i]) {
            assert forall|i: int| 0 <= i < arms.len() - 1 implies arm_fine(tab, ret, #[trigger] arms.drop_first()[i]) by {
                assert(arm_fine(tab, ret, arms[i + 1]));
            }
            assert(arm_fine(tab, ret, arms[0]));
        }
        if arms_fine(tab, ret, arms) {
            assert forall|i: int| 0 <= i < arms.len() implies arm_fine(tab, ret, #[trigger] arms[i]) by {
                if i > 0 {
                    assert(arms[i] == arms.drop_first()[i - 1]);
                }
            }
        }
    }
}


// ---------------------------------------------------------------------------
// Definitions and programs.

/// The parameters of a function, the object parameter of a method last.
pub open spec fn fn_params(f: FunctionDef) -> Seq<Parameter> {
    match f.this_param {
        Some(p) => f.signature.parameters@.push(p),
        None => f.signature.parameters@,
    }
}

/// The value of the return type of a function.
pub open spec fn fn_ret(f: FunctionDef) -> Option<Ty> {
    match f.signature.return_type {
        Some(t) => Some(t.ty()),
        None => None,
    }
}

/// The function can be checked: its types are well formed and its body can be.
pub open spec fn fn_wf(tab: Seq<DefInfo>, f: FunctionDef) -> bool {
    &&& forall|i: int| 0 <= i < f.signature.parameters@.len() ==> ty_wf(tab, (#[trigger] f.signature.parameters@[i]).typ.ty())
    &&& match f.signature.return_type {
        Some(t) => ty_wf(tab, t.ty()),
        None => true,
    }
    &&& match f.this_param {
        Some(p) => ty_wf(tab, p.typ.ty()),
        None => true,
    }
    &&& forall|i: int| 0 <= i < f.locals@.len() ==> ty_wf(tab, (#[trigger] f.locals@[i]).typ.ty())
    &&& bwf(tab, param_ids(fn_params(f)), local_ids(f.locals@), f.body@)
}

/// The initial value of a field, if any, can be checked: it names no
/// parameter or local.
pub open spec fn field_wf(tab: Seq<DefInfo>, f: FieldDef) -> bool {
    match f.value {
        Some(v) => ewf(tab, Seq::empty(), Seq::empty(), v),
        None => true,
    }
}

/// The class type of a class without type arguments, as the object parameter
/// of its methods has it.
pub open spec fn class_ty(c: ClassDef) -> Ty {
    Ty::Class(c.name.id as nat, Seq::empty())
}

/// The definition can be checked.
pub open spec fn def_wf(tab: Seq<DefInfo>, d: Definition) -> bool {
    match d {
        Definition::Function(f) => fn_wf(tab, f),
        Definition::Class(c) => {
            &&& ty_wf(tab, class_ty(c))
            &&& forall|i: int| 0 <= i < c.fields@.len() ==> field_wf(tab, #[trigger] c.fields@[i])
            &&& forall|i: int| 0 <= i < c.methods@.len() ==> fn_wf(tab, #[trigger] c.methods@[i]) && c.methods@[i].this_param is Some
        },
        Definition::Struct(sd) => forall|i: int| 0 <= i < sd.fields@.len() ==> field_wf(tab, #[trigger] sd.fields@[i]),
        Definition::Union(sd) => forall|i: int| 0 <= i < sd.fields@.len() ==> field_wf(tab, #[trigger] sd.fields@[i]),
        Definition::Enum(_) => true,
    }
}

/// The program can be type checked: its type definitions are well formed,
/// and so is each definition.
pub open spec fn prog_wf(defs: Seq<Definition>) -> bool {
    &&& table_wf(def_infos(defs))
    &&& forall|i: int| 0 <= i < defs.len() ==> def_wf(def_infos(defs), #[trigger] defs[i])
}

/// The body of the function is well typed, but for statements passed over
/// because of an undefined part.
pub open spec fn fn_fine(tab: Seq<DefInfo>, f: FunctionDef) -> bool {
    block_fine(tab, fn_ret(f), f.body@)
}

/// The initial value of the field, if any, is well typed or has an undefined part.
pub open spec fn field_fine(tab: Seq<DefInfo>, f: FieldDef) -> bool {
    match f.value {
        Some(v) => wt(tab, v) || has_undef(v),
        None => true,
    }
}

pub open spec fn def_fine(tab: Seq<DefInfo>, d: Definition) -> bool {
    match d {
        Definition::Function(f) => fn_fine(tab, f),
        Definition::Class(c) => {
            &&& forall|i: int| 0 <= i < c.fields@.len() ==> field_fine(tab, #[trigger] c.fields@[i])
            &&& forall|i: int| 0 <= i < c.methods@.len() ==> fn_fine(tab, #[trigger] c.methods@[i])
        },
        Definition::Struct(sd) => forall|i: int| 0 <= i < sd.fields@.len() ==> field_fine(tab, #[trigger] sd.fields@[i]),
        Definition::Union(sd) => forall|i: int| 0 <= i < sd.fields@.len() ==> field_fine(tab, #[trigger] sd.fields@[i]),
        Definition::Enum(_) => true,
    }
}

/// Every definition is well typed with respect to the type definitions `tab`.
pub open spec fn prog_fine(tab: Seq<DefInfo>, defs: Seq<Definition>) -> bool {
    forall|i: int| 0 <= i < defs.len() ==> def_fine(tab, #[trigger] defs[i])
}


// ---------------------------------------------------------------------------
// When the checker finds no fault.

/// The type bound to node id `id`: that of its first entry.
pub open spec fn lookup_env(env: Seq<(usize, Ty)>, id: usize) -> Option<Ty>
    decreases env.len(),
{
    if env.len() == 0 {
        None
    } else if env[0].0 == id {
        Some(env[0].1)
    } else {
        lookup_env(env.drop_first(), id)
    }
}

/// The environment with the first entry for `id` bound to `t`.
pub open spec fn set_env(env: Seq<(usize, Ty)>, id: usize, t: Ty) -> Seq<(usize, Ty)>
    decreases env.len(),
{
    if env.len() == 0 {
        env
    } else if env[0].0 == id {
        env.update(0, (id, t))
    } else {
        seq![env[0]] + set_env(env.drop_first(), id, t)
    }
}

/// The parameters with their types.
pub open spec fn param_env(params: Seq<Parameter>) -> Seq<(usize, Ty)> {
    params.map_values(|p: Parameter| (p.name.id, p.typ.ty()))
}

/// The local variables with their types.
pub open spec fn local_env(locals: Seq<LocalVariable>) -> Seq<(usize, Ty)> {
    locals.map_values(|l: LocalVariable| (l.name.id, l.typ.ty()))
}

/// A type that is there: not undefined.
pub open spec fn defined(t: Ty) -> Option<Ty> {
    if t is Undefined {
        None
    } else {
        Some(t)
    }
}

/// The value fits the wanted type without a fault: it has the wanted type,
/// or is an `int` where a `float` is wanted.
pub open spec fn coerce_ok(tab: Seq<DefInfo>, pe: Seq<(usize, Ty)>, le: Seq<(usize, Ty)>, wanted: Ty, e: Expression) -> bool
    decreases e, 1nat,
{
    match infer(tab, pe, le, e) {
        Some(a) => a == wanted || (wanted == float_ty() && a == int_ty()),
        None => false,
    }
}

/// Each value fits the type at its position.
pub open spec fn all_coerce_ok(tab: Seq<DefInfo>, pe: Seq<(usize, Ty)>, le: Seq<(usize, Ty)>, types: Seq<Ty>, s: Seq<Expression>) -> bool
    decreases s, 2nat,
{
    if s.len() == 0 {
        true
    } else {
        coerce_ok(tab, pe, le, types[0], s[0]) && all_coerce_ok(tab, pe, le, types.drop_first(), s.drop_first())
    }
}

/// The type that checking gives the expression when it reports no error and
/// meets no undefined type on the way, with the parameters `pe` and the
/// locals `le` of the given types.
pub open spec fn infer(tab: Seq<DefInfo>, pe: Seq<(usize, Ty)>, le: Seq<(usize, Ty)>, e: Expression) -> Option<Ty>
    decreases e, 0nat,
{
    match e.kind {
        ExpressionKind::Undefined => defined(e.typ.ty()),
        ExpressionKind::Literal(l) => Some(literal_ty(l)),
        ExpressionKind::LoadSymbol(sym) => match sym {
            Symbol::Function { typ, .. } => defined(typ.ty()),
            Symbol::ExternFunction { typ, .. } => defined(typ.ty()),
            Symbol::Parameter(id) => match lookup_env(pe, id) {
                Some(t) => defined(t),
                None => None,
            },
            Symbol::LocalVariable(id) => match lookup_env(le, id) {
                Some(t) => defined(t),
                None => None,
            },
            _ => None,
        },
        ExpressionKind::Binop { lhs, op, rhs } => match (infer(tab, pe, le, *lhs), infer(tab, pe, le, *rhs)) {
            (Some(a), Some(b)) => match op {
                BinaryOperator::Comparison(_) => if a == b {
                    Some(bool_ty())
                } else {
                    None
                },
                BinaryOperator::Math(m) => match common_ty(a, b) {
                    Some(c) => if m == MathOperator::Div && c == int_ty() {
                        Some(float_ty())
                    } else {
                        Some(c)
                    },
                    None => None,
                },
                BinaryOperator::Logic(_) => if a == bool_ty() && b == bool_ty() {
                    Some(bool_ty())
                } else {
                    None
                },
                BinaryOperator::Bit(_) => None,
            },
            _ => None,
        },
        ExpressionKind::TypeCast { to_type, value } => match infer(tab, pe, le, *value) {
            Some(_) => defined(to_type.ty()),
            None => None,
        },
        ExpressionKind::Call { callee, arguments } => match callee.kind {
            ExpressionKind::LoadSymbol(Symbol::Typ(t)) => if t.ty() is Class {
                Some(t.ty())
            } else {
                None
            },
            _ => match infer(tab, pe, le, *callee) {
                Some(Ty::Function(ps, r)) => if ps.len() == arguments@.len() && all_coerce_ok(tab, pe, le, ps, arguments@) {
                    match r {
                        Some(b) => defined(*b),
                        None => Some(Ty::Void),
                    }
                } else {
                    None
                },
                _ => None,
            },
        },
        ExpressionKind::GetIndex { base, index } => match infer(tab, pe, le, *base) {
            Some(Ty::Array(el, _)) => if coerce_ok(tab, pe, le, int_ty(), *index) {
                defined(*el)
            } else {
                None
            },
            _ => None,
        },
        ExpressionKind::GetAttr { base, attr } => match infer(tab, pe, le, *base) {
            Some(b) => match attr_ty(tab, b, attr@) {
                Some(a) => defined(a),
                None => None,
            },
            None => None,
        },
        ExpressionKind::TupleLiteral { typ, values } => if all_coerce_ok(
            tab,
            pe,
            le,
            struct_field_tys(tab, typ.ty()),
            values@,
        ) {
            defined(typ.ty())
        } else {
            None
        },
        ExpressionKind::UnionLiteral { attr, value } => match attr_ty(tab, e.typ.ty(), attr@) {
            Some(w) => if coerce_ok(tab, pe, le, w, *value) {
                defined(e.typ.ty())
            } else {
                None
            },
            None => None,
        },
        ExpressionKind::EnumLiteral { enum_type, variant, arguments } => {
            let data = variant_data_tys(tab, enum_ty(enum_type), variant as int);
            if data.len() == arguments@.len() && all_coerce_ok(tab, pe, le, data, arguments@) {
                Some(enum_ty(enum_type))
            } else {
                None
            }
        },
        ExpressionKind::ListLiteral(values) => if values@.len() > 0 {
            match infer(tab, pe, le, values@[0]) {
                Some(a) => if all_coerce_ok(tab, pe, le, repeat_ty(a, (values@.len() - 1) as nat), values@.drop_first()) {
                    Some(Ty::Array(Box::new(a), values@.len()))
                } else {
                    None
                },
                None => None,
            }
        } else {
            None
        },
        _ => None,
    }
}

/// `n` times the type `t`.
pub open spec fn repeat_ty(t: Ty, n: nat) -> Seq<Ty> {
    Seq::new(n, |i: int| t)
}

/// The type of both operands of arithmetic: `float` for an `int` and a
/// `float`, else their type if they are equal.
pub open spec fn common_ty(a: Ty, b: Ty) -> Option<Ty> {
    if (a == float_ty() && b == int_ty()) || (a == int_ty() && b == float_ty()) {
        Some(float_ty())
    } else if a == b {
        Some(a)
    } else {
        None
    }
}


/// What checking finds without fault is a defined type.
pub proof fn lemma_infer_defined(tab: Seq<DefInfo>, pe: Seq<(usize, Ty)>, le: Seq<(usize, Ty)>, e: Expression)
    ensures
        infer(tab, pe, le, e) matches Some(t) ==> !(t is Undefined),
    decreases e,
{
    if let ExpressionKind::Binop { lhs, op, rhs } = e.kind {
        lemma_infer_defined(tab, pe, le, *lhs);
    }
}

/// The first entry for `id` gives its type.
pub proof fn lemma_lookup_first(env: Seq<(usize, Ty)>, id: usize, k: int)
    requires
        0 <= k < env.len(),
        env[k].0 == id,
        forall|j: int| 0 <= j < k ==> (#[trigger] env[j]).0 != id,
    ensures
        lookup_env(env, id) == Some(env[k].1),
    decreases k,
{
    if k > 0 {
        assert forall|j: int| 0 <= j < k - 1 implies (#[trigger] env.drop_first()[j]).0 != id by {
            assert(env.drop_first()[j] == env[j + 1]);
        }
        assert(env[0].0 != id);
        lemma_lookup_first(env.drop_first(), id, k - 1);
    }
}

pub proof fn lemma_all_coerce_ok(tab: Seq<DefInfo>, pe: Seq<(usize, Ty)>, le: Seq<(usize, Ty)>, types: Seq<Ty>, s: Seq<Expression>)
    requires
        types.len() == s.len(),
    ensures
        all_coerce_ok(tab, pe, le, types, s) <==> forall|i: int| 0 <= i < s.len() ==> coerce_ok(tab, pe, le, types[i], #[trigger] s[i]),
    decreases s.len(),
{
    if s.len() > 0 {
        lemma_all_coerce_ok(tab, pe, le, types.drop_first(), s.drop_first());
        if forall|i: int| 0 <= i < s.len() ==> coerce_ok(tab, pe, le, types[i], #[trigger] s[i]) {
            assert forall|i: int| 0 <= i < s.len() - 1 implies coerce_ok(tab, pe, le, types.drop_first()[i], #[trigger] s.drop_first()[i]) by {
                assert(coerce_ok(tab, pe, le, types[i + 1], s[i + 1]));
            }
            assert(coerce_ok(tab, pe, le, types[0], s[0]));
        }
        if all_coerce_ok(tab, pe, le, types, s) {
            assert forall|i: int| 0 <= i < s.len() implies coerce_ok(tab, pe, le, types[i], #[trigger] s[i]) by {
                if i > 0 {
                    assert(s[i] == s.drop_first()[i - 1]);
                    assert(types[i] == types.drop_first()[i - 1]);
                }
            }
        }
    }
}


/// The types of the locals after the statement, when checking it, in a
/// function with return type `ret`, reports no error and meets no undefined
/// type.
pub open spec fn infer_stmt(tab: Seq<DefInfo>, ret: Option<Ty>, pe: Seq<(usize, Ty)>, le: Seq<(usize, Ty)>, s: Statement) -> Option<Seq<(usize, Ty)>>
    decreases s,
{
    match s.kind {
        StatementKind::Expression(e) => if infer(tab, pe, le, e) is Some {
            Some(le)
        } else {
            None
        },
        StatementKind::Let { local_id, type_hint, value } => match type_hint {
            Some(h) => if coerce_ok(tab, pe, le, h.ty(), value) {
                Some(set_env(le, local_id, h.ty()))
            } else {
                None
            },
            None => match infer(tab, pe, le, value) {
                Some(a) => Some(set_env(le, local_id, a)),
                None => None,
            },
        },
        StatementKind::StoreLocal { local_id, value } => match infer(tab, pe, le, value) {
            Some(a) => Some(set_env(le, local_id, a)),
            None => None,
        },
        StatementKind::Assignment { target, value } => match infer(tab, pe, le, target) {
            Some(a) => if coerce_ok(tab, pe, le, a, value) {
                Some(le)
            } else {
                None
            },
            None => None,
        },
        StatementKind::SetAttr { base, value, .. } => if infer(tab, pe, le, base) is Some && infer(tab, pe, le, value) is Some {
            Some(le)
        } else {
            None
        },
        StatementKind::SetIndex { base, index, value } => if infer(tab, pe, le, base) is Some && infer(tab, pe, le, index) is Some
            && infer(tab, pe, le, value) is Some {
            Some(le)
        } else {
            None
        },
        StatementKind::If(i) => if infer(tab, pe, le, i.condition) == Some(bool_ty()) {
            match infer_block(tab, ret, pe, le, i.if_true@) {
                Some(l1) => match i.if_false {
                    Some(b) => infer_block(tab, ret, pe, l1, b@),
                    None => Some(l1),
                },
                None => None,
            }
        } else {
            None
        },
        StatementKind::Loop { body } => infer_block(tab, ret, pe, le, body@),
        StatementKind::Compound(body) => infer_block(tab, ret, pe, le, body@),
        StatementKind::While(w) => if infer(tab, pe, le, w.condition) == Some(bool_ty()) {
            infer_block(tab, ret, pe, le, w.body@)
        } else {
            None
        },
        StatementKind::For { loop_var, iterable, body } => match infer(tab, pe, le, iterable) {
            Some(Ty::Array(el, _)) => infer_block(tab, ret, pe, set_env(le, loop_var, *el), body@),
            _ => None,
        },
        StatementKind::Return { value } => match (value, ret) {
            (Some(v), Some(r)) => if infer(tab, pe, le, v) == Some(r) {
                Some(le)
            } else {
                None
            },
            (None, None) => Some(le),
            _ => None,
        },
        StatementKind::Switch(sw) => if coerce_ok(tab, pe, le, int_ty(), sw.value) {
            match infer_arms(tab, ret, pe, le, sw.arms@) {
                Some(l1) => infer_block(tab, ret, pe, l1, sw.default@),
                None => None,
            }
        } else {
            None
        },
        StatementKind::Case(cs) => match infer(tab, pe, le, cs.value) {
            Some(t) => if t is Enum {
                infer_case_arms(tab, ret, pe, le, t, cs.arms@, Set::empty())
            } else {
                None
            },
            None => None,
        },
        _ => Some(le),
    }
}

/// The types of the locals after the block, when checking each of its
/// statements finds no fault.
pub open spec fn infer_block(tab: Seq<DefInfo>, ret: Option<Ty>, pe: Seq<(usize, Ty)>, le: Seq<(usize, Ty)>, b: Seq<Statement>) -> Option<Seq<(usize, Ty)>>
    decreases b,
{
    if b.len() == 0 {
        Some(le)
    } else {
        match infer_stmt(tab, ret, pe, le, b[0]) {
            Some(l1) => infer_block(tab, ret, pe, l1, b.drop_first()),
            None => None,
        }
    }
}

/// The locals bound to the types, in order.
pub open spec fn set_envs(le: Seq<(usize, Ty)>, ids: Seq<usize>, ts: Seq<Ty>) -> Seq<(usize, Ty)>
    decreases ids.len(),
{
    if ids.len() == 0 {
        le
    } else {
        set_env(set_envs(le, ids.drop_last(), ts), ids.last(), ts[ids.len() - 1])
    }
}

/// The types of the locals after the arms of a case statement on a value of
/// enum type `t`, when checking finds no fault: each arm names a variant not
/// named before (`seen` holds those), has as many locals as the payload, and
/// a body without fault; after the last arm, every variant was named.
pub open spec fn infer_case_arms(
    tab: Seq<DefInfo>,
    ret: Option<Ty>,
    pe: Seq<(usize, Ty)>,
    le: Seq<(usize, Ty)>,
    t: Ty,
    arms: Seq<CaseArm>,
    seen: Set<int>,
) -> Option<Seq<(usize, Ty)>>
    decreases arms,
{
    if arms.len() == 0 {
        if forall|v: int| 0 <= v < variant_count(tab, t) ==> seen.contains(v) {
            Some(le)
        } else {
            None
        }
    } else {
        match arms[0].variant {
            VariantRef::Name(n) => match t {
                Ty::Enum(id, _) => match first_variant(info_of(tab, id, DefKind::Enum)->0.variants, n@) {
                    Some(v) => {
                        let data = variant_data_tys(tab, t, v);
                        if !seen.contains(v) && arms[0].local_ids@.len() == data.len() {
                            match infer_block(tab, ret, pe, set_envs(le, arms[0].local_ids@, data), arms[0].body@) {
                                Some(l1) => infer_case_arms(tab, ret, pe, l1, t, arms.drop_first(), seen.insert(v)),
                                None => None,
                            }
                        } else {
                            None
                        }
                    },
                    None => None,
                },
                _ => None,
            },
            VariantRef::Variant(_) => None,
        }
    }
}

/// The types of the locals after the arms of a switch, when checking each
/// finds no fault.
pub open spec fn infer_arms(tab: Seq<DefInfo>, ret: Option<Ty>, pe: Seq<(usize, Ty)>, le: Seq<(usize, Ty)>, arms: Seq<SwitchArm>) -> Option<Seq<(usize, Ty)>>
    decreases arms,
{
    if arms.len() == 0 {
        Some(le)
    } else if coerce_ok(tab, pe, le, int_ty(), arms[0].value) {
        match infer_block(tab, ret, pe, le, arms[0].body@) {
            Some(l1) => infer_arms(tab, ret, pe, l1, arms.drop_first()),
            None => None,
        }
    } else {
        None
    }
}

/// The parameters of a function with their types, the object parameter of a
/// method with the type `this_ty` if given.
pub open spec fn fn_env(f: FunctionDef, this_ty: Option<Ty>) -> Seq<(usize, Ty)> {
    let ps = param_env(f.signature.parameters@);
    match f.this_param {
        Some(p) => ps.push((p.name.id, match this_ty {
            Some(t) => t,
            None => p.typ.ty(),
        })),
        None => ps,
    }
}

/// Checking the function finds no fault.
pub open spec fn fn_clean(tab: Seq<DefInfo>, f: FunctionDef, this_ty: Option<Ty>) -> bool {
    infer_block(tab, fn_ret(f), fn_env(f, this_ty), local_env(f.locals@), f.body@) is Some
}

/// Checking the initial value of the field, if any, finds no fault.
pub open spec fn field_clean(tab: Seq<DefInfo>, f: FieldDef) -> bool {
    match f.value {
        Some(v) => infer(tab, Seq::empty(), Seq::empty(), v) is Some,
        None => true,
    }
}

pub open spec fn def_clean(tab: Seq<DefInfo>, d: Definition) -> bool {
    match d {
        Definition::Function(f) => fn_clean(tab, f, None),
        Definition::Class(c) => {
            &&& forall|i: int| 0 <= i < c.fields@.len() ==> field_clean(tab, #[trigger] c.fields@[i])
            &&& forall|i: int| 0 <= i < c.methods@.len() ==> fn_clean(tab, #[trigger] c.methods@[i], Some(class_ty(c)))
        },
        Definition::Struct(sd) => forall|i: int| 0 <= i < sd.fields@.len() ==> field_clean(tab, #[trigger] sd.fields@[i]),
        Definition::Union(sd) => forall|i: int| 0 <= i < sd.fields@.len() ==> field_clean(tab, #[trigger] sd.fields@[i]),
        Definition::Enum(_) => true,
    }
}

/// Checking finds no fault anywhere in the program.
pub open spec fn prog_clean(defs: Seq<Definition>) -> bool {
    forall|i: int| 0 <= i < defs.len() ==> def_clean(def_infos(defs), #[trigger] defs[i])
}

/// Binding the first entry for `id` updates that entry.
pub proof fn lemma_set_first(env: Seq<(usize, Ty)>, id: usize, k: int, t: Ty)
    requires
        0 <= k < env.len(),
        env[k].0 == id,
        forall|j: int| 0 <= j < k ==> (#[trigger] env[j]).0 != id,
    ensures
        set_env(env, id, t) == env.update(k, (id, t)),
    decreases k,
{
    if k > 0 {
        assert forall|j: int| 0 <= j < k - 1 implies (#[trigger] env.drop_first()[j]).0 != id by {
            assert(env.drop_first()[j] == env[j + 1]);
        }
        assert(env[0].0 != id);
        lemma_set_first(env.drop_first(), id, k - 1, t);
        assert(seq![env[0]] + env.drop_first().update(k - 1, (id, t)) =~= env.update(k, (id, t)));
    }
}

/// Without an entry for `id`, binding it changes nothing.
pub proof fn lemma_set_absent(env: Seq<(usize, Ty)>, id: usize, t: Ty)
    requires
        forall|j: int| 0 <= j < env.len() ==> (#[trigger] env[j]).0 != id,
    ensures
        set_env(env, id, t) == env,
    decreases env.len(),
{
    if env.len() > 0 {
        assert forall|j: int| 0 <= j < env.len() - 1 implies (#[trigger] env.drop_first()[j]).0 != id by {
            assert(env.drop_first()[j] == env[j + 1]);
        }
        assert(env[0].0 != id);
        lemma_set_absent(env.drop_first(), id, t);
        assert(seq![env[0]] + env.drop_first() =~= env);
    }
}


/// An arm of a case statement on a value of enum type `t` names a variant of
/// it, has a local for each part of its payload, and a body that is fine.
pub open spec fn case_arm_fine(tab: Seq<DefInfo>, ret: Option<Ty>, t: Ty, arm: CaseArm) -> bool {
    &&& arm.variant matches VariantRef::Variant(v) && v < variant_count(tab, t)
        && arm.local_ids@.len() == variant_data_tys(tab, t, v as int).len()
    &&& block_fine(tab, ret, arm.body@)
}

pub proof fn lemma_case_arms_fine(tab: Seq<DefInfo>, ret: Option<Ty>, t: Ty, arms: Seq<CaseArm>)
    ensures
        case_arms_fine(tab, ret, t, arms) <==> forall|i: int| 0 <= i < arms.len() ==> case_arm_fine(tab, ret, t, #[trigger] arms[i]),
    decreases arms.len(),
{
    if arms.len() > 0 {
        lemma_case_arms_fine(tab, ret, t, arms.drop_first());
        if forall|i: int| 0 <= i < arms.len() ==> case_arm_fine(tab, ret, t, #[trigger] arms[i]) {
            assert forall|i: int| 0 <= i < arms.len() - 1 implies case_arm_fine(tab, ret, t, #[trigger] arms.drop_first()[i]) by {
                assert(case_arm_fine(tab, ret, t, arms[i + 1]));
            }
            assert(case_arm_fine(tab, ret, t, arms[0]));
        }
        if case_arms_fine(tab, ret, t, arms) {
            assert forall|i: int| 0 <= i < arms.len() implies case_arm_fine(tab, ret, t, #[trigger] arms[i]) by {
                if i > 0 {
                    assert(arms[i] == arms.drop_first()[i - 1]);
                }
            }
        }
    }
}

pub proof fn lemma_case_arms_wf(tab: Seq<DefInfo>, params: Seq<usize>, locals: Seq<usize>, arms: Seq<CaseArm>)
    ensures
        case_arms_wf(tab, params, locals, arms) <==> forall|i: int| 0 <= i < arms.len() ==> case_arm_wf(tab, params, locals, #[trigger] arms[i]),
    decreases arms.len(),
{
    if arms.len() > 0 {
        lemma_case_arms_wf(tab, params, locals, arms.drop_first());
        if forall|i: int| 0 <= i < arms.len() ==> case_arm_wf(tab, params, locals, #[trigger] arms[i]) {
            assert forall|i: int| 0 <= i < arms.len() - 1 implies case_arm_wf(tab, params, locals, #[trigger] arms.drop_first()[i]) by {
                assert(case_arm_wf(tab, params, locals, arms[i + 1]));
            }
            assert(case_arm_wf(tab, params, locals, arms[0]));
        }
        if case_arms_wf(tab, params, locals, arms) {
            assert forall|i: int| 0 <= i < arms.len() implies case_arm_wf(tab, params, locals, #[trigger] arms[i]) by {
                if i > 0 {
                    assert(arms[i] == arms.drop_first()[i - 1]);
                }
            }
        }
    }
}


// ---------------------------------------------------------------------------
// What the checker leaves of the program.

/// Two symbols are the same, their types taken by meaning.
pub open spec fn symbol_same(a: Symbol, b: Symbol) -> bool {
    match (a, b) {
        (Symbol::Function { name, typ }, Symbol::Function { name: n2, typ: t2 }) => n2 == name && t2.ty() == typ.ty(),
        (Symbol::ExternFunction { name, typ }, Symbol::ExternFunction { name: n2, typ: t2 }) => n2 == name && t2.ty() == typ.ty(),
        (Symbol::Typ(t), Symbol::Typ(t2)) => t2.ty() == t.ty(),
        (x, y) => y == x,
    }
}

/// `b` is the expression `a` as the checker leaves it: the same expression
/// with its types set, where a value of type `int` may stand inside a cast
/// to `float` that the checker put around it, at the value's location.
pub open spec fn annotated(a: Expression, b: Expression) -> bool
    decreases b,
{
    ||| {
        &&& b.kind matches ExpressionKind::TypeCast { to_type, value }
        &&& to_type.ty() == float_ty()
        &&& b.typ.ty() == float_ty()
        &&& b.location == a.location
        &&& value.typ.ty() == int_ty()
        &&& annotated(a, *value)
    }
    ||| {
        &&& b.location == a.location
        &&& match (a.kind, b.kind) {
            (ExpressionKind::Undefined, ExpressionKind::Undefined) => true,
            (ExpressionKind::Object, ExpressionKind::Object) => true,
            (ExpressionKind::Literal(x), ExpressionKind::Literal(y)) => y == x,
            (ExpressionKind::ObjectInitializer { typ, fields }, ExpressionKind::ObjectInitializer { typ: t2, fields: f2 }) => t2
                == typ && f2 == fields,
            (ExpressionKind::TupleLiteral { typ, values }, ExpressionKind::TupleLiteral { typ: t2, values: v2 }) => {
                &&& t2.ty() == typ.ty()
                &&& v2@.len() == values@.len()
                &&& forall|i: int| 0 <= i < values@.len() ==> annotated(values@[i], #[trigger] v2@[i])
            },
            (ExpressionKind::UnionLiteral { attr, value }, ExpressionKind::UnionLiteral { attr: a2, value: v2 }) => a2 == attr
                && annotated(*value, *v2),
            (
                ExpressionKind::EnumLiteral { enum_type, variant, arguments },
                ExpressionKind::EnumLiteral { enum_type: e2, variant: w2, arguments: a2 },
            ) => {
                &&& enum_ty(e2) == enum_ty(enum_type)
                &&& w2 == variant
                &&& a2@.len() == arguments@.len()
                &&& forall|i: int| 0 <= i < arguments@.len() ==> annotated(arguments@[i], #[trigger] a2@[i])
            },
            (ExpressionKind::ListLiteral(values), ExpressionKind::ListLiteral(v2)) => {
                &&& v2@.len() == values@.len()
                &&& forall|i: int| 0 <= i < values@.len() ==> annotated(values@[i], #[trigger] v2@[i])
            },
            (ExpressionKind::LoadSymbol(s), ExpressionKind::LoadSymbol(s2)) => symbol_same(s, s2),
            (ExpressionKind::Call { callee, arguments }, ExpressionKind::Call { callee: c2, arguments: a2 }) => {
                &&& annotated(*callee, *c2)
                &&& a2@.len() == arguments@.len()
                &&& forall|i: int| 0 <= i < arguments@.len() ==> annotated(arguments@[i], #[trigger] a2@[i])
            },
            (ExpressionKind::TypeCast { to_type, value }, ExpressionKind::TypeCast { to_type: t2, value: v2 }) => t2.ty()
                == to_type.ty() && annotated(*value, *v2),
            (ExpressionKind::GetAttr { base, attr }, ExpressionKind::GetAttr { base: b2, attr: a2 }) => a2 == attr && annotated(
                *base,
                *b2,
            ),
            (ExpressionKind::GetIndex { base, index }, ExpressionKind::GetIndex { base: b2, index: i2 }) => annotated(*base, *b2)
                && annotated(*index, *i2),
            (ExpressionKind::Binop { lhs, op, rhs }, ExpressionKind::Binop { lhs: l2, op: o2, rhs: r2 }) => o2 == op && annotated(
                *lhs,
                *l2,
            ) && annotated(*rhs, *r2),
            _ => false,
        }
    }
}

/// No cast was put around `a` at the top of `b`.
pub open spec fn plain(a: Expression, b: Expression) -> bool {
    b.kind is TypeCast ==> a.kind is TypeCast
}

/// `b` is the operand `a`, whose type is `t_in`, as it stands in an
/// operation on values of type `t_out`: unchanged at its top where the types
/// agree, else put inside a cast to `t_out` at its own location.
pub open spec fn operand_as(a: Expression, b: Expression, t_in: Ty, t_out: Ty) -> bool {
    if t_in == t_out {
        b.typ.ty() == t_in && plain(a, b)
    } else {
        &&& b.kind matches ExpressionKind::TypeCast { to_type, value } && to_type.ty() == t_out && value.typ.ty() == t_in
            && plain(a, *value)
        &&& b.typ.ty() == t_out
        &&& b.location == a.location
    }
}

/// Every expression is left as it was, up to its types.
pub proof fn lemma_annotated_refl(e: Expression)
    ensures
        annotated(e, e),
    decreases e,
{
    match e.kind {
        ExpressionKind::TupleLiteral { values, .. } => {
            assert forall|i: int| 0 <= i < values@.len() implies annotated(values@[i], #[trigger] values@[i]) by {
                lemma_annotated_refl(values@[i]);
            }
        },
        ExpressionKind::UnionLiteral { value, .. } => lemma_annotated_refl(*value),
        ExpressionKind::EnumLiteral { arguments, .. } => {
            assert forall|i: int| 0 <= i < arguments@.len() implies annotated(arguments@[i], #[trigger] arguments@[i]) by {
                lemma_annotated_refl(arguments@[i]);
            }
        },
        ExpressionKind::ListLiteral(values) => {
            assert forall|i: int| 0 <= i < values@.len() implies annotated(values@[i], #[trigger] values@[i]) by {
                lemma_annotated_refl(values@[i]);
            }
        },
        ExpressionKind::Call { callee, arguments } => {
            lemma_annotated_refl(*callee);
            assert forall|i: int| 0 <= i < arguments@.len() implies annotated(arguments@[i], #[trigger] arguments@[i]) by {
                lemma_annotated_refl(arguments@[i]);
            }
        },
        ExpressionKind::TypeCast { value, .. } => lemma_annotated_refl(*value),
        ExpressionKind::GetAttr { base, .. } => lemma_annotated_refl(*base),
        ExpressionKind::GetIndex { base, index } => {
            lemma_annotated_refl(*base);
            lemma_annotated_refl(*index);
        },
        ExpressionKind::Binop { lhs, rhs, .. } => {
            lemma_annotated_refl(*lhs);
            lemma_annotated_refl(*rhs);
        },
        _ => {},
    }
}


/// Each expression of `b` is its counterpart of `a` as the checker leaves it.
pub open spec fn all_annotated(a: Seq<Expression>, b: Seq<Expression>) -> bool {
    &&& b.len() == a.len()
    &&& forall|i: int| 0 <= i < a.len() ==> annotated(a[i], #[trigger] b[i])
}

pub proof fn lemma_all_annotated_refl(s: Seq<Expression>)
    ensures
        all_annotated(s, s),
{
    assert forall|i: int| 0 <= i < s.len() implies annotated(s[i], #[trigger] s[i]) by {
        lemma_annotated_refl(s[i]);
    }
}

/// The variant of a case arm as the checker leaves it: unchanged, or a name
/// resolved to the position of the first variant of that name of the enum
/// type `vt`.
pub open spec fn variant_resolved(tab: Seq<DefInfo>, vt: Ty, a: VariantRef, b: VariantRef) -> bool {
    ||| b == a
    ||| {
        &&& a matches VariantRef::Name(n)
        &&& b matches VariantRef::Variant(v)
        &&& vt matches Ty::Enum(id, _)
        &&& info_of(tab, id, DefKind::Enum) matches Some(d)
        &&& first_variant(d.variants, n@) == Some(v as int)
    }
}

/// The variant of a case arm checked against the enum type `vt`: a name is
/// resolved to the position of the first variant of that name, and stays a
/// name only where the enum has no such variant.
pub open spec fn variant_resolves(tab: Seq<DefInfo>, vt: Ty, a: VariantRef, b: VariantRef) -> bool {
    match (a, vt) {
        (VariantRef::Name(n), Ty::Enum(id, _)) => match first_variant(info_of(tab, id, DefKind::Enum)->0.variants, n@) {
            Some(v) => b == VariantRef::Variant(v as usize),
            None => b == a,
        },
        _ => b == a,
    }
}

/// `b` is the statement `a` as the checker leaves it: its expressions
/// annotated, the variants of its case arms resolved, and so on inside.
pub open spec fn stmt_annotated(tab: Seq<DefInfo>, a: Statement, b: Statement) -> bool
    decreases a,
{
    &&& b.location == a.location
    &&& match (a.kind, b.kind) {
        (StatementKind::Expression(x), StatementKind::Expression(y)) => annotated(x, y),
        (StatementKind::Let { local_id, type_hint, value }, StatementKind::Let { local_id: l2, type_hint: h2, value: v2 }) => l2
            == local_id && h2 == type_hint && annotated(value, v2),
        (StatementKind::Assignment { target, value }, StatementKind::Assignment { target: t2, value: v2 }) => annotated(
            target,
            t2,
        ) && annotated(value, v2),
        (StatementKind::StoreLocal { local_id, value }, StatementKind::StoreLocal { local_id: l2, value: v2 }) => l2 == local_id
            && annotated(value, v2),
        (StatementKind::SetAttr { base, attr, value }, StatementKind::SetAttr { base: b2, attr: a2, value: v2 }) => a2 == attr
            && annotated(base, b2) && annotated(value, v2),
        (StatementKind::SetIndex { base, index, value }, StatementKind::SetIndex { base: b2, index: i2, value: v2 }) => annotated(
            base,
            b2,
        ) && annotated(index, i2) && annotated(value, v2),
        (StatementKind::If(i), StatementKind::If(j)) => {
            &&& annotated(i.condition, j.condition)
            &&& blocks_annotated(tab, i.if_true@, j.if_true@)
            &&& match (i.if_false, j.if_false) {
                (Some(x), Some(y)) => blocks_annotated(tab, x@, y@),
                (None, None) => true,
                _ => false,
            }
        },
        (StatementKind::Loop { body }, StatementKind::Loop { body: c }) => blocks_annotated(tab, body@, c@),
        (StatementKind::While(w), StatementKind::While(v)) => annotated(w.condition, v.condition) && blocks_annotated(
            tab,
            w.body@,
            v.body@,
        ),
        (StatementKind::For { loop_var, iterable, body }, StatementKind::For { loop_var: l2, iterable: i2, body: b2 }) => {
            &&& l2 == loop_var
            &&& annotated(iterable, i2)
            &&& blocks_annotated(tab, body@, b2@)
        },
        (StatementKind::Return { value }, StatementKind::Return { value: v2 }) => match (value, v2) {
            (Some(x), Some(y)) => annotated(x, y),
            (None, None) => true,
            _ => false,
        },
        (StatementKind::Case(cs), StatementKind::Case(cv)) => {
            &&& annotated(cs.value, cv.value)
            &&& cv.arms@.len() == cs.arms@.len()
            &&& forall|k: int| 0 <= k < cs.arms@.len() ==> {
                &&& (#[trigger] cv.arms@[k]).location == cs.arms@[k].location
                &&& cv.arms@[k].local_ids == cs.arms@[k].local_ids
                &&& variant_resolved(tab, cv.value.typ.ty(), cs.arms@[k].variant, cv.arms@[k].variant)
                &&& blocks_annotated(tab, cs.arms@[k].body@, cv.arms@[k].body@)
            }
        },
        (StatementKind::Switch(sw), StatementKind::Switch(sv)) => {
            &&& annotated(sw.value, sv.value)
            &&& sv.arms@.len() == sw.arms@.len()
            &&& forall|k: int| 0 <= k < sw.arms@.len() ==> annotated(sw.arms@[k].value, (#[trigger] sv.arms@[k]).value)
                && blocks_annotated(tab, sw.arms@[k].body@, sv.arms@[k].body@)
            &&& blocks_annotated(tab, sw.default@, sv.default@)
        },
        (StatementKind::Compound(x), StatementKind::Compound(y)) => blocks_annotated(tab, x@, y@),
        (StatementKind::Pass, StatementKind::Pass) => true,
        (StatementKind::Break, StatementKind::Break) => true,
        (StatementKind::Continue, StatementKind::Continue) => true,
        (StatementKind::Unreachable, StatementKind::Unreachable) => true,
        _ => false,
    }
}

/// Each statement of `b` is its counterpart of `a` as the checker leaves it.
pub open spec fn blocks_annotated(tab: Seq<DefInfo>, a: Seq<Statement>, b: Seq<Statement>) -> bool
    decreases a,
{
    &&& b.len() == a.len()
    &&& forall|i: int| 0 <= i < a.len() ==> stmt_annotated(tab, a[i], #[trigger] b[i])
}

/// Every statement is left as it was, up to its types.
pub proof fn lemma_stmt_annotated_refl(tab: Seq<DefInfo>, s: Statement)
    ensures
        stmt_annotated(tab, s, s),
    decreases s,
{
    match s.kind {
        StatementKind::Expression(x) => lemma_annotated_refl(x),
        StatementKind::Let { value, .. } => lemma_annotated_refl(value),
        StatementKind::Assignment { target, value } => {
            lemma_annotated_refl(target);
            lemma_annotated_refl(value);
        },
        StatementKind::StoreLocal { value, .. } => lemma_annotated_refl(value),
        StatementKind::SetAttr { base, value, .. } => {
            lemma_annotated_refl(base);
            lemma_annotated_refl(value);
        },
        StatementKind::SetIndex { base, index, value } => {
            lemma_annotated_refl(base);
            lemma_annotated_refl(index);
            lemma_annotated_refl(value);
        },
        StatementKind::If(i) => {
            lemma_annotated_refl(i.condition);
            lemma_blocks_annotated_refl(tab, i.if_true@);
            match i.if_false {
                Some(b) => lemma_blocks_annotated_refl(tab, b@),
                None => {},
            }
        },
        StatementKind::Loop { body } => lemma_blocks_annotated_refl(tab, body@),
        StatementKind::While(w) => {
            lemma_annotated_refl(w.condition);
            lemma_blocks_annotated_refl(tab, w.body@);
        },
        StatementKind::For { iterable, body, .. } => {
            lemma_annotated_refl(iterable);
            lemma_blocks_annotated_refl(tab, body@);
        },
        StatementKind::Return { value } => match value {
            Some(v) => lemma_annotated_refl(v),
            None => {},
        },
        StatementKind::Case(cs) => {
            lemma_annotated_refl(cs.value);
            assert forall|k: int| 0 <= k < cs.arms@.len() implies blocks_annotated(tab, cs.arms@[k].body@, (#[trigger] cs.arms@[k]).body@) by {
                lemma_blocks_annotated_refl(tab, cs.arms@[k].body@);
            }
        },
        StatementKind::Switch(sw) => {
            lemma_annotated_refl(sw.value);
            assert forall|k: int| 0 <= k < sw.arms@.len() implies annotated(sw.arms@[k].value, (#[trigger] sw.arms@[k]).value)
                && blocks_annotated(tab, sw.arms@[k].body@, sw.arms@[k].body@) by {
                lemma_annotated_refl(sw.arms@[k].value);
                lemma_blocks_annotated_refl(tab, sw.arms@[k].body@);
            }
            lemma_blocks_annotated_refl(tab, sw.default@);
        },
        StatementKind::Compound(b) => lemma_blocks_annotated_refl(tab, b@),
        _ => {},
    }
}

pub proof fn lemma_blocks_annotated_refl(tab: Seq<DefInfo>, b: Seq<Statement>)
    ensures
        blocks_annotated(tab, b, b),
    decreases b,
{
    assert forall|i: int| 0 <= i < b.len() implies stmt_annotated(tab, b[i], #[trigger] b[i]) by {
        lemma_stmt_annotated_refl(tab, b[i]);
    }
}

/// `b` is the field `a` with its initial value, if any, annotated.
pub open spec fn field_annotated(a: FieldDef, b: FieldDef) -> bool {
    &&& b.location == a.location
    &&& b.name == a.name
    &&& b.index == a.index
    &&& b.typ == a.typ
    &&& match (a.value, b.value) {
        (Some(x), Some(y)) => annotated(x, y),
        (None, None) => true,
        _ => false,
    }
}

/// `b` is the function `a` as the checker leaves it: the same head, the
/// object parameter given a type, the types of the locals set, and the body
/// annotated.
pub open spec fn fn_annotated(tab: Seq<DefInfo>, a: FunctionDef, b: FunctionDef) -> bool {
    &&& b.name == a.name
    &&& b.location == a.location
    &&& b.signature == a.signature
    &&& match (a.this_param, b.this_param) {
        (Some(p), Some(q)) => q.location == p.location && q.name == p.name,
        (None, None) => true,
        _ => false,
    }
    &&& local_ids(b.locals@) == local_ids(a.locals@)
    &&& blocks_annotated(tab, a.body@, b.body@)
}

/// `b` is the definition `a` as the checker leaves it.
pub open spec fn def_annotated(tab: Seq<DefInfo>, a: Definition, b: Definition) -> bool {
    match a {
        Definition::Function(x) => b matches Definition::Function(y) && fn_annotated(tab, x, y),
        Definition::Class(c) => match b {
            Definition::Class(d) => {
                &&& d.location == c.location
                &&& d.name == c.name
                &&& d.type_parameters == c.type_parameters
                &&& d.fields@.len() == c.fields@.len()
                &&& forall|j: int| 0 <= j < c.fields@.len() ==> field_annotated(c.fields@[j], #[trigger] d.fields@[j])
                &&& d.methods@.len() == c.methods@.len()
                &&& forall|j: int| 0 <= j < c.methods@.len() ==> fn_annotated(tab, c.methods@[j], #[trigger] d.methods@[j])
            },
            _ => false,
        },
        Definition::Struct(x) => match b {
            Definition::Struct(y) => {
                &&& y.location == x.location
                &&& y.name == x.name
                &&& y.type_parameters == x.type_parameters
                &&& y.fields@.len() == x.fields@.len()
                &&& forall|j: int| 0 <= j < x.fields@.len() ==> field_annotated(x.fields@[j], #[trigger] y.fields@[j])
            },
            _ => false,
        },
        Definition::Union(x) => match b {
            Definition::Union(y) => {
                &&& y.location == x.location
                &&& y.name == x.name
                &&& y.type_parameters == x.type_parameters
                &&& y.fields@.len() == x.fields@.len()
                &&& forall|j: int| 0 <= j < x.fields@.len() ==> field_annotated(x.fields@[j], #[trigger] y.fields@[j])
            },
            _ => false,
        },
        Definition::Enum(_) => b == a,
    }
}

} // verus!
