//! Object initializers become tuple literals: the values of an initializer
//! of a struct type are put in the order of the struct's fields, after a
//! check that each field is given exactly once and no other, and that each
//! value whose type is known has the type of its field.

use super::diagnostics::Diagnostics;
use super::typechecker::{at_path, message};
use crate::errors::CompilationError;
use crate::location::Location;
use crate::tast::type_system::{
    def_infos, find_entry, info_of, infos, lemma_find_info, same_type, struct_field_tys, struct_field_types, table_wf,
    ty_wf, type_table, DefInfo, DefKind, Ty, TypeDefEntry,
};
use crate::tast::type_text::{lemma_wf_printable, ty_text, type_text};
use crate::tast::{
    Block, CaseArm, CaseStatement, ClassDef, Definition, Expression, ExpressionKind, FieldDef, FunctionDef,
    IfStatement, LabeledField, Program, SlangType, Statement, StatementKind, StructDef, SwitchArm, SwitchStatement,
    UserType, WhileStatement,
};
use vstd::prelude::*;

verus! {

/// The names of the fields of a struct type, in order.
pub open spec fn field_names(tab: Seq<DefInfo>, t: Ty) -> Seq<Seq<char>> {
    match t {
        Ty::Struct(id, _) => info_of(tab, id, DefKind::Struct)->0.fields.map_values(|f: (Seq<char>, Ty)| f.0),
        _ => Seq::empty(),
    }
}

/// The type of the field `name` of a struct type, with its type arguments put in.
pub open spec fn field_ty(tab: Seq<DefInfo>, t: Ty, name: Seq<char>) -> Ty {
    struct_field_tys(tab, t)[field_names(tab, t).index_of(name)]
}

/// The value of the label has an unknown type, or the type of its field.
pub open spec fn value_fits(tab: Seq<DefInfo>, t: Ty, l: LabeledField) -> bool {
    (*l.value).typ.ty() == Ty::Undefined || (*l.value).typ.ty() == field_ty(tab, t, l.name@)
}

/// The initializer fits the type: a struct type, each label names one of its
/// fields, no label comes twice, every field has a label, and each value of
/// known type has the type of its field.
pub open spec fn init_fits(tab: Seq<DefInfo>, t: Ty, fields: Seq<LabeledField>) -> bool {
    let names = field_names(tab, t);
    &&& t is Struct
    &&& forall|i: int| 0 <= i < fields.len() ==> names.contains(#[trigger] fields[i].name@)
    &&& forall|i: int, j: int| 0 <= i < j < fields.len() ==> (#[trigger] fields[i]).name@ != (#[trigger] fields[j]).name@
    &&& forall|k: int| 0 <= k < names.len() ==> #[trigger] has_label(fields, names[k])
    &&& forall|i: int| 0 <= i < fields.len() ==> value_fits(tab, t, #[trigger] fields[i])
}

/// Some label of the initializer is `name`.
pub open spec fn has_label(fields: Seq<LabeledField>, name: Seq<char>) -> bool {
    exists|i: int| 0 <= i < fields.len() && (#[trigger] fields[i]).name@ == name
}

/// `b` is the expression `a` with, from the inside out, every object
/// initializer that fits its struct type turned into a tuple literal of its
/// values in the order of the fields, and every other one left without values.
pub open spec fn converted(tab: Seq<DefInfo>, a: Expression, b: Expression) -> bool
    decreases a,
{
    &&& b.location == a.location
    &&& b.typ == a.typ
    &&& match a.kind {
        ExpressionKind::ObjectInitializer { typ, fields } => if init_fits(tab, typ.ty(), fields@) {
            &&& b.kind matches ExpressionKind::TupleLiteral { typ: t2, values }
            &&& t2 == typ
            &&& values@.len() == field_names(tab, typ.ty()).len()
            &&& forall|k: int, j: int|
                0 <= k < values@.len() && 0 <= j < fields@.len() && (#[trigger] fields@[j]).name@ == field_names(tab, typ.ty())[k]
                    ==> converted(tab, *fields@[j].value, #[trigger] values@[k])
        } else {
            b.kind matches ExpressionKind::ObjectInitializer { typ: t2, fields: f2 } && t2 == typ && f2@.len() == 0
        },
        ExpressionKind::TupleLiteral { typ, values } => match b.kind {
            ExpressionKind::TupleLiteral { typ: t2, values: v2 } => t2 == typ && all_converted(tab, values@, v2@),
            _ => false,
        },
        ExpressionKind::UnionLiteral { attr, value } => match b.kind {
            ExpressionKind::UnionLiteral { attr: a2, value: v2 } => a2 == attr && converted(tab, *value, *v2),
            _ => false,
        },
        ExpressionKind::EnumLiteral { enum_type, variant, arguments } => match b.kind {
            ExpressionKind::EnumLiteral { enum_type: e2, variant: v2, arguments: a2 } => e2 == enum_type && v2 == variant
                && all_converted(tab, arguments@, a2@),
            _ => false,
        },
        ExpressionKind::ListLiteral(values) => match b.kind {
            ExpressionKind::ListLiteral(v2) => all_converted(tab, values@, v2@),
            _ => false,
        },
        ExpressionKind::Call { callee, arguments } => match b.kind {
            ExpressionKind::Call { callee: c2, arguments: a2 } => converted(tab, *callee, *c2) && all_converted(
                tab,
                arguments@,
                a2@,
            ),
            _ => false,
        },
        ExpressionKind::TypeCast { to_type, value } => match b.kind {
            ExpressionKind::TypeCast { to_type: t2, value: v2 } => t2 == to_type && converted(tab, *value, *v2),
            _ => false,
        },
        ExpressionKind::GetAttr { base, attr } => match b.kind {
            ExpressionKind::GetAttr { base: b2, attr: a2 } => a2 == attr && converted(tab, *base, *b2),
            _ => false,
        },
        ExpressionKind::GetIndex { base, index } => match b.kind {
            ExpressionKind::GetIndex { base: b2, index: i2 } => converted(tab, *base, *b2) && converted(tab, *index, *i2),
            _ => false,
        },
        ExpressionKind::Binop { lhs, op, rhs } => match b.kind {
            ExpressionKind::Binop { lhs: l2, op: o2, rhs: r2 } => o2 == op && converted(tab, *lhs, *l2) && converted(
                tab,
                *rhs,
                *r2,
            ),
            _ => false,
        },
        _ => b.kind == a.kind,
    }
}

/// Each expression of `b` is its counterpart of `a` converted.
pub open spec fn all_converted(tab: Seq<DefInfo>, a: Seq<Expression>, b: Seq<Expression>) -> bool
    decreases a,
{
    &&& b.len() == a.len()
    &&& forall|i: int| 0 <= i < a.len() ==> converted(tab, a[i], #[trigger] b[i])
}

/// No object initializer is left in the expression.
pub open spec fn init_free(e: Expression) -> bool
    decreases e,
{
    match e.kind {
        ExpressionKind::ObjectInitializer { .. } => false,
        ExpressionKind::TupleLiteral { values, .. } => forall|i: int| 0 <= i < values@.len() ==> init_free(#[trigger] values@[i]),
        ExpressionKind::UnionLiteral { value, .. } => init_free(*value),
        ExpressionKind::EnumLiteral { arguments, .. } => forall|i: int|
            0 <= i < arguments@.len() ==> init_free(#[trigger] arguments@[i]),
        ExpressionKind::ListLiteral(values) => forall|i: int| 0 <= i < values@.len() ==> init_free(#[trigger] values@[i]),
        ExpressionKind::Call { callee, arguments } => init_free(*callee) && forall|i: int|
            0 <= i < arguments@.len() ==> init_free(#[trigger] arguments@[i]),
        ExpressionKind::TypeCast { value, .. } => init_free(*value),
        ExpressionKind::GetAttr { base, .. } => init_free(*base),
        ExpressionKind::GetIndex { base, index } => init_free(*base) && init_free(*index),
        ExpressionKind::Binop { lhs, rhs, .. } => init_free(*lhs) && init_free(*rhs),
        _ => true,
    }
}

/// Every object initializer in the expression has a well-formed type.
pub open spec fn inits_wf(tab: Seq<DefInfo>, e: Expression) -> bool
    decreases e,
{
    match e.kind {
        ExpressionKind::ObjectInitializer { typ, fields } => ty_wf(tab, typ.ty()) && forall|i: int|
            0 <= i < fields@.len() ==> inits_wf(tab, *(#[trigger] fields@[i]).value),
        ExpressionKind::TupleLiteral { values, .. } => forall|i: int| 0 <= i < values@.len() ==> inits_wf(tab, #[trigger] values@[i]),
        ExpressionKind::UnionLiteral { value, .. } => inits_wf(tab, *value),
        ExpressionKind::EnumLiteral { arguments, .. } => forall|i: int|
            0 <= i < arguments@.len() ==> inits_wf(tab, #[trigger] arguments@[i]),
        ExpressionKind::ListLiteral(values) => forall|i: int| 0 <= i < values@.len() ==> inits_wf(tab, #[trigger] values@[i]),
        ExpressionKind::Call { callee, arguments } => inits_wf(tab, *callee) && forall|i: int|
            0 <= i < arguments@.len() ==> inits_wf(tab, #[trigger] arguments@[i]),
        ExpressionKind::TypeCast { value, .. } => inits_wf(tab, *value),
        ExpressionKind::GetAttr { base, .. } => inits_wf(tab, *base),
        ExpressionKind::GetIndex { base, index } => inits_wf(tab, *base) && inits_wf(tab, *index),
        ExpressionKind::Binop { lhs, rhs, .. } => inits_wf(tab, *lhs) && inits_wf(tab, *rhs),
        _ => true,
    }
}

/// Every object initializer in the expression fits its type.
pub open spec fn inits_fit(tab: Seq<DefInfo>, e: Expression) -> bool
    decreases e,
{
    match e.kind {
        ExpressionKind::ObjectInitializer { typ, fields } => init_fits(tab, typ.ty(), fields@) && forall|i: int|
            0 <= i < fields@.len() ==> inits_fit(tab, *(#[trigger] fields@[i]).value),
        ExpressionKind::TupleLiteral { values, .. } => forall|i: int| 0 <= i < values@.len() ==> inits_fit(tab, #[trigger] values@[i]),
        ExpressionKind::UnionLiteral { value, .. } => inits_fit(tab, *value),
        ExpressionKind::EnumLiteral { arguments, .. } => forall|i: int|
            0 <= i < arguments@.len() ==> inits_fit(tab, #[trigger] arguments@[i]),
        ExpressionKind::ListLiteral(values) => forall|i: int| 0 <= i < values@.len() ==> inits_fit(tab, #[trigger] values@[i]),
        ExpressionKind::Call { callee, arguments } => inits_fit(tab, *callee) && forall|i: int|
            0 <= i < arguments@.len() ==> inits_fit(tab, #[trigger] arguments@[i]),
        ExpressionKind::TypeCast { value, .. } => inits_fit(tab, *value),
        ExpressionKind::GetAttr { base, .. } => inits_fit(tab, *base),
        ExpressionKind::GetIndex { base, index } => inits_fit(tab, *base) && inits_fit(tab, *index),
        ExpressionKind::Binop { lhs, rhs, .. } => inits_fit(tab, *lhs) && inits_fit(tab, *rhs),
        _ => true,
    }
}

/// The fields of every struct definition have distinct names.
pub open spec fn struct_fields_distinct(tab: Seq<DefInfo>) -> bool {
    forall|k: int, i: int, j: int|
        0 <= k < tab.len() && tab[k].kind == DefKind::Struct && 0 <= i < j < tab[k].fields.len() ==> (#[trigger] tab[k].fields[i]).0
            != (#[trigger] tab[k].fields[j]).0
}


/// Whether an initializer fits depends on its labels alone.
proof fn lemma_init_fits_names(tab: Seq<DefInfo>, t: Ty, a: Seq<LabeledField>, b: Seq<LabeledField>)
    requires
        a.len() == b.len(),
        forall|j: int| 0 <= j < a.len() ==> (#[trigger] a[j]).name@ == b[j].name@ && (*a[j].value).typ == (*b[j].value).typ,
    ensures
        init_fits(tab, t, a) == init_fits(tab, t, b),
{
    assert forall|n: Seq<char>| has_label(a, n) <==> has_label(b, n) by {
        if has_label(a, n) {
            let j = choose|j: int| 0 <= j < a.len() && (#[trigger] a[j]).name@ == n;
            assert(b[j].name@ == n);
        }
        if has_label(b, n) {
            let j = choose|j: int| 0 <= j < b.len() && (#[trigger] b[j]).name@ == n;
            assert(a[j].name@ == n);
        }
    }
    if init_fits(tab, t, a) {
        assert forall|i: int| 0 <= i < b.len() implies field_names(tab, t).contains(#[trigger] b[i].name@) by {
            assert(a[i].name@ == b[i].name@);
        }
        assert forall|i: int, j: int| 0 <= i < j < b.len() implies (#[trigger] b[i]).name@ != (#[trigger] b[j]).name@ by {
            assert(a[i].name@ == b[i].name@);
            assert(a[j].name@ == b[j].name@);
        }
        assert forall|i: int| 0 <= i < b.len() implies value_fits(tab, t, #[trigger] b[i]) by {
            assert(value_fits(tab, t, a[i]));
        }
    }
    if init_fits(tab, t, b) {
        assert forall|i: int| 0 <= i < a.len() implies field_names(tab, t).contains(#[trigger] a[i].name@) by {
            assert(a[i].name@ == b[i].name@);
        }
        assert forall|i: int, j: int| 0 <= i < j < a.len() implies (#[trigger] a[i]).name@ != (#[trigger] a[j]).name@ by {
            assert(a[i].name@ == b[i].name@);
            assert(a[j].name@ == b[j].name@);
        }
        assert forall|i: int| 0 <= i < a.len() implies value_fits(tab, t, #[trigger] a[i]) by {
            assert(value_fits(tab, t, b[i]));
        }
    }
}


/// An error as a report shows it: its place and its message.
pub open spec fn report_of(e: CompilationError) -> (Location, Seq<char>) {
    match e {
        CompilationError::SingleError { location, message, .. } => (location, message@),
        _ => (Location { row: 0, column: 0 }, Seq::empty()),
    }
}

/// The places and messages of a sequence of errors.
pub open spec fn reports(es: Seq<CompilationError>) -> Seq<(Location, Seq<char>)>
    decreases es.len(),
{
    if es.len() == 0 {
        Seq::empty()
    } else {
        reports(es.drop_last()).push(report_of(es.last()))
    }
}

/// The errors of the labels, one at most each, in order: a label that names
/// no field of the struct, or a field that an earlier label names, is
/// superfluous; a value of known type whose field has another type is of the
/// wrong type.
pub open spec fn label_errors(tab: Seq<DefInfo>, t: Ty, labels: Seq<LabeledField>) -> Seq<(Location, Seq<char>)>
    decreases labels.len(),
{
    if labels.len() == 0 {
        Seq::empty()
    } else {
        let l = labels.last();
        let prev = labels.drop_last();
        label_errors(tab, t, prev) + if !field_names(tab, t).contains(l.name@) || has_label(prev, l.name@) {
            seq![(l.location, "Superfluous field: "@ + l.name@)]
        } else if !value_fits(tab, t, l) {
            seq![(l.location, "Wrong type for field: "@ + l.name@ + ", expected "@ + ty_text(tab, field_ty(tab, t, l.name@)))]
        } else {
            Seq::empty()
        }
    }
}

/// The fields that no label names: one error each, at the initializer, in
/// the order of the fields.
pub open spec fn missing_errors(loc: Location, names: Seq<Seq<char>>, labels: Seq<LabeledField>) -> Seq<(Location, Seq<char>)>
    decreases names.len(),
{
    if names.len() == 0 {
        Seq::empty()
    } else {
        missing_errors(loc, names.drop_last(), labels) + if !has_label(labels, names.last()) {
            seq![(loc, "Missing field: "@ + names.last())]
        } else {
            Seq::empty()
        }
    }
}

/// The errors of an initializer at `loc` of type `t` with the given labels.
pub open spec fn init_errors(tab: Seq<DefInfo>, loc: Location, t: Ty, labels: Seq<LabeledField>) -> Seq<(Location, Seq<char>)> {
    if t is Struct {
        label_errors(tab, t, labels) + missing_errors(loc, field_names(tab, t), labels)
    } else {
        seq![(loc, "Must be struct type, not "@ + ty_text(tab, t))]
    }
}

/// The errors of the initializers of an expression, inner ones first.
pub open spec fn expr_errors(tab: Seq<DefInfo>, e: Expression) -> Seq<(Location, Seq<char>)>
    decreases e,
{
    match e.kind {
        ExpressionKind::ObjectInitializer { typ, fields } => labeled_errors(tab, fields@) + init_errors(
            tab,
            e.location,
            typ.ty(),
            fields@,
        ),
        ExpressionKind::TupleLiteral { values, .. } => list_errors(tab, values@),
        ExpressionKind::UnionLiteral { value, .. } => expr_errors(tab, *value),
        ExpressionKind::EnumLiteral { arguments, .. } => list_errors(tab, arguments@),
        ExpressionKind::ListLiteral(values) => list_errors(tab, values@),
        ExpressionKind::Call { callee, arguments } => expr_errors(tab, *callee) + list_errors(tab, arguments@),
        ExpressionKind::TypeCast { value, .. } => expr_errors(tab, *value),
        ExpressionKind::GetAttr { base, .. } => expr_errors(tab, *base),
        ExpressionKind::GetIndex { base, index } => expr_errors(tab, *base) + expr_errors(tab, *index),
        ExpressionKind::Binop { lhs, rhs, .. } => expr_errors(tab, *lhs) + expr_errors(tab, *rhs),
        _ => Seq::empty(),
    }
}

pub open spec fn list_errors(tab: Seq<DefInfo>, es: Seq<Expression>) -> Seq<(Location, Seq<char>)>
    decreases es,
{
    if es.len() == 0 {
        Seq::empty()
    } else {
        list_errors(tab, es.drop_last()) + expr_errors(tab, es.last())
    }
}

pub open spec fn labeled_errors(tab: Seq<DefInfo>, fs: Seq<LabeledField>) -> Seq<(Location, Seq<char>)>
    decreases fs,
{
    if fs.len() == 0 {
        Seq::empty()
    } else {
        labeled_errors(tab, fs.drop_last()) + expr_errors(tab, *fs.last().value)
    }
}

/// The errors of the initializers of a statement, in the order of its parts.
pub open spec fn stmt_errors(tab: Seq<DefInfo>, s: Statement) -> Seq<(Location, Seq<char>)>
    decreases s,
{
    match s.kind {
        StatementKind::Expression(e) => expr_errors(tab, e),
        StatementKind::Let { value, .. } => expr_errors(tab, value),
        StatementKind::Assignment { target, value } => expr_errors(tab, target) + expr_errors(tab, value),
        StatementKind::StoreLocal { value, .. } => expr_errors(tab, value),
        StatementKind::SetAttr { base, value, .. } => expr_errors(tab, base) + expr_errors(tab, value),
        StatementKind::SetIndex { base, index, value } => expr_errors(tab, base) + expr_errors(tab, index) + expr_errors(tab, value),
        StatementKind::If(i) => expr_errors(tab, i.condition) + block_errors(tab, i.if_true@) + match i.if_false {
            Some(b) => block_errors(tab, b@),
            None => Seq::empty(),
        },
        StatementKind::Loop { body } => block_errors(tab, body@),
        StatementKind::While(w) => expr_errors(tab, w.condition) + block_errors(tab, w.body@),
        StatementKind::For { iterable, body, .. } => expr_errors(tab, iterable) + block_errors(tab, body@),
        StatementKind::Return { value } => match value {
            Some(v) => expr_errors(tab, v),
            None => Seq::empty(),
        },
        StatementKind::Case(cs) => expr_errors(tab, cs.value) + case_arms_errors(tab, cs.arms@),
        StatementKind::Switch(sw) => expr_errors(tab, sw.value) + switch_arms_errors(tab, sw.arms@) + block_errors(tab, sw.default@),
        StatementKind::Compound(b) => block_errors(tab, b@),
        _ => Seq::empty(),
    }
}

pub open spec fn block_errors(tab: Seq<DefInfo>, b: Seq<Statement>) -> Seq<(Location, Seq<char>)>
    decreases b,
{
    if b.len() == 0 {
        Seq::empty()
    } else {
        block_errors(tab, b.drop_last()) + stmt_errors(tab, b.last())
    }
}

pub open spec fn case_arms_errors(tab: Seq<DefInfo>, arms: Seq<CaseArm>) -> Seq<(Location, Seq<char>)>
    decreases arms,
{
    if arms.len() == 0 {
        Seq::empty()
    } else {
        case_arms_errors(tab, arms.drop_last()) + block_errors(tab, arms.last().body@)
    }
}

pub open spec fn switch_arms_errors(tab: Seq<DefInfo>, arms: Seq<SwitchArm>) -> Seq<(Location, Seq<char>)>
    decreases arms,
{
    if arms.len() == 0 {
        Seq::empty()
    } else {
        switch_arms_errors(tab, arms.drop_last()) + expr_errors(tab, arms.last().value) + block_errors(tab, arms.last().body@)
    }
}

/// The errors of the initial values of the fields, in order.
pub open spec fn fields_errors(tab: Seq<DefInfo>, fs: Seq<FieldDef>) -> Seq<(Location, Seq<char>)>
    decreases fs.len(),
{
    if fs.len() == 0 {
        Seq::empty()
    } else {
        fields_errors(tab, fs.drop_last()) + match fs.last().value {
            Some(v) => expr_errors(tab, v),
            None => Seq::empty(),
        }
    }
}

/// The errors of the bodies of the methods, in order.
pub open spec fn methods_errors(tab: Seq<DefInfo>, ms: Seq<FunctionDef>) -> Seq<(Location, Seq<char>)>
    decreases ms.len(),
{
    if ms.len() == 0 {
        Seq::empty()
    } else {
        methods_errors(tab, ms.drop_last()) + block_errors(tab, ms.last().body@)
    }
}

/// The errors of a definition: field values, then method bodies.
pub open spec fn def_errors(tab: Seq<DefInfo>, d: Definition) -> Seq<(Location, Seq<char>)> {
    match d {
        Definition::Function(f) => block_errors(tab, f.body@),
        Definition::Class(c) => fields_errors(tab, c.fields@) + methods_errors(tab, c.methods@),
        Definition::Struct(sd) => fields_errors(tab, sd.fields@),
        Definition::Union(sd) => fields_errors(tab, sd.fields@),
        Definition::Enum(_) => Seq::empty(),
    }
}

/// The errors of the definitions, in order.
pub open spec fn defs_errors(tab: Seq<DefInfo>, ds: Seq<Definition>) -> Seq<(Location, Seq<char>)>
    decreases ds.len(),
{
    if ds.len() == 0 {
        Seq::empty()
    } else {
        defs_errors(tab, ds.drop_last()) + def_errors(tab, ds.last())
    }
}

/// Labels with the same names give the same answer to `has_label`.
proof fn lemma_has_label_names(a: Seq<LabeledField>, b: Seq<LabeledField>, n: Seq<char>)
    requires
        a.len() == b.len(),
        forall|j: int| 0 <= j < a.len() ==> (#[trigger] a[j]).name@ == b[j].name@,
    ensures
        has_label(a, n) == has_label(b, n),
{
    if has_label(a, n) {
        let j = choose|j: int| 0 <= j < a.len() && (#[trigger] a[j]).name@ == n;
        assert(b[j].name@ == n);
    }
    if has_label(b, n) {
        let j = choose|j: int| 0 <= j < b.len() && (#[trigger] b[j]).name@ == n;
        assert(a[j].name@ == n);
    }
}

proof fn lemma_label_errors_labels(tab: Seq<DefInfo>, t: Ty, a: Seq<LabeledField>, b: Seq<LabeledField>)
    requires
        a.len() == b.len(),
        forall|j: int| 0 <= j < a.len() ==> (#[trigger] a[j]).name@ == b[j].name@ && a[j].location == b[j].location
            && (*a[j].value).typ == (*b[j].value).typ,
    ensures
        label_errors(tab, t, a) == label_errors(tab, t, b),
    decreases a.len(),
{
    if a.len() > 0 {
        let (pa, pb) = (a.drop_last(), b.drop_last());
        assert forall|j: int| 0 <= j < pa.len() implies (#[trigger] pa[j]).name@ == pb[j].name@ && pa[j].location == pb[j].location
            && (*pa[j].value).typ == (*pb[j].value).typ by {
            assert(pa[j] == a[j]);
            assert(pb[j] == b[j]);
        }
        lemma_label_errors_labels(tab, t, pa, pb);
        lemma_has_label_names(pa, pb, a.last().name@);
        assert(a.last().name@ == b.last().name@);
        assert(value_fits(tab, t, a.last()) == value_fits(tab, t, b.last()));
    }
}

proof fn lemma_missing_labels(loc: Location, names: Seq<Seq<char>>, a: Seq<LabeledField>, b: Seq<LabeledField>)
    requires
        a.len() == b.len(),
        forall|j: int| 0 <= j < a.len() ==> (#[trigger] a[j]).name@ == b[j].name@,
    ensures
        missing_errors(loc, names, a) == missing_errors(loc, names, b),
    decreases names.len(),
{
    if names.len() > 0 {
        lemma_missing_labels(loc, names.drop_last(), a, b);
        lemma_has_label_names(a, b, names.last());
    }
}

/// The errors of an initializer depend on the names and places of its labels alone.
proof fn lemma_init_errors_labels(tab: Seq<DefInfo>, loc: Location, t: Ty, a: Seq<LabeledField>, b: Seq<LabeledField>)
    requires
        a.len() == b.len(),
        forall|j: int| 0 <= j < a.len() ==> (#[trigger] a[j]).name@ == b[j].name@ && a[j].location == b[j].location
            && (*a[j].value).typ == (*b[j].value).typ,
    ensures
        init_errors(tab, loc, t, a) == init_errors(tab, loc, t, b),
{
    lemma_label_errors_labels(tab, t, a, b);
    lemma_missing_labels(loc, field_names(tab, t), a, b);
}

/// The relation of an expression to its converted form.
pub open spec fn conv_rel(tab: Seq<DefInfo>) -> spec_fn(Expression, Expression) -> bool {
    |a: Expression, b: Expression| converted(tab, a, b)
}

/// The initializers of the expression have well-formed types.
pub open spec fn wf_pred(tab: Seq<DefInfo>) -> spec_fn(Expression) -> bool {
    |e: Expression| inits_wf(tab, e)
}

/// The initializers of the expression fit their types.
pub open spec fn fit_pred(tab: Seq<DefInfo>) -> spec_fn(Expression) -> bool {
    |e: Expression| inits_fit(tab, e)
}

/// The expression holds no initializer.
pub open spec fn free_pred() -> spec_fn(Expression) -> bool {
    |e: Expression| init_free(e)
}

/// Every expression of the statement, and of the blocks inside it, has property `p`.
pub open spec fn stmt_all(s: Statement, p: spec_fn(Expression) -> bool) -> bool
    decreases s,
{
    match s.kind {
        StatementKind::Expression(e) => p(e),
        StatementKind::Let { value, .. } => p(value),
        StatementKind::Assignment { target, value } => p(target) && p(value),
        StatementKind::StoreLocal { value, .. } => p(value),
        StatementKind::SetAttr { base, value, .. } => p(base) && p(value),
        StatementKind::SetIndex { base, index, value } => p(base) && p(index) && p(value),
        StatementKind::If(i) => p(i.condition) && block_all(i.if_true@, p) && match i.if_false {
            Some(b) => block_all(b@, p),
            None => true,
        },
        StatementKind::Loop { body } => block_all(body@, p),
        StatementKind::While(w) => p(w.condition) && block_all(w.body@, p),
        StatementKind::For { iterable, body, .. } => p(iterable) && block_all(body@, p),
        StatementKind::Return { value } => match value {
            Some(v) => p(v),
            None => true,
        },
        StatementKind::Case(cs) => p(cs.value) && forall|k: int|
            0 <= k < cs.arms@.len() ==> block_all((#[trigger] cs.arms@[k]).body@, p),
        StatementKind::Switch(sw) => p(sw.value) && (forall|k: int|
            0 <= k < sw.arms@.len() ==> p((#[trigger] sw.arms@[k]).value) && block_all(sw.arms@[k].body@, p)) && block_all(
            sw.default@,
            p,
        ),
        StatementKind::Compound(b) => block_all(b@, p),
        _ => true,
    }
}

pub open spec fn block_all(b: Seq<Statement>, p: spec_fn(Expression) -> bool) -> bool
    decreases b,
{
    forall|i: int| 0 <= i < b.len() ==> stmt_all(#[trigger] b[i], p)
}

/// `b` is the statement `a` with each of its expressions, and those of the
/// blocks inside it, replaced by one in relation `f` to it.
pub open spec fn stmt_map(a: Statement, b: Statement, f: spec_fn(Expression, Expression) -> bool) -> bool
    decreases a,
{
    &&& b.location == a.location
    &&& match a.kind {
        StatementKind::Expression(e) => b.kind matches StatementKind::Expression(e2) && f(e, e2),
        StatementKind::Let { local_id, type_hint, value } => match b.kind {
            StatementKind::Let { local_id: l2, type_hint: t2, value: v2 } => l2 == local_id && t2 == type_hint && f(value, v2),
            _ => false,
        },
        StatementKind::Assignment { target, value } => match b.kind {
            StatementKind::Assignment { target: t2, value: v2 } => f(target, t2) && f(value, v2),
            _ => false,
        },
        StatementKind::StoreLocal { local_id, value } => match b.kind {
            StatementKind::StoreLocal { local_id: l2, value: v2 } => l2 == local_id && f(value, v2),
            _ => false,
        },
        StatementKind::SetAttr { base, attr, value } => match b.kind {
            StatementKind::SetAttr { base: b2, attr: a2, value: v2 } => a2 == attr && f(base, b2) && f(value, v2),
            _ => false,
        },
        StatementKind::SetIndex { base, index, value } => match b.kind {
            StatementKind::SetIndex { base: b2, index: i2, value: v2 } => f(base, b2) && f(index, i2) && f(value, v2),
            _ => false,
        },
        StatementKind::If(i) => match b.kind {
            StatementKind::If(j) => {
                &&& f(i.condition, j.condition)
                &&& block_map(i.if_true@, j.if_true@, f)
                &&& match (i.if_false, j.if_false) {
                    (Some(x), Some(y)) => block_map(x@, y@, f),
                    (None, None) => true,
                    _ => false,
                }
            },
            _ => false,
        },
        StatementKind::Loop { body } => b.kind matches StatementKind::Loop { body: c } && block_map(body@, c@, f),
        StatementKind::While(w) => match b.kind {
            StatementKind::While(v) => f(w.condition, v.condition) && block_map(w.body@, v.body@, f),
            _ => false,
        },
        StatementKind::For { loop_var, iterable, body } => match b.kind {
            StatementKind::For { loop_var: l2, iterable: i2, body: b2 } => l2 == loop_var && f(iterable, i2) && block_map(
                body@,
                b2@,
                f,
            ),
            _ => false,
        },
        StatementKind::Return { value } => match b.kind {
            StatementKind::Return { value: v2 } => match (value, v2) {
                (Some(x), Some(y)) => f(x, y),
                (None, None) => true,
                _ => false,
            },
            _ => false,
        },
        StatementKind::Case(cs) => match b.kind {
            StatementKind::Case(cv) => {
                &&& f(cs.value, cv.value)
                &&& cv.arms@.len() == cs.arms@.len()
                &&& forall|k: int| 0 <= k < cs.arms@.len() ==> {
                    &&& (#[trigger] cv.arms@[k]).location == cs.arms@[k].location
                    &&& cv.arms@[k].variant == cs.arms@[k].variant
                    &&& cv.arms@[k].local_ids == cs.arms@[k].local_ids
                    &&& block_map(cs.arms@[k].body@, cv.arms@[k].body@, f)
                }
            },
            _ => false,
        },
        StatementKind::Switch(sw) => match b.kind {
            StatementKind::Switch(sv) => {
                &&& f(sw.value, sv.value)
                &&& sv.arms@.len() == sw.arms@.len()
                &&& forall|k: int| 0 <= k < sw.arms@.len() ==> f(sw.arms@[k].value, (#[trigger] sv.arms@[k]).value)
                    && block_map(sw.arms@[k].body@, sv.arms@[k].body@, f)
                &&& block_map(sw.default@, sv.default@, f)
            },
            _ => false,
        },
        StatementKind::Compound(body) => b.kind matches StatementKind::Compound(c) && block_map(body@, c@, f),
        _ => b.kind == a.kind,
    }
}

pub open spec fn block_map(a: Seq<Statement>, b: Seq<Statement>, f: spec_fn(Expression, Expression) -> bool) -> bool
    decreases a,
{
    &&& b.len() == a.len()
    &&& forall|i: int| 0 <= i < a.len() ==> stmt_map(a[i], #[trigger] b[i], f)
}


/// The value of the field, if any, has property `p`.
pub open spec fn field_all(f: FieldDef, p: spec_fn(Expression) -> bool) -> bool {
    match f.value {
        Some(v) => p(v),
        None => true,
    }
}

pub open spec fn fields_all(fs: Seq<FieldDef>, p: spec_fn(Expression) -> bool) -> bool {
    forall|j: int| 0 <= j < fs.len() ==> field_all(#[trigger] fs[j], p)
}

/// Every expression of the definition has property `p`: field values and
/// function and method bodies.
pub open spec fn def_all(d: Definition, p: spec_fn(Expression) -> bool) -> bool {
    match d {
        Definition::Function(f) => block_all(f.body@, p),
        Definition::Class(c) => fields_all(c.fields@, p) && forall|j: int|
            0 <= j < c.methods@.len() ==> block_all((#[trigger] c.methods@[j]).body@, p),
        Definition::Struct(sd) => fields_all(sd.fields@, p),
        Definition::Union(sd) => fields_all(sd.fields@, p),
        Definition::Enum(_) => true,
    }
}

/// Every definition of the sequence has property `p`.
pub open spec fn defs_all(defs: Seq<Definition>, p: spec_fn(Expression) -> bool) -> bool {
    forall|i: int| 0 <= i < defs.len() ==> def_all(#[trigger] defs[i], p)
}

/// `b` is the field `a` with its value, if any, replaced by one in relation `f` to it.
pub open spec fn field_map(a: FieldDef, b: FieldDef, f: spec_fn(Expression, Expression) -> bool) -> bool {
    &&& b.location == a.location
    &&& b.name == a.name
    &&& b.index == a.index
    &&& b.typ == a.typ
    &&& match (a.value, b.value) {
        (Some(x), Some(y)) => f(x, y),
        (None, None) => true,
        _ => false,
    }
}

pub open spec fn fields_map(a: Seq<FieldDef>, b: Seq<FieldDef>, f: spec_fn(Expression, Expression) -> bool) -> bool {
    &&& b.len() == a.len()
    &&& forall|j: int| 0 <= j < a.len() ==> field_map(a[j], #[trigger] b[j], f)
}

/// `b` is the function `a` with its body mapped by `f`.
pub open spec fn fn_map(a: FunctionDef, b: FunctionDef, f: spec_fn(Expression, Expression) -> bool) -> bool {
    &&& b.name == a.name
    &&& b.location == a.location
    &&& b.signature == a.signature
    &&& b.this_param == a.this_param
    &&& b.locals == a.locals
    &&& block_map(a.body@, b.body@, f)
}

pub open spec fn struct_map(a: StructDef, b: StructDef, f: spec_fn(Expression, Expression) -> bool) -> bool {
    &&& b.location == a.location
    &&& b.name == a.name
    &&& b.type_parameters == a.type_parameters
    &&& fields_map(a.fields@, b.fields@, f)
}

/// `b` is the definition `a` with its field values and function bodies mapped by `f`.
pub open spec fn def_map(a: Definition, b: Definition, f: spec_fn(Expression, Expression) -> bool) -> bool {
    match a {
        Definition::Function(x) => b matches Definition::Function(y) && fn_map(x, y, f),
        Definition::Class(c) => match b {
            Definition::Class(d) => {
                &&& d.location == c.location
                &&& d.name == c.name
                &&& d.type_parameters == c.type_parameters
                &&& fields_map(c.fields@, d.fields@, f)
                &&& d.methods@.len() == c.methods@.len()
                &&& forall|j: int| 0 <= j < c.methods@.len() ==> fn_map(c.methods@[j], #[trigger] d.methods@[j], f)
            },
            _ => false,
        },
        Definition::Struct(x) => b matches Definition::Struct(y) && struct_map(x, y, f),
        Definition::Union(x) => b matches Definition::Union(y) && struct_map(x, y, f),
        Definition::Enum(_) => b == a,
    }
}

pub struct Pass3 {
    diagnostics: Diagnostics,
    tab: Vec<TypeDefEntry>,
}

impl Pass3 {
    pub closed spec fn table(&self) -> Seq<DefInfo> {
        infos(self.tab@)
    }

    pub closed spec fn errors(&self) -> Seq<CompilationError> {
        self.diagnostics.errors()
    }

    pub closed spec fn path(&self) -> Seq<char> {
        self.diagnostics.path()
    }

    /// The type definitions are well formed, struct fields have distinct names,
    /// and every error is one at a place of the file.
    pub closed spec fn inv(&self) -> bool {
        &&& table_wf(infos(self.tab@))
        &&& struct_fields_distinct(infos(self.tab@))
        &&& forall|i: int| 0 <= i < self.diagnostics.errors().len() ==> at_path(#[trigger] self.diagnostics.errors()[i], self.diagnostics.path())
    }

    pub open spec fn steps(&self, next: Pass3) -> bool {
        &&& next.inv()
        &&& next.table() == self.table()
        &&& next.path() == self.path()
        &&& next.errors().len() >= self.errors().len()
    }

    fn error(&mut self, location: Location, message: String)
        requires
            old(self).inv(),
        ensures
            old(self).steps(*final(self)),
            final(self).errors().len() == old(self).errors().len() + 1,
            reports(final(self).errors()) == reports(old(self).errors()).push((location, message@)),
    {
        let ghost msg = message@;
        self.diagnostics.error(location, message);
        proof {
            assert(self.errors().drop_last() == old(self).errors());
            assert(report_of(self.errors().last()) == (location, msg));
            assert forall|i: int| 0 <= i < self.diagnostics.errors().len() implies at_path(#[trigger] self.diagnostics.errors()[i], self.diagnostics.path()) by {
                if i < old(self).diagnostics.errors().len() {
                    assert(self.diagnostics.errors()[i] == old(self).diagnostics.errors()[i]);
                }
            }
        }
    }

    /// The values of an initializer of type `typ`, in the order of the struct's
    /// fields, if each field is given exactly once and no other; else errors.
    fn struct_literal_to_tuple(&mut self, location: Location, typ: &SlangType, init_fields: Vec<LabeledField>) -> (r: Option<Vec<Expression>>)
        requires
            old(self).inv(),
            ty_wf(old(self).table(), typ.ty()),
        ensures
            old(self).steps(*final(self)),
            r is Some <==> init_fits(old(self).table(), typ.ty(), init_fields@),
            r is Some ==> final(self).errors().len() == old(self).errors().len(),
            r is None ==> final(self).errors().len() > old(self).errors().len(),
            reports(final(self).errors()) == reports(old(self).errors()) + init_errors(old(self).table(), location, typ.ty(), init_fields@),
            r matches Some(values) ==> values@.len() == field_names(old(self).table(), typ.ty()).len() && forall|k: int, j: int|
                0 <= k < values@.len() && 0 <= j < init_fields@.len() && (#[trigger] init_fields@[j]).name@ == field_names(
                    old(self).table(),
                    typ.ty(),
                )[k] ==> #[trigger] values@[k] == *init_fields@[j].value,
    {
        let ghost t = self.table();
        let ghost start = *self;
        if !typ.is_struct() {
            let mut m = message("Must be struct type, not ");
            proof {
                lemma_wf_printable(t, typ.ty());
            }
            let txt = type_text(&self.tab, typ);
            m.append(txt.as_str());
            let ghost msg = m@;
            self.error(location, m);
            assert(reports(self.errors()) =~= reports(start.errors()) + seq![(location, msg)]);
            return None;
        }
        let struct_id = match typ {
            SlangType::User(UserType::Struct(st)) => st.struct_id,
            _ => 0,
        };
        proof {
            lemma_find_info(t, struct_id as nat);
        }
        let k = find_entry(&self.tab, struct_id).unwrap();
        assert(t[k as int] == self.tab@[k as int].info());
        let ghost d = t[k as int];
        let ghost names = field_names(t, typ.ty());
        let mut field_list: Vec<String> = Vec::new();
        let nf = self.tab[k].fields.len();
        let mut p: usize = 0;
        while p < nf
            invariant
                p <= nf,
                k < self.tab@.len(),
                nf == self.tab@[k as int].fields@.len(),
                field_list@.len() == p,
                forall|q: int| 0 <= q < p ==> (#[trigger] field_list@[q])@ == self.tab@[k as int].fields@[q].0@,
            decreases nf - p,
        {
            field_list.push(self.tab[k].fields[p].0.clone());
            p = p + 1;
        }
        assert(names.len() == nf);
        assert forall|q: int| 0 <= q < nf implies #[trigger] names[q] == field_list@[q]@ by {
            assert(d.fields[q] == (self.tab@[k as int].fields@[q].0@, self.tab@[k as int].fields@[q].1.ty()));
        }
        assert forall|q1: int, q2: int| 0 <= q1 < q2 < nf implies #[trigger] names[q1] != #[trigger] names[q2] by {
            assert(d.fields[q1].0 == names[q1]);
            assert(d.fields[q2].0 == names[q2]);
        }
        let mut required: Vec<bool> = Vec::new();
        let mut slots: Vec<Option<Expression>> = Vec::new();
        let mut p: usize = 0;
        while p < nf
            invariant
                p <= nf,
                required@.len() == p,
                slots@.len() == p,
                forall|q: int| 0 <= q < p ==> required@[q] && (#[trigger] slots@[q]) is None,
            decreases nf - p,
        {
            required.push(true);
            slots.push(None);
            p = p + 1;
        }
        assert forall|q: int| 0 <= q < nf implies #[trigger] required@[q] && slots@[q] is None by {
            assert(slots@[q] is None);
        }
        let ftys = struct_field_types(&self.tab, typ);
        let ghost tt = typ.ty();
        let ghost labels = init_fields@;
        assert(labels.take(0) =~= Seq::<LabeledField>::empty());
        let nl = init_fields.len();
        let mut rest = init_fields;
        let mut ok = true;
        let mut i: usize = 0;
        while i < nl
            invariant
                i <= nl,
                nl == labels.len(),
                rest@ == labels.skip(i as int),
                required@.len() == nf,
                slots@.len() == nf,
                field_list@.len() == nf,
                names.len() == nf,
                forall|q: int| 0 <= q < nf ==> #[trigger] names[q] == field_list@[q]@,
                forall|q1: int, q2: int| 0 <= q1 < q2 < nf ==> #[trigger] names[q1] != #[trigger] names[q2],
                t == start.table(),
                start == *old(self),
                start.steps(*self),
                ok <==> (forall|j: int| 0 <= j < i ==> names.contains(#[trigger] labels[j].name@)) && (forall|j1: int, j2: int|
                    0 <= j1 < j2 < i ==> (#[trigger] labels[j1]).name@ != (#[trigger] labels[j2]).name@) && (forall|j: int|
                    0 <= j < i ==> value_fits(t, tt, #[trigger] labels[j])),
                ok ==> self.errors().len() == start.errors().len(),
                !ok ==> self.errors().len() > start.errors().len(),
                tt == typ.ty(),
                names == field_names(t, tt),
                ftys@.len() == nf,
                forall|q: int| 0 <= q < nf ==> (#[trigger] ftys@[q]).ty() == struct_field_tys(t, tt)[q] && ty_wf(t, ftys@[q].ty()),
                self.table() == t,
                reports(self.errors()) == reports(start.errors()) + label_errors(t, tt, labels.take(i as int)),
                forall|q: int| 0 <= q < nf ==> (#[trigger] required@[q] <==> !exists|j: int| 0 <= j < i && (#[trigger] labels[j]).name@ == names[q]),
                forall|q: int| 0 <= q < nf ==> ((#[trigger] slots@[q]) is Some <==> !required@[q]),
                forall|q: int, j: int| 0 <= q < nf && 0 <= j < i && (#[trigger] labels[j]).name@ == names[q] && ok ==> #[trigger] slots@[q] == Some(*labels[j].value),
            decreases nl - i,
        {
            let lf = rest.remove(0);
            assert(lf == labels[i as int]);
            assert(rest@ =~= labels.skip(i as int + 1));
            let LabeledField { location: fl, name, value } = lf;
            let mut pos: Option<usize> = None;
            let mut q: usize = 0;
            while q < nf
                invariant
                    q <= nf,
                    field_list@.len() == nf,
                    pos matches Some(x) ==> x < q && field_list@[x as int]@ == name@,
                    pos is None ==> forall|x: int| 0 <= x < q ==> field_list@[x]@ != name@,
                decreases nf - q,
            {
                if pos.is_none() && crate::text::str_eq(field_list[q].as_str(), name.as_str()) {
                    pos = Some(q);
                }
                q = q + 1;
            }
            let accepted = match pos {
                Some(x) => required[x],
                None => false,
            };
            let ghost before = labels.take(i as int);
            proof {
                let tk = labels.take(i as int + 1);
                assert(tk.drop_last() =~= before);
                assert(tk.last() == labels[i as int]);
                if accepted {
                    let x = pos.unwrap();
                    assert(names[x as int] == name@);
                    if has_label(before, name@) {
                        let j = choose|j: int| 0 <= j < before.len() && (#[trigger] before[j]).name@ == name@;
                        assert(labels[j].name@ == names[x as int]);
                    }
                } else {
                    match pos {
                        Some(x) => {
                            assert(names[x as int] == name@);
                            let j = choose|j: int| 0 <= j < i && (#[trigger] labels[j]).name@ == names[x as int];
                            assert(before[j].name@ == name@);
                        },
                        None => {
                            if names.contains(name@) {
                                let q = choose|q: int| 0 <= q < names.len() && names[q] == name@;
                                assert(field_list@[q]@ == name@);
                            }
                        },
                    }
                }
                assert(accepted <==> names.contains(name@) && !has_label(before, name@));
            }
            if accepted {
                let x = pos.unwrap();
                proof {
                    assert(names[x as int] == name@);
                    let ix = names.index_of(name@);
                    assert(names[ix] == name@);
                    if ix < x {
                        assert(names[ix] != names[x as int]);
                    } else if ix > x {
                        assert(names[x as int] != names[ix]);
                    }
                    assert(field_ty(t, tt, name@) == ftys@[x as int].ty());
                }
                let fits = match (*value).typ {
                    SlangType::Undefined => true,
                    _ => same_type(&(*value).typ, &ftys[x]),
                };
                assert(fits == value_fits(t, tt, labels[i as int]));
                if !fits {
                    let mut m = message("Wrong type for field: ");
                    m.append(name.as_str());
                    m.append(", expected ");
                    proof {
                        lemma_wf_printable(t, ftys@[x as int].ty());
                    }
                    let txt = type_text(&self.tab, &ftys[x]);
                    m.append(txt.as_str());
                    let ghost msg = m@;
                    let ghost r0 = reports(self.errors());
                    self.error(fl, m);
                    assert(reports(self.errors()) =~= r0 + seq![(fl, msg)]);
                    ok = false;
                } else {
                    assert(reports(self.errors()) =~= reports(self.errors()) + Seq::empty());
                }
                let ghost old_slots = slots@;
                required.set(x, false);
                slots.set(x, Some(*value));
                proof {
                    assert(names[x as int] == name@);
                    assert(labels[i as int].name@ == name@);
                    assert forall|q2: int| 0 <= q2 < nf implies (#[trigger] required@[q2] <==> !exists|j: int| 0 <= j < i + 1 && (#[trigger] labels[j]).name@ == names[q2]) by {
                        if q2 == x {
                            assert(labels[i as int].name@ == names[q2]);
                        } else {
                            assert(names[q2] != names[x as int]);
                        }
                    }
                    if ok {
                        assert forall|j1: int, j2: int| 0 <= j1 < j2 < i + 1 implies (#[trigger] labels[j1]).name@ != (#[trigger] labels[j2]).name@ by {
                            if j2 == i && labels[j1].name@ == names[x as int] {
                                // The field was still required, so no earlier label named it.
                                assert(old_slots[x as int] is None);
                            }
                        }
                    }
                }
            } else {
                let mut m = message("Superfluous field: ");
                m.append(name.as_str());
                let ghost msg = m@;
                let ghost r0 = reports(self.errors());
                self.error(fl, m);
                assert(reports(self.errors()) =~= r0 + seq![(fl, msg)]);
                ok = false;
            }
            i = i + 1;
        }
        let ghost mid = self.errors().len();
        proof {
            assert(labels.take(nl as int) =~= labels);
            assert(names.take(0) =~= Seq::<Seq<char>>::empty());
            assert forall|q: int| 0 <= q < nf implies (#[trigger] required@[q] <==> !has_label(labels, names[q])) by {
                if has_label(labels, names[q]) {
                    let j = choose|j: int| 0 <= j < labels.len() && (#[trigger] labels[j]).name@ == names[q];
                    assert(labels[j].name@ == names[q]);
                }
            }
        }
        let mut missing = false;
        let mut p: usize = 0;
        while p < nf
            invariant
                p <= nf,
                required@.len() == nf,
                field_list@.len() == nf,
                start.steps(*self),
                t == start.table(),
                mid >= start.errors().len(),
                ok ==> mid == start.errors().len(),
                !ok ==> mid > start.errors().len(),
                missing <==> exists|q: int| 0 <= q < p && required@[q],
                missing ==> self.errors().len() > mid,
                !missing ==> self.errors().len() == mid,
                names.len() == nf,
                forall|q: int| 0 <= q < nf ==> #[trigger] names[q] == field_list@[q]@,
                forall|q: int| 0 <= q < nf ==> (#[trigger] required@[q] <==> !has_label(labels, names[q])),
                reports(self.errors()) == reports(start.errors()) + label_errors(t, typ.ty(), labels) + missing_errors(
                    location,
                    names.take(p as int),
                    labels,
                ),
            decreases nf - p,
        {
            let ghost r0 = reports(self.errors());
            proof {
                let tk = names.take(p as int + 1);
                assert(tk.drop_last() =~= names.take(p as int));
                assert(tk.last() == names[p as int]);
            }
            if required[p] {
                let mut m = message("Missing field: ");
                m.append(field_list[p].as_str());
                let ghost msg = m@;
                self.error(location, m);
                assert(reports(self.errors()) =~= r0 + seq![(location, msg)]);
                missing = true;
            }
            p = p + 1;
        }
        assert(names.take(nf as int) =~= names);
        proof {
            if !missing {
                assert forall|q: int| 0 <= q < nf implies has_label(labels, #[trigger] names[q]) by {
                    assert(!required@[q]);
                }
            } else {
                let q = choose|q: int| 0 <= q < nf && required@[q];
                if has_label(labels, names[q]) {
                    let j = choose|j: int| 0 <= j < labels.len() && (#[trigger] labels[j]).name@ == names[q];
                    assert(labels[j].name@ == names[q]);
                }
            }
        }
        if !ok || missing {
            return None;
        }
        let ghost sl = slots@;
        let mut rest_slots = slots;
        let mut values: Vec<Expression> = Vec::new();
        let mut p: usize = 0;
        assert(sl.skip(0) =~= sl);
        while p < nf
            invariant
                p <= nf,
                sl.len() == nf,
                rest_slots@ == sl.skip(p as int),
                values@.len() == p,
                forall|q: int| 0 <= q < nf ==> (#[trigger] sl[q]) is Some,
                forall|q: int| 0 <= q < p ==> sl[q] == Some(#[trigger] values@[q]),
            decreases nf - p,
        {
            let s = rest_slots.remove(0);
            assert(s == sl[p as int]);
            assert(rest_slots@ =~= sl.skip(p as int + 1));
            values.push(s.unwrap());
            p = p + 1;
        }
        proof {
            assert forall|k2: int, j: int|
                0 <= k2 < values@.len() && 0 <= j < labels.len() && (#[trigger] labels[j]).name@ == names[k2]
                    implies #[trigger] values@[k2] == *labels[j].value by {
                assert(sl[k2] == Some(values@[k2]));
            }
        }
        Some(values)
    }

    /// Convert the object initializers of an expression, inner ones first.
    fn p3_expr(&mut self, e: Expression) -> (r: Expression)
        requires
            old(self).inv(),
            inits_wf(old(self).table(), e),
        ensures
            old(self).steps(*final(self)),
            converted(old(self).table(), e, r),
            final(self).errors().len() == old(self).errors().len() <==> inits_fit(old(self).table(), e),
            final(self).errors().len() == old(self).errors().len() ==> init_free(r),
            reports(final(self).errors()) == reports(old(self).errors()) + expr_errors(old(self).table(), e),
        decreases e,
    {
        let ghost t = self.table();
        let ghost n0 = self.errors().len();
        let ghost r0 = reports(self.errors());
        let Expression { location, kind, typ } = e;
        let kind = match kind {
            ExpressionKind::ObjectInitializer { typ: ot, fields } => {
                let ghost f1 = fields@;
                let fields = self.p3_fields(fields);
                let ghost f2 = fields@;
                let ghost n1 = self.errors().len();
                proof {
                    lemma_init_fits_names(t, ot.ty(), f1, f2);
                    lemma_init_errors_labels(t, location, ot.ty(), f1, f2);
                }
                let ghost r1 = reports(self.errors());
                let conv = self.struct_literal_to_tuple(location, &ot, fields);
                assert(reports(self.errors()) =~= r0 + (labeled_errors(t, f1) + init_errors(t, location, ot.ty(), f1)));
                match conv {
                    Some(values) => {
                        proof {
                            let names = field_names(t, ot.ty());
                            assert forall|k: int, j: int|
                                0 <= k < values@.len() && 0 <= j < f1.len() && (#[trigger] f1[j]).name@ == names[k]
                                    implies converted(t, *f1[j].value, #[trigger] values@[k]) by {
                                assert(f2[j].name@ == names[k]);
                                assert(values@[k] == *f2[j].value);
                            }
                            if self.errors().len() == n0 {
                                assert forall|k: int| 0 <= k < values@.len() implies init_free(#[trigger] values@[k]) by {
                                    assert(has_label(f2, names[k]));
                                    let j = choose|j: int| 0 <= j < f2.len() && (#[trigger] f2[j]).name@ == names[k];
                                    assert(values@[k] == *f2[j].value);
                                }
                            }
                        }
                        ExpressionKind::TupleLiteral { typ: ot, values }
                    },
                    None => ExpressionKind::ObjectInitializer { typ: ot, fields: Vec::new() },
                }
            },
            ExpressionKind::TupleLiteral { typ: tt, values } => {
                ExpressionKind::TupleLiteral { typ: tt, values: self.p3_exprs(values) }
            },
            ExpressionKind::UnionLiteral { attr, value } => {
                ExpressionKind::UnionLiteral { attr, value: Box::new(self.p3_expr(*value)) }
            },
            ExpressionKind::EnumLiteral { enum_type, variant, arguments } => {
                ExpressionKind::EnumLiteral { enum_type, variant, arguments: self.p3_exprs(arguments) }
            },
            ExpressionKind::ListLiteral(values) => ExpressionKind::ListLiteral(self.p3_exprs(values)),
            ExpressionKind::Call { callee, arguments } => {
                let ghost (c0, a0) = (*callee, arguments@);
                let c = self.p3_expr(*callee);
                let a = self.p3_exprs(arguments);
                assert(reports(self.errors()) =~= r0 + (expr_errors(t, c0) + list_errors(t, a0)));
                ExpressionKind::Call { callee: Box::new(c), arguments: a }
            },
            ExpressionKind::TypeCast { to_type, value } => {
                ExpressionKind::TypeCast { to_type, value: Box::new(self.p3_expr(*value)) }
            },
            ExpressionKind::GetAttr { base, attr } => ExpressionKind::GetAttr { base: Box::new(self.p3_expr(*base)), attr },
            ExpressionKind::GetIndex { base, index } => {
                let ghost (b0, x0) = (*base, *index);
                let b = self.p3_expr(*base);
                let x = self.p3_expr(*index);
                assert(reports(self.errors()) =~= r0 + (expr_errors(t, b0) + expr_errors(t, x0)));
                ExpressionKind::GetIndex { base: Box::new(b), index: Box::new(x) }
            },
            ExpressionKind::Binop { lhs, op, rhs } => {
                let ghost (l0, x0) = (*lhs, *rhs);
                let l = self.p3_expr(*lhs);
                let r = self.p3_expr(*rhs);
                assert(reports(self.errors()) =~= r0 + (expr_errors(t, l0) + expr_errors(t, x0)));
                ExpressionKind::Binop { lhs: Box::new(l), op, rhs: Box::new(r) }
            },
            other => {
                assert(reports(self.errors()) =~= r0 + Seq::empty());
                other
            },
        };
        Expression { location, kind, typ }
    }

    /// Convert each expression of a list.
    fn p3_exprs(&mut self, v: Vec<Expression>) -> (r: Vec<Expression>)
        requires
            old(self).inv(),
            forall|i: int| 0 <= i < v@.len() ==> inits_wf(old(self).table(), #[trigger] v@[i]),
        ensures
            old(self).steps(*final(self)),
            all_converted(old(self).table(), v@, r@),
            final(self).errors().len() == old(self).errors().len() <==> forall|i: int|
                0 <= i < v@.len() ==> inits_fit(old(self).table(), #[trigger] v@[i]),
            final(self).errors().len() == old(self).errors().len() ==> forall|i: int|
                0 <= i < r@.len() ==> init_free(#[trigger] r@[i]),
            reports(final(self).errors()) == reports(old(self).errors()) + list_errors(old(self).table(), v@),
        decreases v,
    {
        let ghost vals = v@;
        let ghost start = *self;
        let n = v.len();
        let mut rest = v;
        let mut out: Vec<Expression> = Vec::new();
        let mut i: usize = 0;
        assert(vals.skip(0) =~= vals);
        while i < n
            invariant
                i <= n,
                n == vals.len(),
                vals == v@,
                rest@ == vals.skip(i as int),
                out@.len() == i,
                start == *old(self),
                start.steps(*self),
                forall|j: int| 0 <= j < n ==> inits_wf(start.table(), #[trigger] vals[j]),
                forall|j: int| 0 <= j < i ==> converted(start.table(), vals[j], #[trigger] out@[j]),
                self.errors().len() == start.errors().len() <==> forall|j: int| 0 <= j < i ==> inits_fit(start.table(), #[trigger] vals[j]),
                self.errors().len() == start.errors().len() ==> forall|j: int| 0 <= j < i ==> init_free(#[trigger] out@[j]),
                reports(self.errors()) == reports(start.errors()) + list_errors(start.table(), vals.take(i as int)),
            decreases n - i,
        {
            let x = rest.remove(0);
            assert(x == v@[i as int]);
            assert(rest@ =~= vals.skip(i as int + 1));
            proof {
                let tk = vals.take(i as int + 1);
                assert(tk.drop_last() =~= vals.take(i as int));
                assert(tk.last() == vals[i as int]);
            }
            let ghost r1 = reports(self.errors());
            let y = self.p3_expr(x);
            assert(reports(self.errors()) =~= reports(start.errors()) + list_errors(start.table(), vals.take(i as int + 1)));
            out.push(y);
            i = i + 1;
        }
        assert(vals.take(n as int) =~= vals);
        out
    }

    /// Convert the value of each labeled field.
    fn p3_fields(&mut self, fields: Vec<LabeledField>) -> (r: Vec<LabeledField>)
        requires
            old(self).inv(),
            forall|i: int| 0 <= i < fields@.len() ==> inits_wf(old(self).table(), *(#[trigger] fields@[i]).value),
        ensures
            old(self).steps(*final(self)),
            r@.len() == fields@.len(),
            forall|i: int| 0 <= i < r@.len() ==> (#[trigger] r@[i]).name@ == fields@[i].name@ && r@[i].location == fields@[i].location
                && converted(old(self).table(), *fields@[i].value, *r@[i].value),
            final(self).errors().len() == old(self).errors().len() <==> forall|i: int|
                0 <= i < fields@.len() ==> inits_fit(old(self).table(), *(#[trigger] fields@[i]).value),
            final(self).errors().len() == old(self).errors().len() ==> forall|i: int|
                0 <= i < r@.len() ==> init_free(*(#[trigger] r@[i]).value),
            reports(final(self).errors()) == reports(old(self).errors()) + labeled_errors(old(self).table(), fields@),
        decreases fields,
    {
        let ghost vals = fields@;
        let ghost start = *self;
        let n = fields.len();
        let mut rest = fields;
        let mut out: Vec<LabeledField> = Vec::new();
        let mut i: usize = 0;
        assert(vals.skip(0) =~= vals);
        while i < n
            invariant
                i <= n,
                n == vals.len(),
                vals == fields@,
                rest@ == vals.skip(i as int),
                out@.len() == i,
                start == *old(self),
                start.steps(*self),
                forall|j: int| 0 <= j < n ==> inits_wf(start.table(), *(#[trigger] vals[j]).value),
                forall|j: int| 0 <= j < i ==> (#[trigger] out@[j]).name@ == vals[j].name@ && out@[j].location == vals[j].location
                    && converted(start.table(), *vals[j].value, *out@[j].value),
                self.errors().len() == start.errors().len() <==> forall|j: int| 0 <= j < i ==> inits_fit(start.table(), *(#[trigger] vals[j]).value),
                self.errors().len() == start.errors().len() ==> forall|j: int| 0 <= j < i ==> init_free(*(#[trigger] out@[j]).value),
                reports(self.errors()) == reports(start.errors()) + labeled_errors(start.table(), vals.take(i as int)),
            decreases n - i,
        {
            let f = rest.remove(0);
            assert(f == fields@[i as int]);
            assert(rest@ =~= vals.skip(i as int + 1));
            proof {
                let tk = vals.take(i as int + 1);
                assert(tk.drop_last() =~= vals.take(i as int));
                assert(tk.last() == vals[i as int]);
            }
            let LabeledField { location, name, value } = f;
            let y = self.p3_expr(*value);
            assert(reports(self.errors()) =~= reports(start.errors()) + labeled_errors(start.table(), vals.take(i as int + 1)));
            out.push(LabeledField { location, name, value: Box::new(y) });
            i = i + 1;
        }
        assert(vals.take(n as int) =~= vals);
        out
    }

    /// Convert the initializers in a statement and in the blocks inside it.
    fn p3_stmt(&mut self, s: Statement) -> (r: Statement)
        requires
            old(self).inv(),
            stmt_all(s, wf_pred(old(self).table())),
        ensures
            old(self).steps(*final(self)),
            stmt_map(s, r, conv_rel(old(self).table())),
            final(self).errors().len() == old(self).errors().len() <==> stmt_all(s, fit_pred(old(self).table())),
            final(self).errors().len() == old(self).errors().len() ==> stmt_all(r, free_pred()),
            reports(final(self).errors()) == reports(old(self).errors()) + stmt_errors(old(self).table(), s),
        decreases s,
    {
        let ghost t = self.table();
        let ghost r0 = reports(self.errors());
        let Statement { location, kind } = s;
        let kind = match kind {
            StatementKind::Expression(e) => StatementKind::Expression(self.p3_expr(e)),
            StatementKind::Let { local_id, type_hint, value } => {
                StatementKind::Let { local_id, type_hint, value: self.p3_expr(value) }
            },
            StatementKind::Assignment { target, value } => {
                let ghost (a0, b0) = (target, value);
                let t2 = self.p3_expr(target);
                let v2 = self.p3_expr(value);
                assert(reports(self.errors()) =~= r0 + (expr_errors(t, a0) + expr_errors(t, b0)));
                StatementKind::Assignment { target: t2, value: v2 }
            },
            StatementKind::StoreLocal { local_id, value } => StatementKind::StoreLocal { local_id, value: self.p3_expr(value) },
            StatementKind::SetAttr { base, attr, value } => {
                let ghost (a0, b0) = (base, value);
                let b2 = self.p3_expr(base);
                let v2 = self.p3_expr(value);
                assert(reports(self.errors()) =~= r0 + (expr_errors(t, a0) + expr_errors(t, b0)));
                StatementKind::SetAttr { base: b2, attr, value: v2 }
            },
            StatementKind::SetIndex { base, index, value } => {
                let ghost (a0, b0, c0) = (base, index, value);
                let b2 = self.p3_expr(base);
                let i2 = self.p3_expr(index);
                let v2 = self.p3_expr(value);
                assert(reports(self.errors()) =~= r0 + (expr_errors(t, a0) + expr_errors(t, b0) + expr_errors(t, c0)));
                StatementKind::SetIndex { base: b2, index: i2, value: v2 }
            },
            StatementKind::If(IfStatement { condition, if_true, if_false }) => {
                let ghost (c0, t0, f0) = (condition, if_true@, if_false);
                let c = self.p3_expr(condition);
                let tb = self.p3_block(if_true);
                let ghost r1 = reports(self.errors());
                let fb = match if_false {
                    Some(b) => Some(self.p3_block(b)),
                    None => None,
                };
                assert(reports(self.errors()) =~= r0 + (expr_errors(t, c0) + block_errors(t, t0) + match f0 {
                    Some(b) => block_errors(t, b@),
                    None => Seq::empty(),
                }));
                StatementKind::If(IfStatement { condition: c, if_true: tb, if_false: fb })
            },
            StatementKind::Loop { body } => StatementKind::Loop { body: self.p3_block(body) },
            StatementKind::While(WhileStatement { condition, body }) => {
                let ghost (c0, b0) = (condition, body@);
                let c = self.p3_expr(condition);
                let b = self.p3_block(body);
                assert(reports(self.errors()) =~= r0 + (expr_errors(t, c0) + block_errors(t, b0)));
                StatementKind::While(WhileStatement { condition: c, body: b })
            },
            StatementKind::For { loop_var, iterable, body } => {
                let ghost (c0, b0) = (iterable, body@);
                let i2 = self.p3_expr(iterable);
                let b = self.p3_block(body);
                assert(reports(self.errors()) =~= r0 + (expr_errors(t, c0) + block_errors(t, b0)));
                StatementKind::For { loop_var, iterable: i2, body: b }
            },
            StatementKind::Return { value } => match value {
                Some(v) => StatementKind::Return { value: Some(self.p3_expr(v)) },
                None => {
                    assert(reports(self.errors()) =~= r0 + Seq::empty());
                    StatementKind::Return { value: None }
                },
            },
            StatementKind::Case(CaseStatement { value, arms }) => {
                let ghost (c0, b0) = (value, arms@);
                let v = self.p3_expr(value);
                let a = self.p3_case_arms(arms);
                assert(reports(self.errors()) =~= r0 + (expr_errors(t, c0) + case_arms_errors(t, b0)));
                StatementKind::Case(CaseStatement { value: v, arms: a })
            },
            StatementKind::Switch(SwitchStatement { value, arms, default }) => {
                let ghost (a0, b0, c0) = (value, arms@, default@);
                let v = self.p3_expr(value);
                let a = self.p3_switch_arms(arms);
                let d = self.p3_block(default);
                assert(reports(self.errors()) =~= r0 + (expr_errors(t, a0) + switch_arms_errors(t, b0) + block_errors(t, c0)));
                StatementKind::Switch(SwitchStatement { value: v, arms: a, default: d })
            },
            StatementKind::Compound(b) => StatementKind::Compound(self.p3_block(b)),
            other => {
                assert(reports(self.errors()) =~= r0 + Seq::empty());
                other
            },
        };
        Statement { location, kind }
    }

    /// Convert the initializers of each statement of a block.
    fn p3_block(&mut self, b: Block) -> (r: Block)
        requires
            old(self).inv(),
            block_all(b@, wf_pred(old(self).table())),
        ensures
            old(self).steps(*final(self)),
            block_map(b@, r@, conv_rel(old(self).table())),
            final(self).errors().len() == old(self).errors().len() <==> block_all(b@, fit_pred(old(self).table())),
            final(self).errors().len() == old(self).errors().len() ==> block_all(r@, free_pred()),
            reports(final(self).errors()) == reports(old(self).errors()) + block_errors(old(self).table(), b@),
        decreases b,
    {
        let ghost vals = b@;
        let ghost start = *self;
        let ghost t = self.table();
        let n = b.len();
        let mut rest = b;
        let mut out: Vec<Statement> = Vec::new();
        let mut i: usize = 0;
        assert(vals.skip(0) =~= vals);
        while i < n
            invariant
                i <= n,
                n == vals.len(),
                vals == b@,
                rest@ == vals.skip(i as int),
                out@.len() == i,
                start == *old(self),
                t == start.table(),
                start.steps(*self),
                forall|j: int| 0 <= j < n ==> stmt_all(#[trigger] vals[j], wf_pred(t)),
                forall|j: int| 0 <= j < i ==> stmt_map(vals[j], #[trigger] out@[j], conv_rel(t)),
                self.errors().len() == start.errors().len() <==> forall|j: int| 0 <= j < i ==> stmt_all(#[trigger] vals[j], fit_pred(t)),
                self.errors().len() == start.errors().len() ==> forall|j: int| 0 <= j < i ==> stmt_all(#[trigger] out@[j], free_pred()),
                reports(self.errors()) == reports(start.errors()) + block_errors(t, vals.take(i as int)),
            decreases n - i,
        {
            let x = rest.remove(0);
            assert(x == b@[i as int]);
            assert(rest@ =~= vals.skip(i as int + 1));
            proof {
                let tk = vals.take(i as int + 1);
                assert(tk.drop_last() =~= vals.take(i as int));
                assert(tk.last() == vals[i as int]);
            }
            let y = self.p3_stmt(x);
            assert(reports(self.errors()) =~= reports(start.errors()) + block_errors(t, vals.take(i as int + 1)));
            out.push(y);
            i = i + 1;
        }
        assert(vals.take(n as int) =~= vals);
        out
    }

    /// Convert the initializers in the bodies of the arms of a case statement.
    fn p3_case_arms(&mut self, arms: Vec<CaseArm>) -> (r: Vec<CaseArm>)
        requires
            old(self).inv(),
            forall|k: int| 0 <= k < arms@.len() ==> block_all((#[trigger] arms@[k]).body@, wf_pred(old(self).table())),
        ensures
            old(self).steps(*final(self)),
            r@.len() == arms@.len(),
            forall|k: int| 0 <= k < arms@.len() ==> {
                &&& (#[trigger] r@[k]).location == arms@[k].location
                &&& r@[k].variant == arms@[k].variant
                &&& r@[k].local_ids == arms@[k].local_ids
                &&& block_map(arms@[k].body@, r@[k].body@, conv_rel(old(self).table()))
            },
            final(self).errors().len() == old(self).errors().len() <==> forall|k: int|
                0 <= k < arms@.len() ==> block_all((#[trigger] arms@[k]).body@, fit_pred(old(self).table())),
            final(self).errors().len() == old(self).errors().len() ==> forall|k: int|
                0 <= k < r@.len() ==> block_all((#[trigger] r@[k]).body@, free_pred()),
            reports(final(self).errors()) == reports(old(self).errors()) + case_arms_errors(old(self).table(), arms@),
        decreases arms,
    {
        let ghost vals = arms@;
        let ghost start = *self;
        let ghost t = self.table();
        let n = arms.len();
        let mut rest = arms;
        let mut out: Vec<CaseArm> = Vec::new();
        let mut i: usize = 0;
        assert(vals.skip(0) =~= vals);
        while i < n
            invariant
                i <= n,
                n == vals.len(),
                vals == arms@,
                rest@ == vals.skip(i as int),
                out@.len() == i,
                start == *old(self),
                t == start.table(),
                start.steps(*self),
                forall|j: int| 0 <= j < n ==> block_all((#[trigger] vals[j]).body@, wf_pred(t)),
                forall|j: int| 0 <= j < i ==> {
                    &&& (#[trigger] out@[j]).location == vals[j].location
                    &&& out@[j].variant == vals[j].variant
                    &&& out@[j].local_ids == vals[j].local_ids
                    &&& block_map(vals[j].body@, out@[j].body@, conv_rel(t))
                },
                self.errors().len() == start.errors().len() <==> forall|j: int| 0 <= j < i ==> block_all((#[trigger] vals[j]).body@, fit_pred(t)),
                self.errors().len() == start.errors().len() ==> forall|j: int| 0 <= j < i ==> block_all((#[trigger] out@[j]).body@, free_pred()),
                reports(self.errors()) == reports(start.errors()) + case_arms_errors(t, vals.take(i as int)),
            decreases n - i,
        {
            let arm = rest.remove(0);
            assert(arm == arms@[i as int]);
            assert(rest@ =~= vals.skip(i as int + 1));
            proof {
                let tk = vals.take(i as int + 1);
                assert(tk.drop_last() =~= vals.take(i as int));
                assert(tk.last() == vals[i as int]);
            }
            let CaseArm { location, variant, local_ids, body } = arm;
            let body = self.p3_block(body);
            assert(reports(self.errors()) =~= reports(start.errors()) + case_arms_errors(t, vals.take(i as int + 1)));
            out.push(CaseArm { location, variant, local_ids, body });
            i = i + 1;
        }
        assert(vals.take(n as int) =~= vals);
        out
    }

    /// Convert the initializers in the values and bodies of the arms of a switch.
    fn p3_switch_arms(&mut self, arms: Vec<SwitchArm>) -> (r: Vec<SwitchArm>)
        requires
            old(self).inv(),
            forall|k: int| 0 <= k < arms@.len() ==> inits_wf(old(self).table(), (#[trigger] arms@[k]).value) && block_all(
                arms@[k].body@,
                wf_pred(old(self).table()),
            ),
        ensures
            old(self).steps(*final(self)),
            r@.len() == arms@.len(),
            forall|k: int| 0 <= k < arms@.len() ==> converted(old(self).table(), arms@[k].value, (#[trigger] r@[k]).value)
                && block_map(arms@[k].body@, r@[k].body@, conv_rel(old(self).table())),
            final(self).errors().len() == old(self).errors().len() <==> forall|k: int|
                0 <= k < arms@.len() ==> inits_fit(old(self).table(), (#[trigger] arms@[k]).value) && block_all(
                    arms@[k].body@,
                    fit_pred(old(self).table()),
                ),
            final(self).errors().len() == old(self).errors().len() ==> forall|k: int|
                0 <= k < r@.len() ==> init_free((#[trigger] r@[k]).value) && block_all(r@[k].body@, free_pred()),
            reports(final(self).errors()) == reports(old(self).errors()) + switch_arms_errors(old(self).table(), arms@),
        decreases arms,
    {
        let ghost vals = arms@;
        let ghost start = *self;
        let ghost t = self.table();
        let n = arms.len();
        let mut rest = arms;
        let mut out: Vec<SwitchArm> = Vec::new();
        let mut i: usize = 0;
        assert(vals.skip(0) =~= vals);
        while i < n
            invariant
                i <= n,
                n == vals.len(),
                vals == arms@,
                rest@ == vals.skip(i as int),
                out@.len() == i,
                start == *old(self),
                t == start.table(),
                start.steps(*self),
                forall|j: int| 0 <= j < n ==> inits_wf(t, (#[trigger] vals[j]).value) && block_all(vals[j].body@, wf_pred(t)),
                forall|j: int| 0 <= j < i ==> converted(t, vals[j].value, (#[trigger] out@[j]).value) && block_map(
                    vals[j].body@,
                    out@[j].body@,
                    conv_rel(t),
                ),
                self.errors().len() == start.errors().len() <==> forall|j: int|
                    0 <= j < i ==> inits_fit(t, (#[trigger] vals[j]).value) && block_all(vals[j].body@, fit_pred(t)),
                self.errors().len() == start.errors().len() ==> forall|j: int|
                    0 <= j < i ==> init_free((#[trigger] out@[j]).value) && block_all(out@[j].body@, free_pred()),
                reports(self.errors()) == reports(start.errors()) + switch_arms_errors(t, vals.take(i as int)),
            decreases n - i,
        {
            let arm = rest.remove(0);
            assert(arm == arms@[i as int]);
            assert(rest@ =~= vals.skip(i as int + 1));
            proof {
                let tk = vals.take(i as int + 1);
                assert(tk.drop_last() =~= vals.take(i as int));
                assert(tk.last() == vals[i as int]);
            }
            let SwitchArm { value, body } = arm;
            let value = self.p3_expr(value);
            let body = self.p3_block(body);
            assert(reports(self.errors()) =~= reports(start.errors()) + switch_arms_errors(t, vals.take(i as int + 1)));
            out.push(SwitchArm { value, body });
            i = i + 1;
        }
        assert(vals.take(n as int) =~= vals);
        out
    }

    fn p3_field(&mut self, f: FieldDef) -> (r: FieldDef)
        requires
            old(self).inv(),
            field_all(f, wf_pred(old(self).table())),
        ensures
            old(self).steps(*final(self)),
            field_map(f, r, conv_rel(old(self).table())),
            final(self).errors().len() == old(self).errors().len() <==> field_all(f, fit_pred(old(self).table())),
            final(self).errors().len() == old(self).errors().len() ==> field_all(r, free_pred()),
            reports(final(self).errors()) == reports(old(self).errors()) + match f.value {
                Some(v) => expr_errors(old(self).table(), v),
                None => Seq::empty(),
            },
    {
        let FieldDef { location, name, index, typ, value } = f;
        let value = match value {
            Some(v) => Some(self.p3_expr(v)),
            None => {
                assert(reports(self.errors()) =~= reports(self.errors()) + Seq::empty());
                None
            },
        };
        FieldDef { location, name, index, typ, value }
    }

    /// Convert the initializers in the values of the fields, in order.
    fn p3_fields_of(&mut self, fs: Vec<FieldDef>) -> (r: Vec<FieldDef>)
        requires
            old(self).inv(),
            fields_all(fs@, wf_pred(old(self).table())),
        ensures
            old(self).steps(*final(self)),
            fields_map(fs@, r@, conv_rel(old(self).table())),
            final(self).errors().len() == old(self).errors().len() <==> fields_all(fs@, fit_pred(old(self).table())),
            final(self).errors().len() == old(self).errors().len() ==> fields_all(r@, free_pred()),
            reports(final(self).errors()) == reports(old(self).errors()) + fields_errors(old(self).table(), fs@),
    {
        let ghost vals = fs@;
        let ghost start = *self;
        let ghost t = self.table();
        let n = fs.len();
        let mut rest = fs;
        let mut out: Vec<FieldDef> = Vec::new();
        let mut i: usize = 0;
        assert(vals.skip(0) =~= vals);
        while i < n
            invariant
                i <= n,
                n == vals.len(),
                rest@ == vals.skip(i as int),
                out@.len() == i,
                start == *old(self),
                t == start.table(),
                start.steps(*self),
                fields_all(vals, wf_pred(t)),
                forall|j: int| 0 <= j < i ==> field_map(vals[j], #[trigger] out@[j], conv_rel(t)),
                self.errors().len() == start.errors().len() <==> forall|j: int| 0 <= j < i ==> field_all(#[trigger] vals[j], fit_pred(t)),
                self.errors().len() == start.errors().len() ==> forall|j: int| 0 <= j < i ==> field_all(#[trigger] out@[j], free_pred()),
                reports(self.errors()) == reports(start.errors()) + fields_errors(t, vals.take(i as int)),
            decreases n - i,
        {
            let x = rest.remove(0);
            assert(x == vals[i as int]);
            assert(rest@ =~= vals.skip(i as int + 1));
            proof {
                let tk = vals.take(i as int + 1);
                assert(tk.drop_last() =~= vals.take(i as int));
                assert(tk.last() == vals[i as int]);
            }
            let y = self.p3_field(x);
            assert(reports(self.errors()) =~= reports(start.errors()) + fields_errors(t, vals.take(i as int + 1)));
            out.push(y);
            i = i + 1;
        }
        assert(vals.take(n as int) =~= vals);
        out
    }

    fn p3_function(&mut self, f: FunctionDef) -> (r: FunctionDef)
        requires
            old(self).inv(),
            block_all(f.body@, wf_pred(old(self).table())),
        ensures
            old(self).steps(*final(self)),
            fn_map(f, r, conv_rel(old(self).table())),
            final(self).errors().len() == old(self).errors().len() <==> block_all(f.body@, fit_pred(old(self).table())),
            final(self).errors().len() == old(self).errors().len() ==> block_all(r.body@, free_pred()),
            reports(final(self).errors()) == reports(old(self).errors()) + block_errors(old(self).table(), f.body@),
    {
        let FunctionDef { name, location, signature, this_param, locals, body } = f;
        let body = self.p3_block(body);
        FunctionDef { name, location, signature, this_param, locals, body }
    }

    fn p3_definition(&mut self, d: Definition) -> (r: Definition)
        requires
            old(self).inv(),
            def_all(d, wf_pred(old(self).table())),
        ensures
            old(self).steps(*final(self)),
            def_map(d, r, conv_rel(old(self).table())),
            final(self).errors().len() == old(self).errors().len() <==> def_all(d, fit_pred(old(self).table())),
            final(self).errors().len() == old(self).errors().len() ==> def_all(r, free_pred()),
            reports(final(self).errors()) == reports(old(self).errors()) + def_errors(old(self).table(), d),
    {
        let ghost t = self.table();
        let ghost r0 = reports(self.errors());
        match d {
            Definition::Function(f) => Definition::Function(self.p3_function(f)),
            Definition::Class(c) => {
                let ClassDef { location, name, type_parameters, fields, methods } = c;
                let ghost f0 = fields@;
                let fields = self.p3_fields_of(fields);
                let ghost mid = *self;
                let ghost vals = methods@;
                let n = methods.len();
                let mut rest = methods;
                let mut out: Vec<FunctionDef> = Vec::new();
                let mut i: usize = 0;
                assert(vals.skip(0) =~= vals);
                while i < n
                    invariant
                        i <= n,
                        n == vals.len(),
                        rest@ == vals.skip(i as int),
                        out@.len() == i,
                        t == mid.table(),
                        mid.steps(*self),
                        mid.inv(),
                        forall|j: int| 0 <= j < n ==> block_all((#[trigger] vals[j]).body@, wf_pred(t)),
                        forall|j: int| 0 <= j < i ==> fn_map(vals[j], #[trigger] out@[j], conv_rel(t)),
                        self.errors().len() == mid.errors().len() <==> forall|j: int|
                            0 <= j < i ==> block_all((#[trigger] vals[j]).body@, fit_pred(t)),
                        self.errors().len() == mid.errors().len() ==> forall|j: int|
                            0 <= j < i ==> block_all((#[trigger] out@[j]).body@, free_pred()),
                        reports(self.errors()) == reports(mid.errors()) + methods_errors(t, vals.take(i as int)),
                    decreases n - i,
                {
                    let m = rest.remove(0);
                    assert(m == vals[i as int]);
                    assert(rest@ =~= vals.skip(i as int + 1));
                    proof {
                        let tk = vals.take(i as int + 1);
                        assert(tk.drop_last() =~= vals.take(i as int));
                        assert(tk.last() == vals[i as int]);
                    }
                    let m2 = self.p3_function(m);
                    assert(reports(self.errors()) =~= reports(mid.errors()) + methods_errors(t, vals.take(i as int + 1)));
                    out.push(m2);
                    i = i + 1;
                }
                assert(vals.take(n as int) =~= vals);
                assert(reports(self.errors()) =~= r0 + (fields_errors(t, f0) + methods_errors(t, vals)));
                Definition::Class(ClassDef { location, name, type_parameters, fields, methods: out })
            },
            Definition::Struct(StructDef { location, name, type_parameters, fields }) => {
                let fields = self.p3_fields_of(fields);
                Definition::Struct(StructDef { location, name, type_parameters, fields })
            },
            Definition::Union(StructDef { location, name, type_parameters, fields }) => {
                let fields = self.p3_fields_of(fields);
                Definition::Union(StructDef { location, name, type_parameters, fields })
            },
            Definition::Enum(e) => {
                assert(reports(self.errors()) =~= r0 + Seq::empty());
                Definition::Enum(e)
            },
        }
    }
}

/// Turn every object initializer of the program into a tuple literal of its
/// values in the order of the struct's fields. An initializer that names a
/// field twice, names no field of the struct, leaves a field out, gives a
/// field a value of known type other than the field's, or whose type is no
/// struct type is an error, and is left without values.
pub fn pass3(program: &mut Program) -> (r: Result<(), CompilationError>)
    requires
        table_wf(def_infos(old(program).definitions@)),
        struct_fields_distinct(def_infos(old(program).definitions@)),
        defs_all(old(program).definitions@, wf_pred(def_infos(old(program).definitions@))),
    ensures
        final(program).name == old(program).name,
        final(program).path == old(program).path,
        final(program).definitions@.len() == old(program).definitions@.len(),
        forall|i: int| 0 <= i < old(program).definitions@.len() ==> def_map(
            old(program).definitions@[i],
            #[trigger] final(program).definitions@[i],
            conv_rel(def_infos(old(program).definitions@)),
        ),
        r is Ok <==> defs_all(old(program).definitions@, fit_pred(def_infos(old(program).definitions@))),
        r is Ok ==> defs_all(final(program).definitions@, free_pred()),
        r matches Err(e) ==> e matches CompilationError::MultiError(es) && es@.len() > 0 && (forall|i: int|
            0 <= i < es@.len() ==> at_path(#[trigger] es@[i], old(program).path@)) && reports(es@) == defs_errors(
            def_infos(old(program).definitions@),
            old(program).definitions@,
        ),
{
    let tab = type_table(&program.definitions);
    let mut p3 = Pass3 { diagnostics: Diagnostics::new(program.path.as_str()), tab };
    let ghost t = def_infos(program.definitions@);
    let mut defs: Vec<Definition> = Vec::new();
    std::mem::swap(&mut defs, &mut program.definitions);
    let ghost vals = defs@;
    let n = defs.len();
    let mut rest = defs;
    let mut out: Vec<Definition> = Vec::new();
    let mut i: usize = 0;
    assert(vals.skip(0) =~= vals);
    while i < n
        invariant
            i <= n,
            n == vals.len(),
            rest@ == vals.skip(i as int),
            out@.len() == i,
            p3.inv(),
            p3.table() == t,
            p3.path() == program.path@,
            defs_all(vals, wf_pred(t)),
            forall|j: int| 0 <= j < i ==> def_map(vals[j], #[trigger] out@[j], conv_rel(t)),
            p3.errors().len() == 0 <==> forall|j: int| 0 <= j < i ==> def_all(#[trigger] vals[j], fit_pred(t)),
            p3.errors().len() == 0 ==> forall|j: int| 0 <= j < i ==> def_all(#[trigger] out@[j], free_pred()),
            reports(p3.errors()) == defs_errors(t, vals.take(i as int)),
        decreases n - i,
    {
        let d = rest.remove(0);
        assert(d == vals[i as int]);
        assert(rest@ =~= vals.skip(i as int + 1));
        proof {
            let tk = vals.take(i as int + 1);
            assert(tk.drop_last() =~= vals.take(i as int));
            assert(tk.last() == vals[i as int]);
        }
        let d2 = p3.p3_definition(d);
        assert(reports(p3.errors()) =~= defs_errors(t, vals.take(i as int + 1)));
        out.push(d2);
        i = i + 1;
    }
    assert(vals.take(n as int) =~= vals);
    program.definitions = out;
    p3.diagnostics.value_or_error(())
}

} // verus!
