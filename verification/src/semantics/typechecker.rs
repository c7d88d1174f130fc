//! The type checker: gives each expression its type, inserts the conversions
//! from `int` to `float` that the language makes implicitly, and reports the
//! places where types do not fit.

use super::diagnostics::Diagnostics;
use super::typing::{
    args_fit, all_fit, any_undef, bool_ty, cond_wt, ewf, ewf_all, fits, fits_or_undef, float_ty, has_local, has_param,
    has_undef, int_ty, lemma_all_fit, lemma_any_undef, lemma_args_fit, lemma_ewf_all, literal_ty, local_ids, param_ids, wt,
    arm_fine, arm_wf, arms_fine, armswf, block_fine, bwf, lemma_arms_fine, lemma_armswf, lemma_block_fine, lemma_bwf,
    stmt_fine, stmt_undef, swf, wt_stmt, def_fine, def_wf, field_fine, field_wf, fn_fine, fn_params, fn_ret, fn_wf,
    prog_fine, prog_wf, class_ty, all_coerce_ok, coerce_ok, common_ty, infer, lemma_all_coerce_ok, lemma_infer_defined,
    lemma_lookup_first, local_env, lookup_env, param_env, repeat_ty, infer_stmt, infer_block, infer_arms, set_env,
    lemma_set_first, lemma_set_absent, case_arm_fine, case_arm_wf, case_arms_fine, case_arms_wf, enum_ty, first_variant,
    has_arm_for, infer_case_arms, set_envs, lemma_case_arms_fine, lemma_case_arms_wf, variant_count, variant_data_tys, field_clean, fn_clean, fn_env, def_clean, prog_clean,
    annotated, all_annotated, lemma_annotated_refl, lemma_all_annotated_refl, symbol_same, stmt_annotated, blocks_annotated,
    lemma_stmt_annotated_refl, lemma_blocks_annotated_refl, variant_resolved, variant_resolves, field_annotated, fn_annotated, def_annotated, plain, operand_as,
};
use crate::ast::{BinaryOperator, MathOperator};
use crate::errors::CompilationError;
use crate::location::Location;
use crate::text::nat_text;
use crate::tast::type_system::{
    def_infos, enum_variant_types, find_entry, DefKind, variant_tys, find_info, info_of, lemma_find_info, copy_types, type_table,
    attr_ty, get_attr_type, infos, lemma_all_wf, lemma_attr_wf, lemma_param_tys, lemma_tys, lemma_wf_resolved,
    param_tys, resolved, same_type, struct_field_tys, struct_field_types, table_wf, ty_wf, tys, DefInfo, Ty,
    TypeDefEntry,
};
use crate::tast::type_text::{lemma_wf_printable, ty_text, type_text};
use crate::tast::{
    ArrayType, BasicType, Block, CaseArm, CaseStatement, ClassDef, EnumType, VariantRef, ClassType, Definition, Expression, ExpressionKind, FieldDef, FunctionDef,
    IfStatement, Program, StructDef, Literal, LocalVariable, Parameter, SlangType,
    Statement, StatementKind, SwitchArm, SwitchStatement, Symbol, UserType, WhileStatement,
};
use vstd::prelude::*;

verus! {

/// What the checker knows of the function whose body it checks.
pub struct FnContext {
    /// The parameters, the object parameter of a method among them.
    pub params: Vec<Parameter>,
    pub return_type: Option<SlangType>,
}

pub open spec fn ctx_wf(tab: Seq<DefInfo>, ctx: FnContext) -> bool {
    &&& forall|i: int| 0 <= i < ctx.params@.len() ==> ty_wf(tab, (#[trigger] ctx.params@[i]).typ.ty())
    &&& match ctx.return_type {
        Some(t) => ty_wf(tab, t.ty()),
        None => true,
    }
}

pub open spec fn locals_wf(tab: Seq<DefInfo>, locals: Seq<LocalVariable>) -> bool {
    forall|i: int| 0 <= i < locals.len() ==> ty_wf(tab, (#[trigger] locals[i]).typ.ty())
}

/// An error at a place of the file with this path.
pub open spec fn at_path(e: CompilationError, p: Seq<char>) -> bool {
    e matches CompilationError::SingleError { path, .. } && path@ == p
}

pub struct TypeChecker {
    diagnostics: Diagnostics,
    tab: Vec<TypeDefEntry>,
}

impl TypeChecker {
    /// The type definitions of the program being checked.
    pub closed spec fn table(&self) -> Seq<DefInfo> {
        infos(self.tab@)
    }

    pub closed spec fn errors(&self) -> Seq<CompilationError> {
        self.diagnostics.errors()
    }

    pub closed spec fn path(&self) -> Seq<char> {
        self.diagnostics.path()
    }

    /// The definitions are well formed and every error is one at a place of the checked file.
    pub closed spec fn inv(&self) -> bool {
        &&& table_wf(infos(self.tab@))
        &&& forall|i: int| 0 <= i < self.diagnostics.errors().len() ==> at_path(#[trigger] self.diagnostics.errors()[i], self.diagnostics.path())
    }

    /// Checking found no fault: it succeeded, reported nothing, and gave the type `t`.
    pub open spec fn found(&self, next: TypeChecker, e: Expression, ok: bool, t: Ty) -> bool {
        ok && next.errors().len() == self.errors().len() && e.typ.ty() == t
    }

    /// Checking that reported nothing and left no part undefined gave the
    /// expression `b` the type that `infer` finds for `a`.
    pub open spec fn exact(&self, next: TypeChecker, ctx: FnContext, locals: Seq<LocalVariable>, a: Expression, b: Expression, ok: bool) -> bool {
        ok && next.errors().len() == self.errors().len() && !has_undef(b) ==> infer(
            self.table(),
            param_env(ctx.params@),
            local_env(locals),
            a,
        ) == Some(b.typ.ty())
    }

    /// From `self` to `next`, exactly one error was reported: at `location`,
    /// with the message `msg`.
    pub open spec fn reported(&self, next: TypeChecker, location: Location, msg: Seq<char>) -> bool {
        &&& next.errors().len() == self.errors().len() + 1
        &&& next.errors().last() matches CompilationError::SingleError { location: l, message: m, .. }
        &&& l == location
        &&& m@ == msg
    }

    /// The error of a binary operation whose operands have types that do not
    /// fit; else where its operands stand: a comparison's as they are, an
    /// arithmetic operand inside a cast only where its type is not the operation's.
    pub open spec fn binop_reports(&self, next: TypeChecker, ctx: FnContext, locals: Seq<LocalVariable>, e: Expression, r0: Expression, ok: bool) -> bool {
        e.kind matches ExpressionKind::Binop { lhs, op, rhs } ==> match (
            infer(self.table(), param_env(ctx.params@), local_env(locals), *lhs),
            infer(self.table(), param_env(ctx.params@), local_env(locals), *rhs),
        ) {
            (Some(a), Some(b)) => {
                &&& (op is Comparison && a != b) || (op is Math && common_ty(a, b) is None) ==> !ok && self.reported(
                    next,
                    e.location,
                    "Expected "@ + ty_text(self.table(), a) + ", but got "@ + ty_text(self.table(), b),
                )
                &&& match op {
                    BinaryOperator::Comparison(_) => a == b ==> (r0.kind matches ExpressionKind::Binop { lhs: l2, rhs: r2, .. }
                        && operand_as(*lhs, *l2, a, a) && operand_as(*rhs, *r2, b, b)),
                    BinaryOperator::Math(m) => match common_ty(a, b) {
                        Some(c) => {
                            let t = if m == MathOperator::Div && c == int_ty() {
                                float_ty()
                            } else {
                                c
                            };
                            r0.kind matches ExpressionKind::Binop { lhs: l2, rhs: r2, .. } && operand_as(*lhs, *l2, a, t)
                                && operand_as(*rhs, *r2, b, t)
                        },
                        None => true,
                    },
                    _ => true,
                }
            },
            _ => true,
        }
    }

    /// The error of indexing a value that is no array.
    pub open spec fn index_reports(&self, next: TypeChecker, ctx: FnContext, locals: Seq<LocalVariable>, e: Expression, r0: Expression, ok: bool) -> bool {
        e.kind matches ExpressionKind::GetIndex { base, .. } ==> match infer(
            self.table(),
            param_env(ctx.params@),
            local_env(locals),
            *base,
        ) {
            Some(tb) => !(tb is Array) ==> !ok && self.reported(
                next,
                e.location,
                "Cannot array-index non-array '"@ + ty_text(self.table(), tb) + "' type."@,
            ),
            None => true,
        }
    }

    /// The error of a call with the wrong number of arguments; with the right
    /// number, the call has the return type, whatever its arguments gave.
    pub open spec fn call_reports(&self, next: TypeChecker, ctx: FnContext, locals: Seq<LocalVariable>, e: Expression, r0: Expression, ok: bool) -> bool {
        e.kind matches ExpressionKind::Call { callee, arguments } ==> match infer(
            self.table(),
            param_env(ctx.params@),
            local_env(locals),
            *callee,
        ) {
            Some(Ty::Function(ps, ret)) => {
                &&& !(callee.kind is LoadSymbol && callee.kind->LoadSymbol_0 is Typ) && ps.len() != arguments@.len() ==> !ok
                    && r0.typ == e.typ && self.reported(
                    next,
                    e.location,
                    "Expected "@ + nat_text(ps.len()) + ", but got "@ + nat_text(arguments@.len()) + " arguments "@,
                )
                &&& !(callee.kind is LoadSymbol && callee.kind->LoadSymbol_0 is Typ) && ps.len() == arguments@.len() ==> ok
                    && r0.typ.ty() == match ret {
                    Some(b) => *b,
                    None => Ty::Void,
                }
            },
            _ => true,
        }
    }

    /// The error at the first value of a list that does not fit the type of the first.
    pub open spec fn list_reports(&self, next: TypeChecker, ctx: FnContext, locals: Seq<LocalVariable>, e: Expression, r0: Expression, ok: bool) -> bool {
        e.kind matches ExpressionKind::ListLiteral(values) ==> match infer(
            self.table(),
            param_env(ctx.params@),
            local_env(locals),
            values@[0],
        ) {
            Some(a) => forall|k: int|
                #[trigger] first_misfit(self.table(), param_env(ctx.params@), local_env(locals), a, values@, k) ==> !ok
                    && self.reported(
                    next,
                    values@[k].location,
                    "Expected "@ + ty_text(self.table(), a) + ", but got "@ + ty_text(
                        self.table(),
                        infer(self.table(), param_env(ctx.params@), local_env(locals), values@[k])->0,
                    ),
                ) && (r0.kind matches ExpressionKind::ListLiteral(out) && forall|j: int|
                    k < j < values@.len() ==> #[trigger] out@[j] == values@[j]),
            None => true,
        }
    }

    /// The errors of a return statement that does not fit the function's return type.
    pub open spec fn return_reports(&self, next: TypeChecker, ctx: FnContext, locals: Seq<LocalVariable>, s: Statement, r0: Statement, ok: bool) -> bool {
        s.kind matches StatementKind::Return { value } ==> match (value, ctx.return_type) {
            (Some(v), None) => infer(self.table(), param_env(ctx.params@), local_env(locals), v) is Some ==> ok
                && self.reported(next, s.location, "Function does not return anything"@),
            (None, Some(rt)) => ok && self.reported(
                next,
                s.location,
                "Return nothing, but expected: "@ + ty_text(self.table(), rt.ty()),
            ),
            (Some(v), Some(rt)) => match infer(self.table(), param_env(ctx.params@), local_env(locals), v) {
                Some(a) => a != rt.ty() ==> !ok && self.reported(
                    next,
                    s.location,
                    "Expected "@ + ty_text(self.table(), rt.ty()) + ", but got "@ + ty_text(self.table(), a),
                ),
                None => true,
            },
            (None, None) => ok && next.errors() == self.errors(),
        }
    }

    /// The error of a loop over a value that is no array, whose body is then left unchecked.
    pub open spec fn for_reports(&self, next: TypeChecker, ctx: FnContext, locals: Seq<LocalVariable>, s: Statement, r0: Statement, ok: bool) -> bool {
        s.kind matches StatementKind::For { loop_var, iterable, body } ==> match infer(
            self.table(),
            param_env(ctx.params@),
            local_env(locals),
            iterable,
        ) {
            Some(ti) => !(ti is Array) ==> !ok && (r0.kind matches StatementKind::For { body: b2, .. } && b2 == body)
                && self.reported(next, s.location, "Cannot loop over "@ + ty_text(self.table(), ti)),
            None => true,
        }
    }

    /// The errors of a case statement: a value of no enum type, the errors of
    /// each arm, variants that no arm covers; with a value of enum type, each
    /// arm's variant resolved.
    pub open spec fn case_reports(&self, next: TypeChecker, ctx: FnContext, locals: Seq<LocalVariable>, s: Statement, r0: Statement, ok: bool) -> bool {
        s.kind matches StatementKind::Case(cs) ==> match infer(
            self.table(),
            param_env(ctx.params@),
            local_env(locals),
            cs.value,
        ) {
            Some(Ty::Enum(id, targs)) => match r0.kind {
                StatementKind::Case(c2) => {
                    &&& c2.arms@.len() == cs.arms@.len()
                    &&& forall|q: int|
                        0 <= q < cs.arms@.len() ==> variant_resolves(
                            self.table(),
                            Ty::Enum(id, targs),
                            (#[trigger] cs.arms@[q]).variant,
                            c2.arms@[q].variant,
                        )
                    &&& forall|q: int|
                        0 <= q < cs.arms@.len() ==> #[trigger] next.arm_reported(
                            self.table(),
                            Ty::Enum(id, targs),
                            cs.arms@,
                            c2.arms@,
                            q,
                        )
                    &&& (exists|w: int|
                        0 <= w < variant_count(self.table(), Ty::Enum(id, targs)) && !#[trigger] has_arm_for(c2.arms@, w))
                        ==> next.last_error_is(
                        s.location,
                        "Enum case '["@ + missed_variants(
                            variant_names(self.table(), id),
                            c2.arms@,
                            variant_count(self.table(), Ty::Enum(id, targs)) as int,
                        ) + "]' not covered"@,
                    )
                },
                _ => false,
            },
            Some(tv) => !ok && self.reported(
                next,
                cs.value.location,
                "Expected enum type, not "@ + ty_text(self.table(), tv),
            ),
            None => true,
        }
    }

    /// Some error reported so far is at `location`, with the message `msg`.
    pub open spec fn has_error(&self, location: Location, msg: Seq<char>) -> bool {
        exists|p: int|
            0 <= p < self.errors().len() && (#[trigger] self.errors()[p] matches CompilationError::SingleError {
                location: l,
                message: m,
                ..
            } && l == location && m@ == msg)
    }

    /// An error once reported stays.
    pub proof fn lemma_has_error_stays(&self, next: TypeChecker, location: Location, msg: Seq<char>)
        requires
            self.steps(next),
            self.has_error(location, msg),
        ensures
            next.has_error(location, msg),
    {
        let p = choose|p: int|
            0 <= p < self.errors().len() && (#[trigger] self.errors()[p] matches CompilationError::SingleError {
                location: l,
                message: m,
                ..
            } && l == location && m@ == msg);
        assert(next.errors()[p] == self.errors()[p]);
    }

    /// The error of arm `q` of a case statement on a value of enum type `vt`,
    /// given the arms `out` as they were checked: a name of no variant, a
    /// variant that an earlier arm names, or a variant whose payload has
    /// another number of parts than the arm has locals.
    pub open spec fn arm_reported(&self, tab: Seq<DefInfo>, vt: Ty, arms: Seq<CaseArm>, out: Seq<CaseArm>, q: int) -> bool {
        match (arms[q].variant, vt) {
            (VariantRef::Name(n), Ty::Enum(id, _)) => match first_variant(info_of(tab, id, DefKind::Enum)->0.variants, n@) {
                None => self.has_error(arms[q].location, "Enum has no variant named: "@ + n@),
                Some(v) => if has_arm_for(out.take(q), v) {
                    self.has_error(arms[q].location, "Duplicate field: "@ + variant_names(tab, id)[v])
                } else {
                    arms[q].local_ids@.len() != variant_data_tys(tab, vt, v).len() ==> self.has_error(
                        arms[q].location,
                        "Got "@ + nat_text(arms[q].local_ids@.len()) + " constructor arguments, but expected "@ + nat_text(
                            variant_data_tys(tab, vt, v).len(),
                        ),
                    )
                },
            },
            _ => true,
        }
    }

    /// What was reported of an arm stays reported, whatever comes after it.
    pub proof fn lemma_arm_reported_stays(
        &self,
        next: TypeChecker,
        tab: Seq<DefInfo>,
        vt: Ty,
        arms: Seq<CaseArm>,
        out: Seq<CaseArm>,
        out2: Seq<CaseArm>,
        q: int,
    )
        requires
            self.steps(next),
            self.arm_reported(tab, vt, arms, out, q),
            out2.take(q) == out.take(q),
        ensures
            next.arm_reported(tab, vt, arms, out2, q),
    {
        match (arms[q].variant, vt) {
            (VariantRef::Name(n), Ty::Enum(id, _)) => match first_variant(info_of(tab, id, DefKind::Enum)->0.variants, n@) {
                None => self.lemma_has_error_stays(next, arms[q].location, "Enum has no variant named: "@ + n@),
                Some(v) => if has_arm_for(out.take(q), v) {
                    self.lemma_has_error_stays(next, arms[q].location, "Duplicate field: "@ + variant_names(tab, id)[v]);
                } else {
                    if arms[q].local_ids@.len() != variant_data_tys(tab, vt, v).len() {
                        self.lemma_has_error_stays(
                            next,
                            arms[q].location,
                            "Got "@ + nat_text(arms[q].local_ids@.len()) + " constructor arguments, but expected "@ + nat_text(
                                variant_data_tys(tab, vt, v).len(),
                            ),
                        );
                    }
                },
            },
            _ => {},
        }
    }

    /// The last error reported is at `location`, with the message `msg`.
    pub open spec fn last_error_is(&self, location: Location, msg: Seq<char>) -> bool {
        &&& self.errors().len() > 0
        &&& self.errors().last() matches CompilationError::SingleError { location: l, message: m, .. }
        &&& l == location
        &&& m@ == msg
    }

    /// From `self` to `next`, errors were at most added.
    pub open spec fn steps(&self, next: TypeChecker) -> bool {
        &&& next.inv()
        &&& next.errors().len() >= self.errors().len()
        &&& forall|i: int| 0 <= i < self.errors().len() ==> #[trigger] next.errors()[i] == self.errors()[i]
        &&& next.table() == self.table()
        &&& next.path() == self.path()
        &&& next.errors().len() >= self.errors().len()
    }

    /// The expression was checked: it still can be, and unless an error was
    /// reported on the way it is well typed, or has an undefined part where the
    /// check stopped.
    pub open spec fn checked(&self, next: TypeChecker, ctx: FnContext, locals: Seq<usize>, e: Expression, ok: bool) -> bool {
        &&& self.steps(next)
        &&& ewf(self.table(), param_ids(ctx.params@), locals, e)
        &&& (ok && next.errors().len() == self.errors().len() ==> wt(self.table(), e))
        &&& (!ok && next.errors().len() == self.errors().len() ==> has_undef(e))
    }

    /// Report an error at a location.
    fn error(&mut self, location: Location, message: String)
        requires
            old(self).inv(),
        ensures
            old(self).steps(*final(self)),
            final(self).errors().len() == old(self).errors().len() + 1,
            final(self).errors().last() == (CompilationError::SingleError {
                path: final(self).errors().last()->path,
                location,
                message,
            }),
    {
        self.diagnostics.error(location, message);
        proof {
            assert forall|i: int| 0 <= i < self.diagnostics.errors().len() implies at_path(#[trigger] self.diagnostics.errors()[i], self.diagnostics.path()) by {
                if i < old(self).diagnostics.errors().len() {
                    assert(self.diagnostics.errors()[i] == old(self).diagnostics.errors()[i]);
                }
            }
        }
    }

    /// The text of a well-formed type.
    fn text(&self, t: &SlangType) -> (s: String)
        requires
            ty_wf(self.table(), t.ty()),
        ensures
            s@ == ty_text(self.table(), t.ty()),
    {
        proof {
            lemma_wf_printable(self.table(), t.ty());
        }
        type_text(&self.tab, t)
    }

    /// Report an error unless the two types are equal.
    fn check_equal_types(&mut self, location: Location, expected: &SlangType, actual: &SlangType) -> (r: bool)
        requires
            old(self).inv(),
            ty_wf(old(self).table(), expected.ty()),
            ty_wf(old(self).table(), actual.ty()),
        ensures
            old(self).steps(*final(self)),
            r == (expected.ty() == actual.ty()),
            r ==> final(self).errors() == old(self).errors(),
            !r ==> final(self).errors().len() == old(self).errors().len() + 1,
            !r ==> final(self).errors().last()->message@ == "Expected "@ + ty_text(old(self).table(), expected.ty())
                + ", but got "@ + ty_text(old(self).table(), actual.ty()),
            !r ==> old(self).reported(
                *final(self),
                location,
                "Expected "@ + ty_text(old(self).table(), expected.ty()) + ", but got "@ + ty_text(old(self).table(), actual.ty()),
            ),
    {
        proof {
            lemma_wf_resolved(self.table(), expected.ty());
            lemma_wf_resolved(self.table(), actual.ty());
        }
        if same_type(expected, actual) {
            true
        } else {
            let mut message = String::new();
            message.append("Expected ");
            let a = self.text(expected);
            message.append(a.as_str());
            message.append(", but got ");
            let b = self.text(actual);
            message.append(b.as_str());
            self.error(location, message);
            false
        }
    }
}


/// The names of the variants among the first `n` that no arm names, each as
/// `{:?}` writes it, separated by `, `.
pub open spec fn missed_variants(names: Seq<Seq<char>>, arms: Seq<CaseArm>, n: int) -> Seq<char>
    decreases n,
{
    if n <= 0 {
        Seq::empty()
    } else {
        let prev = missed_variants(names, arms, n - 1);
        if has_arm_for(arms, n - 1) {
            prev
        } else if forall|w: int| 0 <= w < n - 1 ==> #[trigger] has_arm_for(arms, w) {
            debug_text(names[n - 1])
        } else {
            prev + ", "@ + debug_text(names[n - 1])
        }
    }
}

/// Where arms name all of the first `n` variants, none is missed.
proof fn lemma_missed_none(names: Seq<Seq<char>>, arms: Seq<CaseArm>, n: int)
    requires
        forall|w: int| 0 <= w < n ==> #[trigger] has_arm_for(arms, w),
    ensures
        missed_variants(names, arms, n) == Seq::<char>::empty(),
    decreases n,
{
    if n > 0 {
        assert(has_arm_for(arms, n - 1));
        lemma_missed_none(names, arms, n - 1);
    }
}

/// The names of the variants of the enum with node id `id`.
pub open spec fn variant_names(tab: Seq<DefInfo>, id: nat) -> Seq<Seq<char>> {
    info_of(tab, id, DefKind::Enum)->0.variants.map_values(|v: (Seq<char>, Seq<Ty>)| v.0)
}

/// Value `k` of a list is the first one after the first that does not fit the
/// type `a` of the first, though checking gives it a type.
pub open spec fn first_misfit(tab: Seq<DefInfo>, pe: Seq<(usize, Ty)>, le: Seq<(usize, Ty)>, a: Ty, values: Seq<Expression>, k: int) -> bool {
    &&& 1 <= k < values.len()
    &&& forall|j: int| 1 <= j < k ==> coerce_ok(tab, pe, le, a, #[trigger] values[j])
    &&& infer(tab, pe, le, values[k]) is Some
    &&& !coerce_ok(tab, pe, le, a, values[k])
}

/// The type of the expression, unless it is undefined.
fn get_type(e: &Expression) -> (r: Option<SlangType>)
    ensures
        match r {
            Some(t) => t.ty() == e.typ.ty() && !(e.typ.ty() is Undefined),
            None => e.typ.ty() is Undefined,
        },
{
    match &e.typ {
        SlangType::Undefined => None,
        t => Some(t.copy()),
    }
}

/// The value converted to the wanted type, if its type is another one.
fn autoconv(value: Expression, wanted: &SlangType) -> (r: Expression)
    requires
        resolved(wanted.ty()),
        resolved(value.typ.ty()),
    ensures
        r.typ.ty() == wanted.ty(),
        forall|tab2: Seq<DefInfo>, ps: Seq<usize>, ls: Seq<usize>| ewf(tab2, ps, ls, value) && ty_wf(tab2, wanted.ty()) ==> ewf(tab2, ps, ls, r),
        forall|tab2: Seq<DefInfo>| wt(tab2, value) ==> wt(tab2, r),
        has_undef(value) ==> has_undef(r),
        value.typ.ty() == wanted.ty() ==> r == value,
        value.typ.ty() != wanted.ty() ==> (r.kind matches ExpressionKind::TypeCast { to_type, value: v } && to_type.ty()
            == wanted.ty() && *v == value) && r.location == value.location,
        forall|a: Expression| annotated(a, value) && wanted.ty() == float_ty() && (value.typ.ty() == int_ty() || value.typ.ty()
            == float_ty()) ==> #[trigger] annotated(a, r),
{
    if same_type(&value.typ, wanted) {
        value
    } else {
        let location = value.location;
        Expression {
            location,
            kind: ExpressionKind::TypeCast { to_type: wanted.copy(), value: Box::new(value) },
            typ: wanted.copy(),
        }
    }
}


impl TypeChecker {
    /// Type check an expression and give it its type.
    fn check_expression(&mut self, ctx: &FnContext, locals: &Vec<LocalVariable>, e: Expression) -> (r: (Expression, bool))
        requires
            old(self).inv(),
            ewf(old(self).table(), param_ids(ctx.params@), local_ids(locals@), e),
            ctx_wf(old(self).table(), *ctx),
            locals_wf(old(self).table(), locals@),
        ensures
            old(self).checked(*final(self), *ctx, local_ids(locals@), r.0, r.1),
            infer(old(self).table(), param_env(ctx.params@), local_env(locals@), e) matches Some(t) ==> old(self).found(*final(self), r.0, r.1, t),
            annotated(e, r.0),
            plain(e, r.0),
            old(self).exact(*final(self), *ctx, locals@, e, r.0, r.1),
            old(self).binop_reports(*final(self), *ctx, locals@, e, r.0, r.1),
            old(self).index_reports(*final(self), *ctx, locals@, e, r.0, r.1),
            old(self).call_reports(*final(self), *ctx, locals@, e, r.0, r.1),
            old(self).list_reports(*final(self), *ctx, locals@, e, r.0, r.1),
        decreases e, 1nat,
    {
        match e.kind {
            ExpressionKind::Binop { .. } => self.check_binop(ctx, locals, e),
            ExpressionKind::LoadSymbol(_) => self.check_load(ctx, locals, e),
            ExpressionKind::Call { .. } => self.check_call(ctx, locals, e),
            ExpressionKind::GetIndex { .. } => self.check_get_index(ctx, locals, e),
            ExpressionKind::GetAttr { .. } => self.check_get_attr(ctx, locals, e),
            ExpressionKind::UnionLiteral { .. } => self.check_union_literal(ctx, locals, e),
            ExpressionKind::TupleLiteral { .. } => self.check_tuple_literal(ctx, locals, e),
            ExpressionKind::ListLiteral(_) => self.check_list_literal(ctx, locals, e),
            ExpressionKind::EnumLiteral { .. } => self.check_enum_literal(ctx, locals, e),
            ExpressionKind::Literal(_) => {
                let Expression { location, kind, typ: _ } = e;
                match kind {
                    ExpressionKind::Literal(l) => {
                        let typ = match &l {
                            Literal::Bool(_) => SlangType::Basic(BasicType::Bool),
                            Literal::Integer(_) => SlangType::Basic(BasicType::Int),
                            Literal::String(_) => SlangType::Basic(BasicType::String),
                            Literal::Float(_) => SlangType::Basic(BasicType::Float),
                        };
                        (Expression { location, kind: ExpressionKind::Literal(l), typ }, true)
                    },
                    other => (Expression { location, kind: other, typ: SlangType::Undefined }, true),
                }
            },
            ExpressionKind::TypeCast { .. } => {
                let Expression { location, kind, typ } = e;
                match kind {
                    ExpressionKind::TypeCast { to_type, value } => {
                        let (v, ok) = self.check_expression(ctx, locals, *value);
                        if !ok {
                            return (Expression { location, kind: ExpressionKind::TypeCast { to_type, value: Box::new(v) }, typ }, false);
                        }
                        let t = to_type.copy();
                        (Expression { location, kind: ExpressionKind::TypeCast { to_type, value: Box::new(v) }, typ: t }, true)
                    },
                    other => (Expression { location, kind: other, typ }, true),
                }
            },
            _ => {
                proof {
                    lemma_annotated_refl(e);
                }
                (e, true)
            },
        }
    }

    /// Type check a condition: an expression of type `bool`.
    fn check_condition(&mut self, ctx: &FnContext, locals: &Vec<LocalVariable>, e: Expression) -> (r: (Expression, bool))
        requires
            old(self).inv(),
            ewf(old(self).table(), param_ids(ctx.params@), local_ids(locals@), e),
            ctx_wf(old(self).table(), *ctx),
            locals_wf(old(self).table(), locals@),
        ensures
            old(self).steps(*final(self)),
            ewf(old(self).table(), param_ids(ctx.params@), local_ids(locals@), r.0),
            r.1 && final(self).errors().len() == old(self).errors().len() ==> cond_wt(old(self).table(), r.0),
            !r.1 && final(self).errors().len() == old(self).errors().len() ==> has_undef(r.0),
            infer(old(self).table(), param_env(ctx.params@), local_env(locals@), e) == Some(bool_ty()) ==> r.1
                && final(self).errors().len() == old(self).errors().len(),
            annotated(e, r.0),
            r.1 && final(self).errors().len() == old(self).errors().len() && !has_undef(r.0) ==> infer(
                old(self).table(),
                param_env(ctx.params@),
                local_env(locals@),
                e,
            ) == Some(bool_ty()),
        decreases e, 2nat,
    {
        let (c, ok) = self.check_expression(ctx, locals, e);
        if !ok {
            return (c, false);
        }
        let actual = match get_type(&c) {
            Some(t) => t,
            None => {
                assert(has_undef(c));
                return (c, false);
            },
        };
        let b = SlangType::Basic(BasicType::Bool);
        let fits = self.check_equal_types(c.location, &b, &actual);
        (c, fits)
    }

    /// The common type of the operands of arithmetic, or an error.
    fn common_sub_type(&mut self, location: Location, t1: &SlangType, t2: &SlangType) -> (r: Option<SlangType>)
        requires
            old(self).inv(),
            ty_wf(old(self).table(), t1.ty()),
            ty_wf(old(self).table(), t2.ty()),
        ensures
            old(self).steps(*final(self)),
            match r {
                Some(c) => common_ty(t1.ty(), t2.ty()) == Some(c.ty()) && final(self).errors() == old(self).errors(),
                None => common_ty(t1.ty(), t2.ty()) is None && old(self).reported(
                    *final(self),
                    location,
                    "Expected "@ + ty_text(old(self).table(), t1.ty()) + ", but got "@ + ty_text(old(self).table(), t2.ty()),
                ),
            },
    {
        if (t1.is_float() && t2.is_int()) || (t1.is_int() && t2.is_float()) {
            Some(SlangType::Basic(BasicType::Float))
        } else if self.check_equal_types(location, t1, t2) {
            Some(t1.copy())
        } else {
            None
        }
    }

    /// Type check a binary operation.
    fn check_binop(&mut self, ctx: &FnContext, locals: &Vec<LocalVariable>, e: Expression) -> (r: (Expression, bool))
        requires
            old(self).inv(),
            e.kind is Binop,
            ewf(old(self).table(), param_ids(ctx.params@), local_ids(locals@), e),
            ctx_wf(old(self).table(), *ctx),
            locals_wf(old(self).table(), locals@),
        ensures
            old(self).checked(*final(self), *ctx, local_ids(locals@), r.0, r.1),
            infer(old(self).table(), param_env(ctx.params@), local_env(locals@), e) matches Some(t) ==> old(self).found(*final(self), r.0, r.1, t),
            annotated(e, r.0),
            plain(e, r.0),
            old(self).exact(*final(self), *ctx, locals@, e, r.0, r.1),
            old(self).binop_reports(*final(self), *ctx, locals@, e, r.0, r.1),
        decreases e, 0nat,
    {
        let ghost pe = param_env(ctx.params@);
        let ghost le = local_env(locals@);
        let Expression { location, kind, typ } = e;
        match kind {
            ExpressionKind::Binop { lhs, op, rhs } => {
                proof {
                    lemma_infer_defined(self.table(), pe, le, *lhs);
                    lemma_infer_defined(self.table(), pe, le, *rhs);
                }
                match op {
                    BinaryOperator::Logic(_) => {
                        let (l, okl) = self.check_condition(ctx, locals, *lhs);
                        if !okl {
                            proof {
                                lemma_annotated_refl(*rhs);
                            }
                            return (Expression { location, kind: ExpressionKind::Binop { lhs: Box::new(l), op, rhs }, typ }, false);
                        }
                        let (rr, okr) = self.check_condition(ctx, locals, *rhs);
                        if !okr {
                            return (
                                Expression { location, kind: ExpressionKind::Binop { lhs: Box::new(l), op, rhs: Box::new(rr) }, typ },
                                false,
                            );
                        }
                        (
                            Expression {
                                location,
                                kind: ExpressionKind::Binop { lhs: Box::new(l), op, rhs: Box::new(rr) },
                                typ: SlangType::Basic(BasicType::Bool),
                            },
                            true,
                        )
                    },
                    BinaryOperator::Comparison(_) | BinaryOperator::Math(_) => {
                        let (l, okl) = self.check_expression(ctx, locals, *lhs);
                        if !okl {
                            proof {
                                lemma_annotated_refl(*rhs);
                            }
                            return (Expression { location, kind: ExpressionKind::Binop { lhs: Box::new(l), op, rhs }, typ }, false);
                        }
                        let (rr, okr) = self.check_expression(ctx, locals, *rhs);
                        if !okr {
                            return (
                                Expression { location, kind: ExpressionKind::Binop { lhs: Box::new(l), op, rhs: Box::new(rr) }, typ },
                                false,
                            );
                        }
                        let lt = match get_type(&l) {
                            Some(t) => t,
                            None => {
                                assert(has_undef(l));
                                return (
                                    Expression { location, kind: ExpressionKind::Binop { lhs: Box::new(l), op, rhs: Box::new(rr) }, typ },
                                    false,
                                );
                            },
                        };
                        let rt = match get_type(&rr) {
                            Some(t) => t,
                            None => {
                                assert(has_undef(rr));
                                return (
                                    Expression { location, kind: ExpressionKind::Binop { lhs: Box::new(l), op, rhs: Box::new(rr) }, typ },
                                    false,
                                );
                            },
                        };
                        match op {
                            BinaryOperator::Math(m) => {
                                let common = match self.common_sub_type(location, &lt, &rt) {
                                    Some(c) => c,
                                    None => {
                                        return (
                                            Expression {
                                                location,
                                                kind: ExpressionKind::Binop { lhs: Box::new(l), op, rhs: Box::new(rr) },
                                                typ,
                                            },
                                            false,
                                        );
                                    },
                                };
                                let common = if m == MathOperator::Div && common.is_int() {
                                    SlangType::Basic(BasicType::Float)
                                } else {
                                    common
                                };
                                proof {
                                    lemma_wf_resolved(self.table(), common.ty());
                                    lemma_wf_resolved(self.table(), l.typ.ty());
                                    lemma_wf_resolved(self.table(), rr.typ.ty());
                                }
                                let ghost gl = l;
                                let ghost gr = rr;
                                let l2 = autoconv(l, &common);
                                let r2 = autoconv(rr, &common);
                                proof {
                                    if common.ty() != float_ty() {
                                        assert(gl.typ.ty() == common.ty());
                                        assert(gr.typ.ty() == common.ty());
                                    }
                                    assert(annotated(*lhs, l2));
                                    assert(annotated(*rhs, r2));
                                }
                                (
                                    Expression {
                                        location,
                                        kind: ExpressionKind::Binop { lhs: Box::new(l2), op, rhs: Box::new(r2) },
                                        typ: common,
                                    },
                                    true,
                                )
                            },
                            _ => {
                                if !self.check_equal_types(location, &lt, &rt) {
                                    return (
                                        Expression {
                                            location,
                                            kind: ExpressionKind::Binop { lhs: Box::new(l), op, rhs: Box::new(rr) },
                                            typ,
                                        },
                                        false,
                                    );
                                }
                                (
                                    Expression {
                                        location,
                                        kind: ExpressionKind::Binop { lhs: Box::new(l), op, rhs: Box::new(rr) },
                                        typ: SlangType::Basic(BasicType::Bool),
                                    },
                                    true,
                                )
                            },
                        }
                    },
                    BinaryOperator::Bit(_) => {
                        proof {
                            lemma_annotated_refl(*lhs);
                            lemma_annotated_refl(*rhs);
                        }
                        (Expression { location, kind: ExpressionKind::Binop { lhs, op, rhs }, typ }, true)
                    },
                }
            },
            other => (Expression { location, kind: other, typ }, true),
        }
    }
}


impl TypeChecker {
    /// Fit an expression onto the wanted type, converting an `int` where a
    /// `float` is wanted.
    fn coerce(&mut self, ctx: &FnContext, locals: &Vec<LocalVariable>, wanted: &SlangType, value: Expression) -> (r: (Expression, bool))
        requires
            old(self).inv(),
            ty_wf(old(self).table(), wanted.ty()),
            ewf(old(self).table(), param_ids(ctx.params@), local_ids(locals@), value),
            ctx_wf(old(self).table(), *ctx),
            locals_wf(old(self).table(), locals@),
        ensures
            old(self).steps(*final(self)),
            ewf(old(self).table(), param_ids(ctx.params@), local_ids(locals@), r.0),
            r.1 && final(self).errors().len() == old(self).errors().len() ==> fits(old(self).table(), wanted.ty(), r.0),
            !r.1 && final(self).errors().len() == old(self).errors().len() ==> has_undef(r.0),
            coerce_ok(old(self).table(), param_env(ctx.params@), local_env(locals@), wanted.ty(), value) ==> r.1
                && final(self).errors().len() == old(self).errors().len(),
            annotated(value, r.0),
            r.1 && final(self).errors().len() == old(self).errors().len() && !has_undef(r.0) ==> coerce_ok(
                old(self).table(),
                param_env(ctx.params@),
                local_env(locals@),
                wanted.ty(),
                value,
            ),
            match infer(old(self).table(), param_env(ctx.params@), local_env(locals@), value) {
                Some(u) => !(u == wanted.ty() || (wanted.ty() == float_ty() && u == int_ty())) ==> !r.1 && r.0.location
                    == value.location && old(self).reported(
                    *final(self),
                    value.location,
                    "Expected "@ + ty_text(old(self).table(), wanted.ty()) + ", but got "@ + ty_text(old(self).table(), u),
                ),
                None => true,
            },
        decreases value, 2nat,
    {
        let (v, ok) = self.check_expression(ctx, locals, value);
        if !ok {
            return (v, false);
        }
        proof {
            lemma_wf_resolved(self.table(), wanted.ty());
            lemma_wf_resolved(self.table(), v.typ.ty());
        }
        let v = if wanted.is_float() && v.typ.is_int() {
            autoconv(v, wanted)
        } else {
            v
        };
        let fits = self.check_equal_types(v.location, wanted, &v.typ);
        (v, fits)
    }

    /// Check the number of arguments, and fit each onto its parameter type.
    fn check_call_arguments(
        &mut self,
        ctx: &FnContext,
        locals: &Vec<LocalVariable>,
        location: Location,
        types: &Vec<SlangType>,
        arguments: Vec<Expression>,
    ) -> (r: (Vec<Expression>, bool))
        requires
            old(self).inv(),
            forall|i: int| 0 <= i < types@.len() ==> ty_wf(old(self).table(), (#[trigger] types@[i]).ty()),
            ewf_all(old(self).table(), param_ids(ctx.params@), local_ids(locals@), arguments@),
            ctx_wf(old(self).table(), *ctx),
            locals_wf(old(self).table(), locals@),
        ensures
            old(self).steps(*final(self)),
            r.0@.len() == arguments@.len(),
            ewf_all(old(self).table(), param_ids(ctx.params@), local_ids(locals@), r.0@),
            r.1 == (types@.len() == arguments@.len()),
            !r.1 ==> final(self).errors().len() == old(self).errors().len() + 1,
            r.1 && final(self).errors().len() == old(self).errors().len() ==> args_fit(
                old(self).table(),
                tys(types@),
                r.0@,
            ),
            types@.len() == arguments@.len() && all_coerce_ok(
                old(self).table(),
                param_env(ctx.params@),
                local_env(locals@),
                tys(types@),
                arguments@,
            ) ==> r.1 && final(self).errors().len() == old(self).errors().len(),
            all_annotated(arguments@, r.0@),
            r.1 && final(self).errors().len() == old(self).errors().len() && !any_undef(r.0@) ==> all_coerce_ok(
                old(self).table(),
                param_env(ctx.params@),
                local_env(locals@),
                tys(types@),
                arguments@,
            ),
            types@.len() != arguments@.len() ==> r.0@ == arguments@ && old(self).reported(
                *final(self),
                location,
                "Expected "@ + nat_text(types@.len()) + ", but got "@ + nat_text(arguments@.len()) + " arguments "@,
            ),
        decreases arguments, 3nat,
    {
        let ghost t = self.table();
        let ghost ps = param_ids(ctx.params@);
        let ghost ls = local_ids(locals@);
        proof {
            lemma_ewf_all(t, ps, ls, arguments@);
            lemma_tys(types@);
        }
        if types.len() != arguments.len() {
            let mut message = String::new();
            message.append("Expected ");
            crate::text::push_u64(&mut message, types.len() as u64);
            message.append(", but got ");
            crate::text::push_u64(&mut message, arguments.len() as u64);
            message.append(" arguments ");
            self.error(location, message);
            proof {
                lemma_all_annotated_refl(arguments@);
            }
            return (arguments, false);
        }
        let ghost n0 = self.errors().len();
        let ghost start = *self;
        let ghost pe = param_env(ctx.params@);
        let ghost le = local_env(locals@);
        proof {
            lemma_all_coerce_ok(t, pe, le, tys(types@), arguments@);
        }
        let mut rest = arguments;
        let mut out: Vec<Expression> = Vec::new();
        let mut i: usize = 0;
        while i < types.len()
            invariant
                i <= types@.len(),
                types@.len() == arguments@.len(),
                out@.len() == i,
                rest@ == arguments@.skip(i as int),
                t == start.table(),
                start.steps(*self),
                n0 == start.errors().len(),
                start == *old(self),
                ctx_wf(t, *ctx),
                locals_wf(t, locals@),
                ps == param_ids(ctx.params@),
                ls == local_ids(locals@),
                tys(types@).len() == types@.len(),
                forall|j: int| 0 <= j < types@.len() ==> #[trigger] tys(types@)[j] == types@[j].ty(),
                forall|j: int| 0 <= j < types@.len() ==> ty_wf(t, (#[trigger] types@[j]).ty()),
                forall|j: int| 0 <= j < arguments@.len() ==> ewf(t, ps, ls, #[trigger] arguments@[j]),
                forall|j: int| 0 <= j < i ==> ewf(t, ps, ls, #[trigger] out@[j]),
                self.errors().len() == n0 ==> forall|j: int| 0 <= j < i ==> fits_or_undef(t, tys(types@)[j], #[trigger] out@[j]),
                pe == param_env(ctx.params@),
                le == local_env(locals@),
                all_coerce_ok(t, pe, le, tys(types@), arguments@) ==> self.errors().len() == n0,
                all_coerce_ok(t, pe, le, tys(types@), arguments@) ==> forall|j: int| 0 <= j < arguments@.len() ==> coerce_ok(t, pe, le, tys(types@)[j], #[trigger] arguments@[j]),
                forall|j: int| 0 <= j < i ==> annotated(arguments@[j], #[trigger] out@[j]),
                self.errors().len() == n0 ==> forall|j: int|
                    0 <= j < i && !has_undef(#[trigger] out@[j]) ==> coerce_ok(t, pe, le, tys(types@)[j], arguments@[j]),
            decreases types@.len() - i,
        {
            let a = rest.remove(0);
            assert(a == arguments@[i as int]);
            assert(rest@ =~= arguments@.skip(i as int + 1));
            let ghost before = self.errors().len();
            let (v, _ok) = self.coerce(ctx, locals, &types[i], a);
            out.push(v);
            i = i + 1;
        }
        proof {
            lemma_ewf_all(t, ps, ls, out@);
            lemma_args_fit(t, tys(types@), out@);
            lemma_all_coerce_ok(t, pe, le, tys(types@), arguments@);
            lemma_any_undef(out@);
            if self.errors().len() == n0 && !any_undef(out@) {
                assert forall|j: int| 0 <= j < arguments@.len() implies coerce_ok(t, pe, le, tys(types@)[j], #[trigger] arguments@[j]) by {
                    assert(!has_undef(out@[j]));
                }
            }
        }
        (out, true)
    }
}


fn find_param(params: &Vec<Parameter>, id: usize) -> (r: Option<usize>)
    ensures
        match r {
            Some(k) => k < params@.len() && params@[k as int].name.id == id && forall|j: int| 0 <= j < k ==> (#[trigger] params@[j]).name.id != id,
            None => !has_param(param_ids(params@), id),
        },
{
    let ghost ids = param_ids(params@);
    let mut i: usize = 0;
    while i < params.len()
        invariant
            i <= params@.len(),
            forall|j: int| 0 <= j < i ==> (#[trigger] params@[j]).name.id != id,
        decreases params@.len() - i,
    {
        if params[i].name.id == id {
            return Some(i);
        }
        i = i + 1;
    }
    proof {
        if ids.contains(id) {
            let j = choose|j: int| 0 <= j < ids.len() && ids[j] == id;
            assert(params@[j].name.id == id);
        }
    }
    None
}

fn find_local(locals: &Vec<LocalVariable>, id: usize) -> (r: Option<usize>)
    ensures
        match r {
            Some(k) => k < locals@.len() && locals@[k as int].name.id == id && forall|j: int| 0 <= j < k ==> (#[trigger] locals@[j]).name.id != id,
            None => !has_local(local_ids(locals@), id),
        },
{
    let ghost ids = local_ids(locals@);
    let mut i: usize = 0;
    while i < locals.len()
        invariant
            i <= locals@.len(),
            forall|j: int| 0 <= j < i ==> (#[trigger] locals@[j]).name.id != id,
        decreases locals@.len() - i,
    {
        if locals[i].name.id == id {
            return Some(i);
        }
        i = i + 1;
    }
    proof {
        if ids.contains(id) {
            let j = choose|j: int| 0 <= j < ids.len() && ids[j] == id;
            assert(locals@[j].name.id == id);
        }
    }
    None
}

pub(crate) fn message(text: &str) -> (s: String)
    ensures
        s@ == text@,
{
    let mut s = String::new();
    s.append(text);
    s
}

impl TypeChecker {
    /// Give a loaded symbol its type.
    fn check_load(&mut self, ctx: &FnContext, locals: &Vec<LocalVariable>, e: Expression) -> (r: (Expression, bool))
        requires
            old(self).inv(),
            e.kind is LoadSymbol,
            ewf(old(self).table(), param_ids(ctx.params@), local_ids(locals@), e),
            ctx_wf(old(self).table(), *ctx),
            locals_wf(old(self).table(), locals@),
        ensures
            old(self).checked(*final(self), *ctx, local_ids(locals@), r.0, r.1),
            infer(old(self).table(), param_env(ctx.params@), local_env(locals@), e) matches Some(t) ==> old(self).found(*final(self), r.0, r.1, t),
            annotated(e, r.0),
            plain(e, r.0),
            old(self).exact(*final(self), *ctx, locals@, e, r.0, r.1),
    {
        let Expression { location, kind, typ } = e;
        match kind {
            ExpressionKind::LoadSymbol(sym) => match sym {
                Symbol::Function { name, typ: t } => {
                    let nt = t.copy();
                    (Expression { location, kind: ExpressionKind::LoadSymbol(Symbol::Function { name, typ: t }), typ: nt }, true)
                },
                Symbol::ExternFunction { name, typ: t } => {
                    let nt = t.copy();
                    (
                        Expression { location, kind: ExpressionKind::LoadSymbol(Symbol::ExternFunction { name, typ: t }), typ: nt },
                        true,
                    )
                },
                Symbol::Parameter(id) => match find_param(&ctx.params, id) {
                    Some(k) => {
                        proof {
                            let env = param_env(ctx.params@);
                            assert forall|j: int| 0 <= j < k implies (#[trigger] env[j]).0 != id by {
                                assert(env[j].0 == ctx.params@[j].name.id);
                            }
                            lemma_lookup_first(env, id, k as int);
                        }
                        let nt = ctx.params[k].typ.copy();
                        (Expression { location, kind: ExpressionKind::LoadSymbol(Symbol::Parameter(id)), typ: nt }, true)
                    },
                    None => (Expression { location, kind: ExpressionKind::LoadSymbol(Symbol::Parameter(id)), typ }, true),
                },
                Symbol::LocalVariable(id) => match find_local(locals, id) {
                    Some(k) => {
                        proof {
                            let env = local_env(locals@);
                            assert forall|j: int| 0 <= j < k implies (#[trigger] env[j]).0 != id by {
                                assert(env[j].0 == locals@[j].name.id);
                            }
                            lemma_lookup_first(env, id, k as int);
                        }
                        let nt = locals[k].typ.copy();
                        (Expression { location, kind: ExpressionKind::LoadSymbol(Symbol::LocalVariable(id)), typ: nt }, true)
                    },
                    None => (Expression { location, kind: ExpressionKind::LoadSymbol(Symbol::LocalVariable(id)), typ }, true),
                },
                Symbol::Module => {
                    self.error(location, message("cannot load module"));
                    (Expression { location, kind: ExpressionKind::LoadSymbol(Symbol::Module), typ }, false)
                },
                Symbol::Definition(id) => {
                    self.error(location, message("cannot load definition"));
                    (Expression { location, kind: ExpressionKind::LoadSymbol(Symbol::Definition(id)), typ }, false)
                },
                other => (Expression { location, kind: ExpressionKind::LoadSymbol(other), typ }, true),
            },
            other => (Expression { location, kind: other, typ }, true),
        }
    }

    /// Type check an enum literal: the arguments must fit the payload of its variant.
    fn check_enum_literal(&mut self, ctx: &FnContext, locals: &Vec<LocalVariable>, e: Expression) -> (r: (Expression, bool))
        requires
            old(self).inv(),
            e.kind is EnumLiteral,
            ewf(old(self).table(), param_ids(ctx.params@), local_ids(locals@), e),
            ctx_wf(old(self).table(), *ctx),
            locals_wf(old(self).table(), locals@),
        ensures
            old(self).checked(*final(self), *ctx, local_ids(locals@), r.0, r.1),
            infer(old(self).table(), param_env(ctx.params@), local_env(locals@), e) matches Some(t) ==> old(self).found(*final(self), r.0, r.1, t),
            annotated(e, r.0),
            plain(e, r.0),
            old(self).exact(*final(self), *ctx, locals@, e, r.0, r.1),
        decreases e, 0nat,
    {
        let ghost t = self.table();
        let Expression { location, kind, typ } = e;
        match kind {
            ExpressionKind::EnumLiteral { enum_type, variant, arguments } => {
                proof {
                    lemma_find_info(t, enum_type.enum_id as nat);
                }
                let data = enum_variant_types(&self.tab, &enum_type, variant);
                proof {
                    lemma_tys(data@);
                }
                let (args, ok) = self.check_call_arguments(ctx, locals, location, &data, arguments);
                if !ok {
                    return (Expression { location, kind: ExpressionKind::EnumLiteral { enum_type, variant, arguments: args }, typ }, false);
                }
                let nt = SlangType::User(
                    UserType::Enum(EnumType { enum_id: enum_type.enum_id, type_arguments: copy_types(&enum_type.type_arguments) }),
                );
                (Expression { location, kind: ExpressionKind::EnumLiteral { enum_type, variant, arguments: args }, typ: nt }, true)
            },
            other => (Expression { location, kind: other, typ }, true),
        }
    }

    /// Type check a call of a type: a class gives its constructor, other types cannot be called.
    fn check_constructor_call(&mut self, location: Location, callee: Expression, arguments: Vec<Expression>, typ: SlangType) -> (r: (
        Expression,
        bool,
    ))
        requires
            old(self).inv(),
            callee.kind matches ExpressionKind::LoadSymbol(Symbol::Typ(t)) && ty_wf(old(self).table(), t.ty()),
        ensures
            old(self).steps(*final(self)),
            r.0 == (Expression { location, kind: ExpressionKind::Call { callee: r.0.kind->callee, arguments }, typ: r.0.typ }),
            r.0.kind->callee.kind == callee.kind,
            r.0.kind->callee.location == callee.location,
            r.1 <==> (callee.kind->LoadSymbol_0->Typ_0.ty() is Class),
            r.1 ==> final(self).errors().len() == old(self).errors().len() && r.0.typ.ty() == callee.kind->LoadSymbol_0->Typ_0.ty(),
            !r.1 ==> final(self).errors().len() == old(self).errors().len() + 1 && r.0.typ == typ,
    {
        let Expression { location: cl, kind: ck, typ: _ } = callee;
        match ck {
            ExpressionKind::LoadSymbol(Symbol::Typ(t)) => {
                let con = SlangType::TypeConstructor(Box::new(t.copy()));
                if t.is_class() {
                    let nt = t.copy();
                    let c = Expression { location: cl, kind: ExpressionKind::LoadSymbol(Symbol::Typ(t)), typ: con };
                    (Expression { location, kind: ExpressionKind::Call { callee: Box::new(c), arguments }, typ: nt }, true)
                } else {
                    let mut m = message("Cannot call type: ");
                    let txt = self.text(&t);
                    m.append(txt.as_str());
                    self.error(location, m);
                    let c = Expression { location: cl, kind: ExpressionKind::LoadSymbol(Symbol::Typ(t)), typ: con };
                    (Expression { location, kind: ExpressionKind::Call { callee: Box::new(c), arguments }, typ }, false)
                }
            },
            other => {
                let c = Expression { location: cl, kind: other, typ: SlangType::Undefined };
                (Expression { location, kind: ExpressionKind::Call { callee: Box::new(c), arguments }, typ }, true)
            },
        }
    }

    /// Type check a call: the callee must be a function, the arguments must fit its parameters.
    fn check_call(&mut self, ctx: &FnContext, locals: &Vec<LocalVariable>, e: Expression) -> (r: (Expression, bool))
        requires
            old(self).inv(),
            e.kind is Call,
            ewf(old(self).table(), param_ids(ctx.params@), local_ids(locals@), e),
            ctx_wf(old(self).table(), *ctx),
            locals_wf(old(self).table(), locals@),
        ensures
            old(self).checked(*final(self), *ctx, local_ids(locals@), r.0, r.1),
            infer(old(self).table(), param_env(ctx.params@), local_env(locals@), e) matches Some(t) ==> old(self).found(*final(self), r.0, r.1, t),
            annotated(e, r.0),
            plain(e, r.0),
            old(self).exact(*final(self), *ctx, locals@, e, r.0, r.1),
            old(self).call_reports(*final(self), *ctx, locals@, e, r.0, r.1),
        decreases e, 0nat,
    {
        let ghost t = self.table();
        let Expression { location, kind, typ } = e;
        match kind {
            ExpressionKind::Call { callee, arguments } => {
                proof {
                    lemma_all_annotated_refl(arguments@);
                }
                if let ExpressionKind::LoadSymbol(Symbol::Typ(_)) = &callee.kind {
                    let ghost gc = *callee;
                    let ghost ga = arguments@;
                    let r = self.check_constructor_call(location, *callee, arguments, typ);
                    proof {
                        let c2 = *r.0.kind->callee;
                        assert(c2.kind == gc.kind);
                        assert(symbol_same(gc.kind->LoadSymbol_0, c2.kind->LoadSymbol_0));
                        assert(annotated(gc, c2));
                        assert(r.0.kind->Call_arguments@ == ga);
                    }
                    return r;
                }
                let (c, ok) = self.check_expression(ctx, locals, *callee);
                if !ok {
                    return (Expression { location, kind: ExpressionKind::Call { callee: Box::new(c), arguments }, typ }, false);
                }
                let ct = match get_type(&c) {
                    Some(ct) => ct,
                    None => {
                        assert(has_undef(c));
                        return (Expression { location, kind: ExpressionKind::Call { callee: Box::new(c), arguments }, typ }, false);
                    },
                };
                match ct {
                    SlangType::User(UserType::Function(sig)) => {
                        proof {
                            lemma_param_tys(sig.parameters@);
                            lemma_all_wf(t, param_tys(sig.parameters@));
                        }
                        let mut types: Vec<SlangType> = Vec::new();
                        let mut i: usize = 0;
                        while i < sig.parameters.len()
                            invariant
                                i <= sig.parameters@.len(),
                                types@.len() == i,
                                param_tys(sig.parameters@).len() == sig.parameters@.len(),
                                forall|j: int| 0 <= j < sig.parameters@.len() ==> #[trigger] param_tys(sig.parameters@)[j] == sig.parameters@[j].typ.ty(),
                                forall|j: int| 0 <= j < sig.parameters@.len() ==> ty_wf(t, #[trigger] param_tys(sig.parameters@)[j]),
                                forall|j: int| 0 <= j < i ==> (#[trigger] types@[j]).ty() == sig.parameters@[j].typ.ty(),
                            decreases sig.parameters@.len() - i,
                        {
                            types.push(sig.parameters[i].typ.copy());
                            i = i + 1;
                        }
                        proof {
                            lemma_tys(types@);
                            assert(tys(types@) =~= param_tys(sig.parameters@));
                            assert forall|j: int| 0 <= j < types@.len() implies ty_wf(t, (#[trigger] types@[j]).ty()) by {
                                assert(ty_wf(t, param_tys(sig.parameters@)[j]));
                            }
                        }
                        let (args, ok2) = self.check_call_arguments(ctx, locals, location, &types, arguments);
                        if !ok2 {
                            return (Expression { location, kind: ExpressionKind::Call { callee: Box::new(c), arguments: args }, typ }, false);
                        }
                        let rt = match &sig.return_type {
                            Some(rt) => rt.copy(),
                            None => SlangType::Void,
                        };
                        (Expression { location, kind: ExpressionKind::Call { callee: Box::new(c), arguments: args }, typ: rt }, true)
                    },
                    other => {
                        let mut m = message("Cannot call: ");
                        let txt = self.text(&other);
                        m.append(txt.as_str());
                        m.append(" ");
                        self.error(location, m);
                        (Expression { location, kind: ExpressionKind::Call { callee: Box::new(c), arguments }, typ }, false)
                    },
                }
            },
            other => (Expression { location, kind: other, typ }, true),
        }
    }
}


impl TypeChecker {
    /// Type check indexing into an array.
    fn check_get_index(&mut self, ctx: &FnContext, locals: &Vec<LocalVariable>, e: Expression) -> (r: (Expression, bool))
        requires
            old(self).inv(),
            e.kind is GetIndex,
            ewf(old(self).table(), param_ids(ctx.params@), local_ids(locals@), e),
            ctx_wf(old(self).table(), *ctx),
            locals_wf(old(self).table(), locals@),
        ensures
            old(self).checked(*final(self), *ctx, local_ids(locals@), r.0, r.1),
            infer(old(self).table(), param_env(ctx.params@), local_env(locals@), e) matches Some(t) ==> old(self).found(*final(self), r.0, r.1, t),
            annotated(e, r.0),
            plain(e, r.0),
            old(self).exact(*final(self), *ctx, locals@, e, r.0, r.1),
            old(self).index_reports(*final(self), *ctx, locals@, e, r.0, r.1),
        decreases e, 0nat,
    {
        let Expression { location, kind, typ } = e;
        match kind {
            ExpressionKind::GetIndex { base, index } => {
                let (b, ok) = self.check_expression(ctx, locals, *base);
                proof {
                    lemma_annotated_refl(*index);
                }
                if !ok {
                    return (Expression { location, kind: ExpressionKind::GetIndex { base: Box::new(b), index }, typ }, false);
                }
                let element = match &b.typ {
                    SlangType::Array(a) => Some((*a.element_type).copy()),
                    _ => None,
                };
                match element {
                    Some(el) => {
                        let int_type = SlangType::Basic(BasicType::Int);
                        let (ix, ok2) = self.coerce(ctx, locals, &int_type, *index);
                        if !ok2 {
                            return (
                                Expression { location, kind: ExpressionKind::GetIndex { base: Box::new(b), index: Box::new(ix) }, typ },
                                false,
                            );
                        }
                        (Expression { location, kind: ExpressionKind::GetIndex { base: Box::new(b), index: Box::new(ix) }, typ: el }, true)
                    },
                    None => {
                        let mut m = message("Cannot array-index non-array '");
                        let txt = self.text(&b.typ);
                        m.append(txt.as_str());
                        m.append("' type.");
                        self.error(location, m);
                        (Expression { location, kind: ExpressionKind::GetIndex { base: Box::new(b), index }, typ }, false)
                    },
                }
            },
            other => (Expression { location, kind: other, typ }, true),
        }
    }

    /// Type check an attribute of an object.
    fn check_get_attr(&mut self, ctx: &FnContext, locals: &Vec<LocalVariable>, e: Expression) -> (r: (Expression, bool))
        requires
            old(self).inv(),
            e.kind is GetAttr,
            ewf(old(self).table(), param_ids(ctx.params@), local_ids(locals@), e),
            ctx_wf(old(self).table(), *ctx),
            locals_wf(old(self).table(), locals@),
        ensures
            old(self).checked(*final(self), *ctx, local_ids(locals@), r.0, r.1),
            infer(old(self).table(), param_env(ctx.params@), local_env(locals@), e) matches Some(t) ==> old(self).found(*final(self), r.0, r.1, t),
            annotated(e, r.0),
            plain(e, r.0),
            old(self).exact(*final(self), *ctx, locals@, e, r.0, r.1),
        decreases e, 0nat,
    {
        let Expression { location, kind, typ } = e;
        match kind {
            ExpressionKind::GetAttr { base, attr } => {
                let (b, ok) = self.check_expression(ctx, locals, *base);
                if !ok {
                    return (Expression { location, kind: ExpressionKind::GetAttr { base: Box::new(b), attr }, typ }, false);
                }
                proof {
                    lemma_attr_wf(self.table(), b.typ.ty(), attr@);
                }
                match get_attr_type(&self.tab, &b.typ, attr.as_str()) {
                    Some(at) => (Expression { location, kind: ExpressionKind::GetAttr { base: Box::new(b), attr }, typ: at }, true),
                    None => {
                        let mut m = message("Type '");
                        let txt = self.text(&b.typ);
                        m.append(txt.as_str());
                        m.append("' has no attribute '");
                        m.append(attr.as_str());
                        m.append("'");
                        self.error(location, m);
                        (Expression { location, kind: ExpressionKind::GetAttr { base: Box::new(b), attr }, typ }, false)
                    },
                }
            },
            other => (Expression { location, kind: other, typ }, true),
        }
    }

    /// Type check a union literal: the value must fit the field it initializes.
    fn check_union_literal(&mut self, ctx: &FnContext, locals: &Vec<LocalVariable>, e: Expression) -> (r: (Expression, bool))
        requires
            old(self).inv(),
            e.kind is UnionLiteral,
            ewf(old(self).table(), param_ids(ctx.params@), local_ids(locals@), e),
            ctx_wf(old(self).table(), *ctx),
            locals_wf(old(self).table(), locals@),
        ensures
            old(self).checked(*final(self), *ctx, local_ids(locals@), r.0, r.1),
            infer(old(self).table(), param_env(ctx.params@), local_env(locals@), e) matches Some(t) ==> old(self).found(*final(self), r.0, r.1, t),
            annotated(e, r.0),
            plain(e, r.0),
            old(self).exact(*final(self), *ctx, locals@, e, r.0, r.1),
        decreases e, 0nat,
    {
        let Expression { location, kind, typ } = e;
        match kind {
            ExpressionKind::UnionLiteral { attr, value } => {
                proof {
                    lemma_attr_wf(self.table(), typ.ty(), attr@);
                }
                match get_attr_type(&self.tab, &typ, attr.as_str()) {
                    Some(wanted) => {
                        let (v, ok) = self.coerce(ctx, locals, &wanted, *value);
                        (Expression { location, kind: ExpressionKind::UnionLiteral { attr, value: Box::new(v) }, typ }, ok)
                    },
                    None => {
                        let mut m = message("Union has no attribute '");
                        m.append(attr.as_str());
                        m.append("'");
                        self.error(location, m);
                        proof {
                            lemma_annotated_refl(*value);
                        }
                        (Expression { location, kind: ExpressionKind::UnionLiteral { attr, value }, typ }, false)
                    },
                }
            },
            other => (Expression { location, kind: other, typ }, true),
        }
    }
}


impl TypeChecker {
    /// Fit each value onto the type at its position, in order, up to the first
    /// one that does not fit.
    fn coerce_values(
        &mut self,
        ctx: &FnContext,
        locals: &Vec<LocalVariable>,
        types: &Vec<SlangType>,
        values: Vec<Expression>,
    ) -> (r: (Vec<Expression>, bool))
        requires
            old(self).inv(),
            types@.len() == values@.len(),
            forall|i: int| 0 <= i < types@.len() ==> ty_wf(old(self).table(), (#[trigger] types@[i]).ty()),
            ewf_all(old(self).table(), param_ids(ctx.params@), local_ids(locals@), values@),
            ctx_wf(old(self).table(), *ctx),
            locals_wf(old(self).table(), locals@),
        ensures
            old(self).steps(*final(self)),
            r.0@.len() == values@.len(),
            ewf_all(old(self).table(), param_ids(ctx.params@), local_ids(locals@), r.0@),
            r.1 && final(self).errors().len() == old(self).errors().len() ==> all_fit(
                old(self).table(),
                tys(types@),
                r.0@,
            ),
            !r.1 && final(self).errors().len() == old(self).errors().len() ==> any_undef(r.0@),
            all_coerce_ok(old(self).table(), param_env(ctx.params@), local_env(locals@), tys(types@), values@) ==> r.1
                && final(self).errors().len() == old(self).errors().len(),
            all_annotated(values@, r.0@),
            r.1 && final(self).errors().len() == old(self).errors().len() && !any_undef(r.0@) ==> all_coerce_ok(
                old(self).table(),
                param_env(ctx.params@),
                local_env(locals@),
                tys(types@),
                values@,
            ),
        decreases values, 3nat,
    {
        let ghost t = self.table();
        let ghost ps = param_ids(ctx.params@);
        let ghost ls = local_ids(locals@);
        let ghost start = *self;
        proof {
            lemma_ewf_all(t, ps, ls, values@);
            lemma_tys(types@);
        }
        let ghost vals = values@;
        let ghost pe = param_env(ctx.params@);
        let ghost le = local_env(locals@);
        proof {
            lemma_all_coerce_ok(t, pe, le, tys(types@), values@);
        }
        let mut rest = values;
        let mut out: Vec<Expression> = Vec::new();
        let mut i: usize = 0;
        while i < types.len()
            invariant
                i <= types@.len(),
                types@.len() == vals.len(),
                vals == values@,
                tys(types@).len() == types@.len(),
                forall|j: int| 0 <= j < types@.len() ==> #[trigger] tys(types@)[j] == types@[j].ty(),
                forall|j: int| 0 <= j < types@.len() ==> ty_wf(t, (#[trigger] types@[j]).ty()),
                out@.len() == i,
                rest@ == vals.skip(i as int),
                t == start.table(),
                start == *old(self),
                start.steps(*self),
                ctx_wf(t, *ctx),
                locals_wf(t, locals@),
                ps == param_ids(ctx.params@),
                ls == local_ids(locals@),
                forall|j: int| 0 <= j < vals.len() ==> ewf(t, ps, ls, #[trigger] vals[j]),
                forall|j: int| 0 <= j < i ==> ewf(t, ps, ls, #[trigger] out@[j]),
                self.errors().len() == start.errors().len() ==> forall|j: int| 0 <= j < i ==> fits(t, tys(types@)[j], #[trigger] out@[j]),
                pe == param_env(ctx.params@),
                le == local_env(locals@),
                all_coerce_ok(t, pe, le, tys(types@), vals) ==> self.errors().len() == start.errors().len(),
                all_coerce_ok(t, pe, le, tys(types@), vals) ==> forall|j: int| 0 <= j < vals.len() ==> coerce_ok(t, pe, le, tys(types@)[j], #[trigger] vals[j]),
                forall|j: int| 0 <= j < i ==> annotated(vals[j], #[trigger] out@[j]),
                self.errors().len() == start.errors().len() ==> forall|j: int|
                    0 <= j < i && !has_undef(#[trigger] out@[j]) ==> coerce_ok(t, pe, le, tys(types@)[j], vals[j]),
            decreases types@.len() - i,
        {
            let v = rest.remove(0);
            assert(v == values@[i as int]);
            assert(rest@ =~= vals.skip(i as int + 1));
            let (v2, ok) = self.coerce(ctx, locals, &types[i], v);
            out.push(v2);
            if !ok {
                let ghost o = out@;
                let ghost rs = rest@;
                out.append(&mut rest);
                proof {
                    assert(out@ == o + rs);
                    assert forall|j: int| 0 <= j < out@.len() implies ewf(t, ps, ls, #[trigger] out@[j]) by {
                        if j >= o.len() {
                            assert(out@[j] == vals[j]);
                        }
                    }
                    lemma_ewf_all(t, ps, ls, out@);
                    if self.errors().len() == start.errors().len() {
                        assert(has_undef(out@[i as int]));
                        lemma_any_undef(out@);
                    }
                    assert forall|j: int| 0 <= j < vals.len() implies annotated(vals[j], #[trigger] out@[j]) by {
                        if j > i {
                            assert(out@[j] == vals[j]);
                            lemma_annotated_refl(vals[j]);
                        }
                    }
                }
                return (out, false);
            }
            i = i + 1;
        }
        proof {
            lemma_ewf_all(t, ps, ls, out@);
            lemma_all_fit(t, tys(types@), out@);
            lemma_all_coerce_ok(t, pe, le, tys(types@), vals);
            lemma_any_undef(out@);
            if self.errors().len() == start.errors().len() && !any_undef(out@) {
                assert forall|j: int| 0 <= j < vals.len() implies coerce_ok(t, pe, le, tys(types@)[j], #[trigger] vals[j]) by {
                    assert(!has_undef(out@[j]));
                }
            }
        }
        (out, true)
    }

    /// Type check a tuple literal: each value must fit its field of the struct type.
    fn check_tuple_literal(&mut self, ctx: &FnContext, locals: &Vec<LocalVariable>, e: Expression) -> (r: (Expression, bool))
        requires
            old(self).inv(),
            e.kind is TupleLiteral,
            ewf(old(self).table(), param_ids(ctx.params@), local_ids(locals@), e),
            ctx_wf(old(self).table(), *ctx),
            locals_wf(old(self).table(), locals@),
        ensures
            old(self).checked(*final(self), *ctx, local_ids(locals@), r.0, r.1),
            infer(old(self).table(), param_env(ctx.params@), local_env(locals@), e) matches Some(t) ==> old(self).found(*final(self), r.0, r.1, t),
            annotated(e, r.0),
            plain(e, r.0),
            old(self).exact(*final(self), *ctx, locals@, e, r.0, r.1),
        decreases e, 0nat,
    {
        let ghost t = self.table();
        let Expression { location, kind, typ } = e;
        match kind {
            ExpressionKind::TupleLiteral { typ: tt, values } => {
                let fields = struct_field_types(&self.tab, &tt);
                proof {
                    lemma_tys(fields@);
                    assert(tys(fields@) =~= struct_field_tys(t, tt.ty()));
                }
                let (out, ok) = self.coerce_values(ctx, locals, &fields, values);
                if !ok {
                    return (Expression { location, kind: ExpressionKind::TupleLiteral { typ: tt, values: out }, typ }, false);
                }
                let nt = tt.copy();
                (Expression { location, kind: ExpressionKind::TupleLiteral { typ: tt, values: out }, typ: nt }, true)
            },
            other => (Expression { location, kind: other, typ }, true),
        }
    }

    /// Check the values of a list literal: the first, then each other onto its type.
    fn check_list_values(&mut self, ctx: &FnContext, locals: &Vec<LocalVariable>, values: Vec<Expression>) -> (r: (
        Vec<Expression>,
        bool,
    ))
        requires
            old(self).inv(),
            values@.len() > 0,
            ewf_all(old(self).table(), param_ids(ctx.params@), local_ids(locals@), values@),
            ctx_wf(old(self).table(), *ctx),
            locals_wf(old(self).table(), locals@),
        ensures
            old(self).steps(*final(self)),
            r.0@.len() == values@.len(),
            ewf_all(old(self).table(), param_ids(ctx.params@), local_ids(locals@), r.0@),
            r.1 && final(self).errors().len() == old(self).errors().len() ==> !(r.0@[0].typ.ty() is Undefined) && all_fit(
                old(self).table(),
                Seq::new(r.0@.len(), |j: int| r.0@[0].typ.ty()),
                r.0@,
            ),
            !r.1 && final(self).errors().len() == old(self).errors().len() ==> any_undef(r.0@),
            infer(old(self).table(), param_env(ctx.params@), local_env(locals@), values@[0]) matches Some(a) ==> (
            all_coerce_ok(
                old(self).table(),
                param_env(ctx.params@),
                local_env(locals@),
                repeat_ty(a, (values@.len() - 1) as nat),
                values@.drop_first(),
            ) ==> r.1 && final(self).errors().len() == old(self).errors().len() && r.0@[0].typ.ty() == a),
            all_annotated(values@, r.0@),
            r.1 && final(self).errors().len() == old(self).errors().len() && !any_undef(r.0@) ==> infer(
                old(self).table(),
                param_env(ctx.params@),
                local_env(locals@),
                values@[0],
            ) == Some(r.0@[0].typ.ty()) && all_coerce_ok(
                old(self).table(),
                param_env(ctx.params@),
                local_env(locals@),
                repeat_ty(r.0@[0].typ.ty(), (values@.len() - 1) as nat),
                values@.drop_first(),
            ),
            match infer(old(self).table(), param_env(ctx.params@), local_env(locals@), values@[0]) {
                Some(a) => forall|k: int|
                    #[trigger] first_misfit(old(self).table(), param_env(ctx.params@), local_env(locals@), a, values@, k) ==> !r.1
                        && old(self).reported(
                        *final(self),
                        values@[k].location,
                        "Expected "@ + ty_text(old(self).table(), a) + ", but got "@ + ty_text(
                            old(self).table(),
                            infer(old(self).table(), param_env(ctx.params@), local_env(locals@), values@[k])->0,
                        ),
                    ) && forall|j: int| k < j < values@.len() ==> #[trigger] r.0@[j] == values@[j],
                None => true,
            },
        decreases values, 3nat,
    {
        let ghost t = self.table();
        let ghost ps = param_ids(ctx.params@);
        let ghost ls = local_ids(locals@);
        let ghost start = *self;
        proof {
            lemma_ewf_all(t, ps, ls, values@);
        }
        let ghost vals = values@;
        let ghost pe = param_env(ctx.params@);
        let ghost le = local_env(locals@);
        let ghost rest_tys = match infer(t, pe, le, vals[0]) {
            Some(a) => repeat_ty(a, (vals.len() - 1) as nat),
            None => Seq::empty(),
        };
        let ghost clean = infer(t, pe, le, vals[0]) is Some && all_coerce_ok(t, pe, le, rest_tys, vals.drop_first());
        proof {
            lemma_infer_defined(t, pe, le, vals[0]);
            if infer(t, pe, le, vals[0]) is Some {
                lemma_all_coerce_ok(t, pe, le, rest_tys, vals.drop_first());

            }
        }
        let n = values.len();
        let mut rest = values;
        let first = rest.remove(0);
        assert(first == values@[0]);
        let (f, ok) = self.check_expression(ctx, locals, first);
        let mut out: Vec<Expression> = Vec::new();
        out.push(f);
        if !ok {
            let ghost o = out@;
            let ghost rs = rest@;
            out.append(&mut rest);
            proof {
                assert(out@ == o + rs);
                assert forall|j: int| 0 <= j < out@.len() implies ewf(t, ps, ls, #[trigger] out@[j]) by {
                    if j >= 1 {
                        assert(out@[j] == vals[j]);
                    }
                }
                lemma_ewf_all(t, ps, ls, out@);
                if self.errors().len() == start.errors().len() {
                    assert(has_undef(out@[0]));
                    lemma_any_undef(out@);
                }
                assert forall|j: int| 0 <= j < vals.len() implies annotated(vals[j], #[trigger] out@[j]) by {
                    if j >= 1 {
                        assert(out@[j] == vals[j]);
                        lemma_annotated_refl(vals[j]);
                    }
                }
            }
            return (out, false);
        }
        let element = match get_type(&out[0]) {
            Some(el) => el,
            None => {
                let ghost o = out@;
                let ghost rs = rest@;
                out.append(&mut rest);
                proof {
                    assert(out@ == o + rs);
                    assert forall|j: int| 0 <= j < out@.len() implies ewf(t, ps, ls, #[trigger] out@[j]) by {
                        if j >= 1 {
                            assert(out@[j] == vals[j]);
                        }
                    }
                    lemma_ewf_all(t, ps, ls, out@);
                    assert(has_undef(out@[0]));
                    lemma_any_undef(out@);
                    assert forall|j: int| 0 <= j < vals.len() implies annotated(vals[j], #[trigger] out@[j]) by {
                        if j >= 1 {
                            assert(out@[j] == vals[j]);
                            lemma_annotated_refl(vals[j]);
                        }
                    }
                }
                return (out, false);
            },
        };
        let ghost et = element.ty();
        let ghost ft = Seq::new(vals.len(), |j: int| et);
        let mut i: usize = 1;
        while i < n
            invariant
                1 <= i <= n,
                n == vals.len(),
                vals == values@,
                ft == Seq::new(vals.len(), |j: int| et),
                et == element.ty(),
                et == out@[0].typ.ty(),
                !(et is Undefined),
                ty_wf(t, et),
                out@.len() == i,
                rest@ == vals.skip(i as int),
                t == start.table(),
                start == *old(self),
                start.steps(*self),
                ctx_wf(t, *ctx),
                locals_wf(t, locals@),
                ps == param_ids(ctx.params@),
                ls == local_ids(locals@),
                forall|j: int| 0 <= j < vals.len() ==> ewf(t, ps, ls, #[trigger] vals[j]),
                forall|j: int| 0 <= j < i ==> ewf(t, ps, ls, #[trigger] out@[j]),
                self.errors().len() == start.errors().len() ==> forall|j: int| 0 <= j < i ==> fits(t, ft[j], #[trigger] out@[j]),
                pe == param_env(ctx.params@),
                le == local_env(locals@),
                clean == (infer(t, pe, le, vals[0]) is Some && all_coerce_ok(t, pe, le, rest_tys, vals.drop_first())),
                rest_tys == match infer(t, pe, le, vals[0]) {
                    Some(a) => repeat_ty(a, (vals.len() - 1) as nat),
                    None => Seq::empty(),
                },
                clean ==> self.errors().len() == start.errors().len(),
                clean ==> infer(t, pe, le, vals[0]) == Some(et),
                clean ==> rest_tys.len() == vals.len() - 1,
                clean ==> rest_tys == repeat_ty(et, (vals.len() - 1) as nat),
                clean ==> forall|j: int| 0 <= j < vals.len() - 1 ==> coerce_ok(t, pe, le, rest_tys[j], #[trigger] vals.drop_first()[j]),
                forall|j: int| 0 <= j < i ==> annotated(vals[j], #[trigger] out@[j]),
                self.errors().len() == start.errors().len() && !has_undef(out@[0]) ==> infer(t, pe, le, vals[0]) == Some(et),
                self.errors().len() == start.errors().len() ==> forall|j: int|
                    1 <= j < i && !has_undef(#[trigger] out@[j]) ==> coerce_ok(t, pe, le, et, vals[j]),
                infer(t, pe, le, vals[0]) matches Some(a) ==> a == et,
                infer(t, pe, le, vals[0]) is Some ==> ((forall|j: int| 1 <= j < i ==> coerce_ok(t, pe, le, et, #[trigger] vals[j]))
                    ==> self.errors().len() == start.errors().len()),
                infer(t, pe, le, vals[0]) is Some ==> forall|k: int| 1 <= k < i ==> !#[trigger] first_misfit(t, pe, le, et, vals, k),
            decreases n - i,
        {
            let v = rest.remove(0);
            assert(v == values@[i as int]);
            proof {
                if clean {
                    assert(vals.drop_first()[i - 1] == vals[i as int]);
                    assert(coerce_ok(t, pe, le, rest_tys[i - 1], vals.drop_first()[i - 1]));
                    assert(rest_tys[i - 1] == et);
                }
            }
            assert(rest@ =~= vals.skip(i as int + 1));
            let (v2, ok2) = self.coerce(ctx, locals, &element, v);
            out.push(v2);
            if !ok2 {
                assert(!clean);
                let ghost o = out@;
                let ghost rs = rest@;
                out.append(&mut rest);
                proof {
                    assert(out@ == o + rs);
                    assert forall|j: int| 0 <= j < out@.len() implies ewf(t, ps, ls, #[trigger] out@[j]) by {
                        if j >= o.len() {
                            assert(out@[j] == vals[j]);
                        }
                    }
                    lemma_ewf_all(t, ps, ls, out@);
                    if self.errors().len() == start.errors().len() {
                        assert(has_undef(out@[i as int]));
                        lemma_any_undef(out@);
                    }
                    assert forall|j: int| 0 <= j < vals.len() implies annotated(vals[j], #[trigger] out@[j]) by {
                        if j > i {
                            assert(out@[j] == vals[j]);
                            lemma_annotated_refl(vals[j]);
                        }
                    }
                }
                return (out, false);
            }
            i = i + 1;
        }
        proof {
            lemma_ewf_all(t, ps, ls, out@);
            lemma_all_fit(t, ft, out@);
            assert(ft =~= Seq::new(out@.len(), |j: int| out@[0].typ.ty()));
            lemma_any_undef(out@);
            if self.errors().len() == start.errors().len() && !any_undef(out@) {
                let rt = repeat_ty(et, (vals.len() - 1) as nat);
                lemma_all_coerce_ok(t, pe, le, rt, vals.drop_first());
                assert forall|j: int| 0 <= j < vals.len() - 1 implies coerce_ok(t, pe, le, rt[j], #[trigger] vals.drop_first()[j]) by {
                    assert(!has_undef(out@[j + 1]));
                    assert(vals.drop_first()[j] == vals[j + 1]);
                }
                assert(!has_undef(out@[0]));
            }
        }
        (out, true)
    }

    /// Type check a list literal: all values must fit the type of the first.
    fn check_list_literal(&mut self, ctx: &FnContext, locals: &Vec<LocalVariable>, e: Expression) -> (r: (Expression, bool))
        requires
            old(self).inv(),
            e.kind is ListLiteral,
            ewf(old(self).table(), param_ids(ctx.params@), local_ids(locals@), e),
            ctx_wf(old(self).table(), *ctx),
            locals_wf(old(self).table(), locals@),
        ensures
            old(self).checked(*final(self), *ctx, local_ids(locals@), r.0, r.1),
            infer(old(self).table(), param_env(ctx.params@), local_env(locals@), e) matches Some(t) ==> old(self).found(*final(self), r.0, r.1, t),
            annotated(e, r.0),
            plain(e, r.0),
            old(self).exact(*final(self), *ctx, locals@, e, r.0, r.1),
            old(self).list_reports(*final(self), *ctx, locals@, e, r.0, r.1),
        decreases e, 0nat,
    {
        let ghost t = self.table();
        let Expression { location, kind, typ } = e;
        match kind {
            ExpressionKind::ListLiteral(values) => {
                let (out, ok) = self.check_list_values(ctx, locals, values);
                if !ok {
                    return (Expression { location, kind: ExpressionKind::ListLiteral(out), typ }, false);
                }
                proof {
                    lemma_ewf_all(t, param_ids(ctx.params@), local_ids(locals@), out@);
                }
                let element = out[0].typ.copy();
                let size = out.len();
                let nt = SlangType::Array(ArrayType { element_type: Box::new(element), size });
                (Expression { location, kind: ExpressionKind::ListLiteral(out), typ: nt }, true)
            },
            other => (Expression { location, kind: other, typ }, true),
        }
    }
}


/// The value of the return type of the function being checked.
pub open spec fn ret_ty(ctx: FnContext) -> Option<Ty> {
    match ctx.return_type {
        Some(t) => Some(t.ty()),
        None => None,
    }
}

/// Give the local variable with node id `id` the type `typ`.
fn set_local_type(locals: &mut Vec<LocalVariable>, id: usize, typ: SlangType)
    requires
        has_local(local_ids(old(locals)@), id),
    ensures
        local_ids(final(locals)@) == local_ids(old(locals)@),
        forall|i: int| 0 <= i < final(locals)@.len() ==> (#[trigger] final(locals)@[i]).typ.ty() == old(locals)@[i].typ.ty() || final(locals)@[i].typ.ty() == typ.ty(),
        local_env(final(locals)@) == set_env(local_env(old(locals)@), id, typ.ty()),
{
    match find_local(locals, id) {
        Some(k) => {
            proof {
                let env = local_env(locals@);
                assert forall|j: int| 0 <= j < k implies (#[trigger] env[j]).0 != id by {
                    assert(env[j].0 == locals@[j].name.id);
                }
                lemma_set_first(env, id, k as int, typ.ty());
            }
            let l = LocalVariable { location: locals[k].location, mutable: locals[k].mutable, name: locals[k].name.copy(), typ };
            let ghost before = locals@;
            locals.set(k, l);
            assert(local_ids(locals@) =~= local_ids(before));
            assert(local_env(locals@) =~= local_env(before).update(k as int, (id, l.typ.ty())));
        },
        None => {
            proof {
                let env = local_env(locals@);
                assert forall|j: int| 0 <= j < env.len() implies (#[trigger] env[j]).0 != id by {
                    assert(env[j].0 == locals@[j].name.id);
                    assert(local_ids(locals@)[j] == locals@[j].name.id);
                }
                lemma_set_absent(env, id, typ.ty());
            }
        },
    }
}

impl TypeChecker {
    pub open spec fn stmt_checked(
        &self,
        next: TypeChecker,
        ctx: FnContext,
        old_locals: Seq<LocalVariable>,
        new_locals: Seq<LocalVariable>,
        s: Statement,
        ok: bool,
    ) -> bool {
        &&& self.steps(next)
        &&& local_ids(new_locals) == local_ids(old_locals)
        &&& locals_wf(self.table(), new_locals)
        &&& (ok && next.errors().len() == self.errors().len() ==> wt_stmt(self.table(), ret_ty(ctx), s))
        &&& (!ok && next.errors().len() == self.errors().len() ==> stmt_undef(s))
    }

    /// Check each statement of a block; a statement that fails is passed over.
    fn check_block(&mut self, ctx: &FnContext, locals: &mut Vec<LocalVariable>, block: Vec<Statement>) -> (r: Vec<Statement>)
        requires
            old(self).inv(),
            bwf(old(self).table(), param_ids(ctx.params@), local_ids(old(locals)@), block@),
            ctx_wf(old(self).table(), *ctx),
            locals_wf(old(self).table(), old(locals)@),
        ensures
            old(self).steps(*final(self)),
            local_ids(final(locals)@) == local_ids(old(locals)@),
            locals_wf(old(self).table(), final(locals)@),
            r@.len() == block@.len(),
            final(self).errors().len() == old(self).errors().len() ==> block_fine(old(self).table(), ret_ty(*ctx), r@),
            infer_block(old(self).table(), ret_ty(*ctx), param_env(ctx.params@), local_env(old(locals)@), block@) matches Some(le2)
                ==> final(self).errors().len() == old(self).errors().len() && local_env(final(locals)@) == le2,
            blocks_annotated(old(self).table(), block@, r@),
        decreases block, 2nat,
    {
        let ghost t = self.table();
        let ghost ps = param_ids(ctx.params@);
        let ghost ls = local_ids(locals@);
        let ghost start = *self;
        proof {
            lemma_bwf(t, ps, ls, block@);
        }
        let ghost vals = block@;
        let ghost pe = param_env(ctx.params@);
        let ghost target = infer_block(t, ret_ty(*ctx), pe, local_env(locals@), vals);
        assert(vals.skip(0) =~= vals);
        let n = block.len();
        let mut rest = block;
        let mut out: Vec<Statement> = Vec::new();
        let mut i: usize = 0;
        while i < n
            invariant
                i <= n,
                n == vals.len(),
                vals == block@,
                out@.len() == i,
                rest@ == vals.skip(i as int),
                t == start.table(),
                start == *old(self),
                start.steps(*self),
                ctx_wf(t, *ctx),
                locals_wf(t, locals@),
                ps == param_ids(ctx.params@),
                ls == local_ids(locals@),
                forall|j: int| 0 <= j < vals.len() ==> swf(t, ps, ls, #[trigger] vals[j]),
                self.errors().len() == start.errors().len() ==> forall|j: int| 0 <= j < i ==> stmt_fine(t, ret_ty(*ctx), #[trigger] out@[j]),
                pe == param_env(ctx.params@),
                target is Some ==> self.errors().len() == start.errors().len(),
                target is Some ==> infer_block(t, ret_ty(*ctx), pe, local_env(locals@), vals.skip(i as int)) == target,
                forall|j: int| 0 <= j < i ==> stmt_annotated(t, vals[j], #[trigger] out@[j]),
            decreases n - i,
        {
            let st = rest.remove(0);
            assert(st == block@[i as int]);
            assert(vals.skip(i as int)[0] == vals[i as int]);
            assert(vals.skip(i as int).drop_first() =~= vals.skip(i as int + 1));
            assert(rest@ =~= vals.skip(i as int + 1));
            let (st2, _ok) = self.check_statement(ctx, locals, st);
            out.push(st2);
            i = i + 1;
        }
        proof {
            lemma_block_fine(t, ret_ty(*ctx), out@);
            assert(vals.skip(n as int) =~= Seq::<Statement>::empty());
        }
        out
    }

    /// Type check a statement.
    fn check_statement(&mut self, ctx: &FnContext, locals: &mut Vec<LocalVariable>, s: Statement) -> (r: (Statement, bool))
        requires
            old(self).inv(),
            swf(old(self).table(), param_ids(ctx.params@), local_ids(old(locals)@), s),
            ctx_wf(old(self).table(), *ctx),
            locals_wf(old(self).table(), old(locals)@),
        ensures
            old(self).stmt_checked(*final(self), *ctx, old(locals)@, final(locals)@, r.0, r.1),
            infer_stmt(old(self).table(), ret_ty(*ctx), param_env(ctx.params@), local_env(old(locals)@), s) matches Some(le2) ==> r.1
                && final(self).errors().len() == old(self).errors().len() && local_env(final(locals)@) == le2,
            stmt_annotated(old(self).table(), s, r.0),
            old(self).return_reports(*final(self), *ctx, old(locals)@, s, r.0, r.1),
            old(self).for_reports(*final(self), *ctx, old(locals)@, s, r.0, r.1),
            old(self).case_reports(*final(self), *ctx, old(locals)@, s, r.0, r.1),
        decreases s, 1nat,
    {
        let ghost t = self.table();
        let ghost ls = local_ids(locals@);
        match s.kind {
            StatementKind::Let { .. } | StatementKind::StoreLocal { .. } => self.check_local_store(ctx, locals, s),
            StatementKind::Return { .. } => self.check_return(ctx, locals, s),
            StatementKind::For { .. } => self.check_for(ctx, locals, s),
            StatementKind::Switch(_) => self.check_switch(ctx, locals, s),
            StatementKind::Case(_) => self.check_case(ctx, locals, s),
            StatementKind::If(_) | StatementKind::While(_) | StatementKind::Loop { .. } | StatementKind::Compound(_) => {
                self.check_control(ctx, locals, s)
            },
            _ => self.check_simple(ctx, locals, s),
        }
    }

    /// Type check a statement that holds expressions only.
    fn check_simple(&mut self, ctx: &FnContext, locals: &mut Vec<LocalVariable>, s: Statement) -> (r: (Statement, bool))
        requires
            old(self).inv(),
            swf(old(self).table(), param_ids(ctx.params@), local_ids(old(locals)@), s),
            ctx_wf(old(self).table(), *ctx),
            locals_wf(old(self).table(), old(locals)@),
            !(s.kind is Let || s.kind is StoreLocal || s.kind is Return || s.kind is For || s.kind is Switch || s.kind is Case
                || s.kind is If || s.kind is While || s.kind is Loop || s.kind is Compound),
        ensures
            old(self).stmt_checked(*final(self), *ctx, old(locals)@, final(locals)@, r.0, r.1),
            infer_stmt(old(self).table(), ret_ty(*ctx), param_env(ctx.params@), local_env(old(locals)@), s) matches Some(le2) ==> r.1
                && final(self).errors().len() == old(self).errors().len() && local_env(final(locals)@) == le2,
            stmt_annotated(old(self).table(), s, r.0),
    {
        proof {
            lemma_stmt_annotated_refl(self.table(), s);
        }
        let Statement { location, kind } = s;
        match kind {
            StatementKind::Expression(e) => {
                let (e2, ok) = self.check_expression(ctx, locals, e);
                (Statement { location, kind: StatementKind::Expression(e2) }, ok)
            },
            StatementKind::Assignment { target, value } => {
                proof {
                    lemma_infer_defined(self.table(), param_env(ctx.params@), local_env(locals@), target);
                }
                let (t2, ok) = self.check_expression(ctx, locals, target);
                if !ok {
                    return (Statement { location, kind: StatementKind::Assignment { target: t2, value } }, false);
                }
                let tt = match get_type(&t2) {
                    Some(tt) => tt,
                    None => {
                        assert(has_undef(t2));
                        return (Statement { location, kind: StatementKind::Assignment { target: t2, value } }, false);
                    },
                };
                let (v2, ok2) = self.coerce(ctx, locals, &tt, value);
                (Statement { location, kind: StatementKind::Assignment { target: t2, value: v2 } }, ok2)
            },
            StatementKind::SetAttr { base, attr, value } => {
                let (b2, ok) = self.check_expression(ctx, locals, base);
                if !ok {
                    return (Statement { location, kind: StatementKind::SetAttr { base: b2, attr, value } }, false);
                }
                let (v2, ok2) = self.check_expression(ctx, locals, value);
                (Statement { location, kind: StatementKind::SetAttr { base: b2, attr, value: v2 } }, ok2)
            },
            StatementKind::SetIndex { base, index, value } => {
                let (b2, ok) = self.check_expression(ctx, locals, base);
                if !ok {
                    return (Statement { location, kind: StatementKind::SetIndex { base: b2, index, value } }, false);
                }
                let (i2, ok2) = self.check_expression(ctx, locals, index);
                if !ok2 {
                    return (Statement { location, kind: StatementKind::SetIndex { base: b2, index: i2, value } }, false);
                }
                let (v2, ok3) = self.check_expression(ctx, locals, value);
                (Statement { location, kind: StatementKind::SetIndex { base: b2, index: i2, value: v2 } }, ok3)
            },
            other => (Statement { location, kind: other }, true),
        }
    }
}


impl TypeChecker {
    /// Type check a `let` or a store into a local, and give the local its type.
    fn check_local_store(&mut self, ctx: &FnContext, locals: &mut Vec<LocalVariable>, s: Statement) -> (r: (Statement, bool))
        requires
            old(self).inv(),
            s.kind is Let || s.kind is StoreLocal,
            swf(old(self).table(), param_ids(ctx.params@), local_ids(old(locals)@), s),
            ctx_wf(old(self).table(), *ctx),
            locals_wf(old(self).table(), old(locals)@),
        ensures
            old(self).stmt_checked(*final(self), *ctx, old(locals)@, final(locals)@, r.0, r.1),
            infer_stmt(old(self).table(), ret_ty(*ctx), param_env(ctx.params@), local_env(old(locals)@), s) matches Some(le2) ==> r.1
                && final(self).errors().len() == old(self).errors().len() && local_env(final(locals)@) == le2,
            stmt_annotated(old(self).table(), s, r.0),
    {
        proof {
            lemma_stmt_annotated_refl(self.table(), s);
        }
        let ghost t = self.table();
        let Statement { location, kind } = s;
        match kind {
            StatementKind::Let { local_id, type_hint, value } => {
                proof {
                    lemma_infer_defined(t, param_env(ctx.params@), local_env(locals@), value);
                }
                let (v2, typ) = match &type_hint {
                    Some(h) => {
                        let (v2, ok) = self.coerce(ctx, locals, h, value);
                        if !ok {
                            return (Statement { location, kind: StatementKind::Let { local_id, type_hint, value: v2 } }, false);
                        }
                        (v2, h.copy())
                    },
                    None => {
                        let (v2, ok) = self.check_expression(ctx, locals, value);
                        if !ok {
                            return (Statement { location, kind: StatementKind::Let { local_id, type_hint, value: v2 } }, false);
                        }
                        match get_type(&v2) {
                            Some(vt) => (v2, vt),
                            None => {
                                assert(has_undef(v2));
                                return (Statement { location, kind: StatementKind::Let { local_id, type_hint, value: v2 } }, false);
                            },
                        }
                    },
                };
                let ghost before = locals@;
                set_local_type(locals, local_id, typ);
                proof {
                    assert forall|i: int| 0 <= i < locals@.len() implies ty_wf(t, (#[trigger] locals@[i]).typ.ty()) by {
                        assert(local_ids(locals@)[i] == local_ids(before)[i]);
                        assert(ty_wf(t, before[i].typ.ty()));
                    }
                }
                (Statement { location, kind: StatementKind::Let { local_id, type_hint, value: v2 } }, true)
            },
            StatementKind::StoreLocal { local_id, value } => {
                proof {
                    lemma_infer_defined(t, param_env(ctx.params@), local_env(locals@), value);
                }
                let (v2, ok) = self.check_expression(ctx, locals, value);
                if !ok {
                    return (Statement { location, kind: StatementKind::StoreLocal { local_id, value: v2 } }, false);
                }
                let typ = match get_type(&v2) {
                    Some(vt) => vt,
                    None => {
                        assert(has_undef(v2));
                        return (Statement { location, kind: StatementKind::StoreLocal { local_id, value: v2 } }, false);
                    },
                };
                let ghost before = locals@;
                set_local_type(locals, local_id, typ);
                proof {
                    assert forall|i: int| 0 <= i < locals@.len() implies ty_wf(t, (#[trigger] locals@[i]).typ.ty()) by {
                        assert(local_ids(locals@)[i] == local_ids(before)[i]);
                        assert(ty_wf(t, before[i].typ.ty()));
                    }
                }
                (Statement { location, kind: StatementKind::StoreLocal { local_id, value: v2 } }, true)
            },
            other => (Statement { location, kind: other }, true),
        }
    }

    /// Type check a return statement against the return type of the function.
    fn check_return(&mut self, ctx: &FnContext, locals: &mut Vec<LocalVariable>, s: Statement) -> (r: (Statement, bool))
        requires
            old(self).inv(),
            s.kind is Return,
            swf(old(self).table(), param_ids(ctx.params@), local_ids(old(locals)@), s),
            ctx_wf(old(self).table(), *ctx),
            locals_wf(old(self).table(), old(locals)@),
        ensures
            old(self).stmt_checked(*final(self), *ctx, old(locals)@, final(locals)@, r.0, r.1),
            infer_stmt(old(self).table(), ret_ty(*ctx), param_env(ctx.params@), local_env(old(locals)@), s) matches Some(le2) ==> r.1
                && final(self).errors().len() == old(self).errors().len() && local_env(final(locals)@) == le2,
            stmt_annotated(old(self).table(), s, r.0),
            old(self).return_reports(*final(self), *ctx, old(locals)@, s, r.0, r.1),
    {
        proof {
            lemma_stmt_annotated_refl(self.table(), s);
        }
        let Statement { location, kind } = s;
        match kind {
            StatementKind::Return { value } => match value {
                Some(v) => {
                    let (v2, ok) = self.check_expression(ctx, locals, v);
                    if !ok {
                        return (Statement { location, kind: StatementKind::Return { value: Some(v2) } }, false);
                    }
                    match &ctx.return_type {
                        Some(rt) => {
                            let fits = self.check_equal_types(location, rt, &v2.typ);
                            (Statement { location, kind: StatementKind::Return { value: Some(v2) } }, fits)
                        },
                        None => {
                            self.error(location, message("Function does not return anything"));
                            (Statement { location, kind: StatementKind::Return { value: Some(v2) } }, true)
                        },
                    }
                },
                None => {
                    match &ctx.return_type {
                        Some(rt) => {
                            let mut m = message("Return nothing, but expected: ");
                            let txt = self.text(rt);
                            m.append(txt.as_str());
                            self.error(location, m);
                        },
                        None => {},
                    }
                    (Statement { location, kind: StatementKind::Return { value: None } }, true)
                },
            },
            other => (Statement { location, kind: other }, true),
        }
    }
}


impl TypeChecker {
    /// Type check an `if`, a `while`, a `loop` or a compound statement.
    fn check_control(&mut self, ctx: &FnContext, locals: &mut Vec<LocalVariable>, s: Statement) -> (r: (Statement, bool))
        requires
            old(self).inv(),
            s.kind is If || s.kind is While || s.kind is Loop || s.kind is Compound,
            swf(old(self).table(), param_ids(ctx.params@), local_ids(old(locals)@), s),
            ctx_wf(old(self).table(), *ctx),
            locals_wf(old(self).table(), old(locals)@),
        ensures
            old(self).stmt_checked(*final(self), *ctx, old(locals)@, final(locals)@, r.0, r.1),
            infer_stmt(old(self).table(), ret_ty(*ctx), param_env(ctx.params@), local_env(old(locals)@), s) matches Some(le2) ==> r.1
                && final(self).errors().len() == old(self).errors().len() && local_env(final(locals)@) == le2,
            stmt_annotated(old(self).table(), s, r.0),
        decreases s, 0nat,
    {
        proof {
            lemma_stmt_annotated_refl(self.table(), s);
        }
        let Statement { location, kind } = s;
        match kind {
            StatementKind::If(IfStatement { condition, if_true, if_false }) => {
                let (c2, ok) = self.check_condition(ctx, locals, condition);
                if !ok {
                    return (Statement { location, kind: StatementKind::If(IfStatement { condition: c2, if_true, if_false }) }, false);
                }
                let t2 = self.check_block(ctx, locals, if_true);
                let f2 = match if_false {
                    Some(b) => Some(self.check_block(ctx, locals, b)),
                    None => None,
                };
                (Statement { location, kind: StatementKind::If(IfStatement { condition: c2, if_true: t2, if_false: f2 }) }, true)
            },
            StatementKind::While(WhileStatement { condition, body }) => {
                let (c2, ok) = self.check_condition(ctx, locals, condition);
                if !ok {
                    return (Statement { location, kind: StatementKind::While(WhileStatement { condition: c2, body }) }, false);
                }
                let b2 = self.check_block(ctx, locals, body);
                (Statement { location, kind: StatementKind::While(WhileStatement { condition: c2, body: b2 }) }, true)
            },
            StatementKind::Loop { body } => {
                let b2 = self.check_block(ctx, locals, body);
                (Statement { location, kind: StatementKind::Loop { body: b2 } }, true)
            },
            StatementKind::Compound(body) => {
                let b2 = self.check_block(ctx, locals, body);
                (Statement { location, kind: StatementKind::Compound(b2) }, true)
            },
            other => (Statement { location, kind: other }, true),
        }
    }

    /// Type check a `for` loop over an array, and give the loop variable the element type.
    fn check_for(&mut self, ctx: &FnContext, locals: &mut Vec<LocalVariable>, s: Statement) -> (r: (Statement, bool))
        requires
            old(self).inv(),
            s.kind is For,
            swf(old(self).table(), param_ids(ctx.params@), local_ids(old(locals)@), s),
            ctx_wf(old(self).table(), *ctx),
            locals_wf(old(self).table(), old(locals)@),
        ensures
            old(self).stmt_checked(*final(self), *ctx, old(locals)@, final(locals)@, r.0, r.1),
            infer_stmt(old(self).table(), ret_ty(*ctx), param_env(ctx.params@), local_env(old(locals)@), s) matches Some(le2) ==> r.1
                && final(self).errors().len() == old(self).errors().len() && local_env(final(locals)@) == le2,
            stmt_annotated(old(self).table(), s, r.0),
            old(self).for_reports(*final(self), *ctx, old(locals)@, s, r.0, r.1),
        decreases s, 0nat,
    {
        proof {
            lemma_stmt_annotated_refl(self.table(), s);
        }
        let ghost t = self.table();
        let Statement { location, kind } = s;
        match kind {
            StatementKind::For { loop_var, iterable, body } => {
                let (it2, ok) = self.check_expression(ctx, locals, iterable);
                if !ok {
                    return (Statement { location, kind: StatementKind::For { loop_var, iterable: it2, body } }, false);
                }
                let element = match &it2.typ {
                    SlangType::Array(a) => Some((*a.element_type).copy()),
                    _ => None,
                };
                match element {
                    Some(el) => {
                        let ghost before = locals@;
                        set_local_type(locals, loop_var, el);
                        proof {
                            assert forall|i: int| 0 <= i < locals@.len() implies ty_wf(t, (#[trigger] locals@[i]).typ.ty()) by {
                                assert(local_ids(locals@)[i] == local_ids(before)[i]);
                                assert(ty_wf(t, before[i].typ.ty()));
                            }
                        }
                        let b2 = self.check_block(ctx, locals, body);
                        (Statement { location, kind: StatementKind::For { loop_var, iterable: it2, body: b2 } }, true)
                    },
                    None => {
                        let mut m = message("Cannot loop over ");
                        let txt = self.text(&it2.typ);
                        m.append(txt.as_str());
                        self.error(location, m);
                        (Statement { location, kind: StatementKind::For { loop_var, iterable: it2, body } }, false)
                    },
                }
            },
            other => (Statement { location, kind: other }, true),
        }
    }

    /// Type check the arms of a switch: each value an `int`, then the arm's body.
    #[verifier::spinoff_prover]
    fn check_switch_arms(&mut self, ctx: &FnContext, locals: &mut Vec<LocalVariable>, arms: Vec<SwitchArm>) -> (r: (Vec<SwitchArm>, bool))
        requires
            old(self).inv(),
            armswf(old(self).table(), param_ids(ctx.params@), local_ids(old(locals)@), arms@),
            ctx_wf(old(self).table(), *ctx),
            locals_wf(old(self).table(), old(locals)@),
        ensures
            old(self).steps(*final(self)),
            local_ids(final(locals)@) == local_ids(old(locals)@),
            locals_wf(old(self).table(), final(locals)@),
            r.0@.len() == arms@.len(),
            r.1 && final(self).errors().len() == old(self).errors().len() ==> arms_fine(old(self).table(), ret_ty(*ctx), r.0@),
            !r.1 && final(self).errors().len() == old(self).errors().len() ==> exists|i: int|
                0 <= i < r.0@.len() && has_undef(#[trigger] r.0@[i].value),
            infer_arms(old(self).table(), ret_ty(*ctx), param_env(ctx.params@), local_env(old(locals)@), arms@) matches Some(le2)
                ==> r.1 && final(self).errors().len() == old(self).errors().len() && local_env(final(locals)@) == le2,
            r.0@.len() == arms@.len() && forall|k: int| 0 <= k < arms@.len() ==> annotated(arms@[k].value, (#[trigger] r.0@[k]).value) && blocks_annotated(old(self).table(), arms@[k].body@, r.0@[k].body@),
        decreases arms, 2nat,
    {
        let ghost t = self.table();
        let ghost ps = param_ids(ctx.params@);
        let ghost ls = local_ids(locals@);
        let ghost start = *self;
        proof {
            lemma_armswf(t, ps, ls, arms@);
        }
        let ghost vals = arms@;
        let ghost pe = param_env(ctx.params@);
        let ghost target = infer_arms(t, ret_ty(*ctx), pe, local_env(locals@), vals);
        assert(vals.skip(0) =~= vals);
        let n = arms.len();
        let mut rest = arms;
        let mut out: Vec<SwitchArm> = Vec::new();
        let mut i: usize = 0;
        while i < n
            invariant
                i <= n,
                n == vals.len(),
                vals == arms@,
                out@.len() == i,
                rest@ == vals.skip(i as int),
                t == start.table(),
                start == *old(self),
                start.steps(*self),
                ctx_wf(t, *ctx),
                locals_wf(t, locals@),
                ps == param_ids(ctx.params@),
                ls == local_ids(locals@),
                ls == local_ids(old(locals)@),
                forall|j: int| 0 <= j < vals.len() ==> arm_wf(t, ps, ls, #[trigger] vals[j]),
                self.errors().len() == start.errors().len() ==> forall|j: int| 0 <= j < i ==> arm_fine(t, ret_ty(*ctx), #[trigger] out@[j]),
                pe == param_env(ctx.params@),
                target == infer_arms(t, ret_ty(*ctx), pe, local_env(old(locals)@), vals),
                target is Some ==> self.errors().len() == start.errors().len(),
                target is Some ==> infer_arms(t, ret_ty(*ctx), pe, local_env(locals@), vals.skip(i as int)) == target,
                forall|j: int| 0 <= j < i ==> annotated(vals[j].value, (#[trigger] out@[j]).value) && blocks_annotated(t, vals[j].body@, out@[j].body@),
            decreases n - i,
        {
            let arm = rest.remove(0);
            assert(arm == arms@[i as int]);
            assert(vals.skip(i as int)[0] == vals[i as int]);
            assert(vals.skip(i as int).drop_first() =~= vals.skip(i as int + 1));
            assert(rest@ =~= vals.skip(i as int + 1));
            let SwitchArm { value, body } = arm;
            let int_type = SlangType::Basic(BasicType::Int);
            let (v2, ok) = self.coerce(ctx, locals, &int_type, value);
            if !ok {
                out.push(SwitchArm { value: v2, body });
                let ghost o = out@;
                let ghost rs = rest@;
                out.append(&mut rest);
                proof {
                    assert(out@ == o + rs);
                    if self.errors().len() == start.errors().len() {
                        assert(has_undef(out@[i as int].value));
                        assert(exists|j: int| 0 <= j < out@.len() && has_undef(#[trigger] out@[j].value));
                    }
                    assert forall|j: int| 0 <= j < vals.len() implies annotated(vals[j].value, (#[trigger] out@[j]).value) && blocks_annotated(t, vals[j].body@, out@[j].body@) by {
                        if j == i {
                            lemma_blocks_annotated_refl(t, vals[j].body@);
                        } else if j > i {
                            assert(out@[j] == vals[j]);
                            lemma_annotated_refl(vals[j].value);
                            lemma_blocks_annotated_refl(t, vals[j].body@);
                        }
                    }
                }
                return (out, false);
            }
            let b2 = self.check_block(ctx, locals, body);
            out.push(SwitchArm { value: v2, body: b2 });
            i = i + 1;
        }
        proof {
            lemma_arms_fine(t, ret_ty(*ctx), out@);
            assert(vals.skip(n as int) =~= Seq::<SwitchArm>::empty());
        }
        (out, true)
    }

    /// Type check a switch: the value and the arm values are `int`.
    fn check_switch(&mut self, ctx: &FnContext, locals: &mut Vec<LocalVariable>, s: Statement) -> (r: (Statement, bool))
        requires
            old(self).inv(),
            s.kind is Switch,
            swf(old(self).table(), param_ids(ctx.params@), local_ids(old(locals)@), s),
            ctx_wf(old(self).table(), *ctx),
            locals_wf(old(self).table(), old(locals)@),
        ensures
            old(self).stmt_checked(*final(self), *ctx, old(locals)@, final(locals)@, r.0, r.1),
            infer_stmt(old(self).table(), ret_ty(*ctx), param_env(ctx.params@), local_env(old(locals)@), s) matches Some(le2) ==> r.1
                && final(self).errors().len() == old(self).errors().len() && local_env(final(locals)@) == le2,
            stmt_annotated(old(self).table(), s, r.0),
        decreases s, 0nat,
    {
        proof {
            lemma_stmt_annotated_refl(self.table(), s);
        }
        let Statement { location, kind } = s;
        match kind {
            StatementKind::Switch(SwitchStatement { value, arms, default }) => {
                let int_type = SlangType::Basic(BasicType::Int);
                let (v2, ok) = self.coerce(ctx, locals, &int_type, value);
                if !ok {
                    return (Statement { location, kind: StatementKind::Switch(SwitchStatement { value: v2, arms, default }) }, false);
                }
                let (arms2, ok2) = self.check_switch_arms(ctx, locals, arms);
                if !ok2 {
                    return (
                        Statement { location, kind: StatementKind::Switch(SwitchStatement { value: v2, arms: arms2, default }) },
                        false,
                    );
                }
                let d2 = self.check_block(ctx, locals, default);
                (Statement { location, kind: StatementKind::Switch(SwitchStatement { value: v2, arms: arms2, default: d2 }) }, true)
            },
            other => (Statement { location, kind: other }, true),
        }
    }
}


fn copy_parameter(p: &Parameter) -> (r: Parameter)
    ensures
        r.name.id == p.name.id,
        r.typ.ty() == p.typ.ty(),
{
    Parameter { location: p.location, name: p.name.copy(), typ: p.typ.copy() }
}

impl TypeChecker {
    /// Type check the initial value of a field.
    fn check_field(&mut self, f: FieldDef) -> (r: FieldDef)
        requires
            old(self).inv(),
            field_wf(old(self).table(), f),
        ensures
            old(self).steps(*final(self)),
            field_wf(old(self).table(), r),
            final(self).errors().len() == old(self).errors().len() ==> field_fine(old(self).table(), r),
            field_clean(old(self).table(), f) ==> final(self).errors().len() == old(self).errors().len(),
            r.name == f.name,
            r.typ == f.typ,
            field_annotated(f, r),
    {
        let FieldDef { location, name, index, typ, value } = f;
        match value {
            Some(v) => {
                let ctx = FnContext { params: Vec::new(), return_type: None };
                let locals: Vec<LocalVariable> = Vec::new();
                assert(param_ids(ctx.params@) =~= Seq::<usize>::empty());
                assert(local_ids(locals@) =~= Seq::<usize>::empty());
                assert(param_env(ctx.params@) =~= Seq::<(usize, Ty)>::empty());
                assert(local_env(locals@) =~= Seq::<(usize, Ty)>::empty());
                let (v2, _ok) = self.check_expression(&ctx, &locals, v);
                FieldDef { location, name, index, typ, value: Some(v2) }
            },
            None => FieldDef { location, name, index, typ, value: None },
        }
    }

    /// Type check the initial values of the fields.
    fn check_fields(&mut self, fields: Vec<FieldDef>) -> (r: Vec<FieldDef>)
        requires
            old(self).inv(),
            forall|i: int| 0 <= i < fields@.len() ==> field_wf(old(self).table(), #[trigger] fields@[i]),
        ensures
            old(self).steps(*final(self)),
            r@.len() == fields@.len(),
            forall|i: int| 0 <= i < r@.len() ==> field_wf(old(self).table(), #[trigger] r@[i]),
            forall|i: int| 0 <= i < r@.len() ==> (#[trigger] r@[i]).name == fields@[i].name && r@[i].typ == fields@[i].typ,
            final(self).errors().len() == old(self).errors().len() ==> forall|i: int| 0 <= i < r@.len() ==> field_fine(old(self).table(), #[trigger] r@[i]),
            (forall|i: int| 0 <= i < fields@.len() ==> field_clean(old(self).table(), #[trigger] fields@[i])) ==> final(self).errors().len() == old(self).errors().len(),
            forall|i: int| 0 <= i < fields@.len() ==> field_annotated(fields@[i], #[trigger] r@[i]),
    {
        let ghost t = self.table();
        let ghost start = *self;
        let ghost vals = fields@;
        let ghost clean = forall|i: int| 0 <= i < fields@.len() ==> field_clean(t, #[trigger] fields@[i]);
        let n = fields.len();
        let mut rest = fields;
        let mut out: Vec<FieldDef> = Vec::new();
        let mut i: usize = 0;
        while i < n
            invariant
                i <= n,
                n == vals.len(),
                out@.len() == i,
                rest@ == vals.skip(i as int),
                t == start.table(),
                start == *old(self),
                start.steps(*self),
                forall|j: int| 0 <= j < vals.len() ==> field_wf(t, #[trigger] vals[j]),
                forall|j: int| 0 <= j < i ==> field_wf(t, #[trigger] out@[j]),
                forall|j: int| 0 <= j < i ==> (#[trigger] out@[j]).name == vals[j].name && out@[j].typ == vals[j].typ,
                self.errors().len() == start.errors().len() ==> forall|j: int| 0 <= j < i ==> field_fine(t, #[trigger] out@[j]),
                clean == forall|j: int| 0 <= j < vals.len() ==> field_clean(t, #[trigger] vals[j]),
                clean ==> self.errors().len() == start.errors().len(),
                forall|j: int| 0 <= j < i ==> field_annotated(vals[j], #[trigger] out@[j]),
            decreases n - i,
        {
            let f = rest.remove(0);
            assert(f == vals[i as int]);
            assert(rest@ =~= vals.skip(i as int + 1));
            let f2 = self.check_field(f);
            out.push(f2);
            i = i + 1;
        }
        out
    }

    /// Type check the body of a function; a method's object parameter gets the class type.
    fn check_function(&mut self, f: FunctionDef, this_type: Option<SlangType>) -> (r: FunctionDef)
        requires
            old(self).inv(),
            fn_wf(old(self).table(), f),
            this_type matches Some(t) ==> ty_wf(old(self).table(), t.ty()),
        ensures
            old(self).steps(*final(self)),
            final(self).errors().len() == old(self).errors().len() ==> fn_fine(old(self).table(), r),
            r.name == f.name,
            r.signature == f.signature,
            r.body@.len() == f.body@.len(),
            (r.this_param is Some) == (f.this_param is Some),
            this_type is Some && r.this_param is Some ==> r.this_param->0.typ.ty() == this_type->0.ty(),
            fn_clean(old(self).table(), f, match this_type {
                Some(tt) => Some(tt.ty()),
                None => None,
            }) ==> final(self).errors().len() == old(self).errors().len(),
            fn_annotated(old(self).table(), f, r),
    {
        let ghost t = self.table();
        let ghost f0 = f;
        let ghost this0 = if this_type is Some {
            Some(this_type->0.ty())
        } else {
            None::<Ty>
        };
        let FunctionDef { name, location, signature, this_param, locals, body } = f;
        let mut locals = locals;
        let this_param = match this_param {
            Some(p) => match this_type {
                Some(tt) => Some(Parameter { location: p.location, name: p.name, typ: tt }),
                None => Some(p),
            },
            None => None,
        };
        let mut params: Vec<Parameter> = Vec::new();
        let mut i: usize = 0;
        while i < signature.parameters.len()
            invariant
                i <= signature.parameters@.len(),
                params@.len() == i,
                forall|j: int| 0 <= j < signature.parameters@.len() ==> ty_wf(t, (#[trigger] signature.parameters@[j]).typ.ty()),
                forall|j: int| 0 <= j < i ==> (#[trigger] params@[j]).name.id == signature.parameters@[j].name.id,
                forall|j: int| 0 <= j < i ==> (#[trigger] params@[j]).typ.ty() == signature.parameters@[j].typ.ty(),
                forall|j: int| 0 <= j < i ==> ty_wf(t, (#[trigger] params@[j]).typ.ty()),
            decreases signature.parameters@.len() - i,
        {
            params.push(copy_parameter(&signature.parameters[i]));
            i = i + 1;
        }
        match &this_param {
            Some(p) => params.push(copy_parameter(p)),
            None => {},
        }
        let return_type = match &signature.return_type {
            Some(rt) => Some(rt.copy()),
            None => None,
        };
        let ctx = FnContext { params, return_type };
        let ghost g = FunctionDef { name, location, signature, this_param, locals, body };
        proof {
            assert(param_ids(ctx.params@) =~= param_ids(fn_params(g)));
            assert(param_ids(fn_params(g)) =~= param_ids(fn_params(f0)));
            assert(param_env(ctx.params@) =~= fn_env(f0, this0));
            assert forall|j: int| 0 <= j < ctx.params@.len() implies ty_wf(t, (#[trigger] ctx.params@[j]).typ.ty()) by {
                if j < signature.parameters@.len() {
                } else {
                }
            }
        }
        let body = self.check_block(&ctx, &mut locals, body);
        FunctionDef { name, location, signature, this_param, locals, body }
    }
}


impl TypeChecker {
    /// Type check the methods of a class, whose objects have type `class_type`.
    fn check_methods(&mut self, methods: Vec<FunctionDef>, class_type: &SlangType) -> (r: Vec<FunctionDef>)
        requires
            old(self).inv(),
            ty_wf(old(self).table(), class_type.ty()),
            forall|i: int| 0 <= i < methods@.len() ==> fn_wf(old(self).table(), #[trigger] methods@[i]),
        ensures
            old(self).steps(*final(self)),
            r@.len() == methods@.len(),
            forall|i: int| 0 <= i < r@.len() ==> (#[trigger] r@[i]).name == methods@[i].name && r@[i].signature == methods@[i].signature,
            final(self).errors().len() == old(self).errors().len() ==> forall|i: int| 0 <= i < r@.len() ==> fn_fine(old(self).table(), #[trigger] r@[i]),
            (forall|i: int| 0 <= i < methods@.len() ==> fn_clean(old(self).table(), #[trigger] methods@[i], Some(class_type.ty())))
                ==> final(self).errors().len() == old(self).errors().len(),
            forall|i: int| 0 <= i < methods@.len() ==> fn_annotated(old(self).table(), methods@[i], #[trigger] r@[i]),
    {
        let ghost t = self.table();
        let ghost start = *self;
        let ghost vals = methods@;
        let ghost clean = forall|i: int| 0 <= i < methods@.len() ==> fn_clean(t, #[trigger] methods@[i], Some(class_type.ty()));
        let n = methods.len();
        let mut rest = methods;
        let mut out: Vec<FunctionDef> = Vec::new();
        let mut i: usize = 0;
        while i < n
            invariant
                i <= n,
                n == vals.len(),
                out@.len() == i,
                rest@ == vals.skip(i as int),
                t == start.table(),
                start == *old(self),
                start.steps(*self),
                ty_wf(t, class_type.ty()),
                forall|j: int| 0 <= j < vals.len() ==> fn_wf(t, #[trigger] vals[j]),
                forall|j: int| 0 <= j < i ==> (#[trigger] out@[j]).name == vals[j].name && out@[j].signature == vals[j].signature,
                self.errors().len() == start.errors().len() ==> forall|j: int| 0 <= j < i ==> fn_fine(t, #[trigger] out@[j]),
                clean == forall|j: int| 0 <= j < vals.len() ==> fn_clean(t, #[trigger] vals[j], Some(class_type.ty())),
                clean ==> self.errors().len() == start.errors().len(),
                forall|j: int| 0 <= j < i ==> fn_annotated(t, vals[j], #[trigger] out@[j]),
            decreases n - i,
        {
            let m = rest.remove(0);
            assert(m == vals[i as int]);
            assert(rest@ =~= vals.skip(i as int + 1));
            let m2 = self.check_function(m, Some(class_type.copy()));
            out.push(m2);
            i = i + 1;
        }
        out
    }

    /// Type check one definition.
    fn check_definition(&mut self, d: Definition) -> (r: Definition)
        requires
            old(self).inv(),
            def_wf(old(self).table(), d),
        ensures
            old(self).steps(*final(self)),
            final(self).errors().len() == old(self).errors().len() ==> def_fine(old(self).table(), r),
            def_clean(old(self).table(), d) ==> final(self).errors().len() == old(self).errors().len(),
            def_annotated(old(self).table(), d, r),
    {
        match d {
            Definition::Class(c) => {
                let ClassDef { location, name, type_parameters, fields, methods } = c;
                let fields = self.check_fields(fields);
                let no_args: Vec<SlangType> = Vec::new();
                assert(tys(no_args@) =~= Seq::<Ty>::empty());
                let class_type = SlangType::User(UserType::Class(ClassType { class_id: name.id, type_arguments: no_args }));
                let methods = self.check_methods(methods, &class_type);
                Definition::Class(ClassDef { location, name, type_parameters, fields, methods })
            },
            Definition::Struct(sd) => {
                let StructDef { location, name, type_parameters, fields } = sd;
                let fields = self.check_fields(fields);
                Definition::Struct(StructDef { location, name, type_parameters, fields })
            },
            Definition::Union(sd) => {
                let StructDef { location, name, type_parameters, fields } = sd;
                let fields = self.check_fields(fields);
                Definition::Union(StructDef { location, name, type_parameters, fields })
            },
            Definition::Enum(n) => Definition::Enum(n),
            Definition::Function(f) => Definition::Function(self.check_function(f, None)),
        }
    }

    /// Type check every definition of the program.
    fn check_program(&mut self, program: &mut Program)
        requires
            old(self).inv(),
            forall|i: int| 0 <= i < old(program).definitions@.len() ==> def_wf(old(self).table(), #[trigger] old(program).definitions@[i]),
        ensures
            old(self).steps(*final(self)),
            final(program).name == old(program).name,
            final(program).path == old(program).path,
            final(program).definitions@.len() == old(program).definitions@.len(),
            final(self).errors().len() == old(self).errors().len() ==> prog_fine(old(self).table(), final(program).definitions@),
            (forall|i: int| 0 <= i < old(program).definitions@.len() ==> def_clean(old(self).table(), #[trigger] old(program).definitions@[i]))
                ==> final(self).errors().len() == old(self).errors().len(),
            forall|i: int| 0 <= i < old(program).definitions@.len() ==> def_annotated(old(self).table(), old(program).definitions@[i], #[trigger] final(program).definitions@[i]),
    {
        let ghost t = self.table();
        let ghost start = *self;
        let ghost clean = forall|i: int| 0 <= i < program.definitions@.len() ==> def_clean(t, #[trigger] program.definitions@[i]);
        let mut defs: Vec<Definition> = Vec::new();
        std::mem::swap(&mut defs, &mut program.definitions);
        let ghost vals = defs@;
        let n = defs.len();
        let mut rest = defs;
        let mut out: Vec<Definition> = Vec::new();
        let mut i: usize = 0;
        while i < n
            invariant
                i <= n,
                n == vals.len(),
                out@.len() == i,
                rest@ == vals.skip(i as int),
                t == start.table(),
                start == *old(self),
                start.steps(*self),
                forall|j: int| 0 <= j < vals.len() ==> def_wf(t, #[trigger] vals[j]),
                self.errors().len() == start.errors().len() ==> forall|j: int| 0 <= j < i ==> def_fine(t, #[trigger] out@[j]),
                clean == forall|j: int| 0 <= j < vals.len() ==> def_clean(t, #[trigger] vals[j]),
                clean ==> self.errors().len() == start.errors().len(),
                forall|j: int| 0 <= j < i ==> def_annotated(t, vals[j], #[trigger] out@[j]),
            decreases n - i,
        {
            let d = rest.remove(0);
            assert(d == vals[i as int]);
            assert(rest@ =~= vals.skip(i as int + 1));
            let d2 = self.check_definition(d);
            out.push(d2);
            i = i + 1;
        }
        program.definitions = out;
    }
}

/// Check the given program for type correctness: give every expression its
/// type, convert `int` operands to `float` where arithmetic or a wanted type
/// asks for it, resolve the variants that case arms name, and report every
/// place where types do not fit. Nothing else of the program changes.
pub fn check_types(program: &mut Program) -> (r: Result<(), CompilationError>)
    requires
        prog_wf(old(program).definitions@),
    ensures
        final(program).name == old(program).name,
        final(program).path == old(program).path,
        final(program).definitions@.len() == old(program).definitions@.len(),
        forall|i: int| 0 <= i < old(program).definitions@.len() ==> def_annotated(
            def_infos(old(program).definitions@),
            old(program).definitions@[i],
            #[trigger] final(program).definitions@[i],
        ),
        r is Ok ==> prog_fine(def_infos(old(program).definitions@), final(program).definitions@),
        prog_clean(old(program).definitions@) ==> r is Ok,
        r matches Err(e) ==> e matches CompilationError::MultiError(es) && es@.len() > 0 && forall|i: int|
            0 <= i < es@.len() ==> at_path(#[trigger] es@[i], old(program).path@),
{
    let tab = type_table(&program.definitions);
    let mut checker = TypeChecker { diagnostics: Diagnostics::new(program.path.as_str()), tab };
    proof {
        assert(checker.inv());
    }
    checker.check_program(program);
    checker.diagnostics.value_or_error(())
}


/// The position of the first variant named `name`.
fn find_variant(vs: &Vec<(String, Vec<SlangType>)>, name: &str) -> (r: Option<usize>)
    ensures
        match r {
            Some(j) => j < vs@.len() && first_variant(variant_tys(vs@), name@) == Some(j as int),
            None => first_variant(variant_tys(vs@), name@) is None,
        },
{
    let ghost s = variant_tys(vs@);
    let mut i: usize = 0;
    assert(s.skip(0) =~= s);
    while i < vs.len()
        invariant
            i <= vs@.len(),
            s == variant_tys(vs@),
            s.len() == vs@.len(),
            first_variant(s, name@) == match first_variant(s.skip(i as int), name@) {
                Some(k) => Some(k + i),
                None => None::<int>,
            },
        decreases vs@.len() - i,
    {
        assert(s.skip(i as int).drop_first() =~= s.skip(i as int + 1));
        assert(s[i as int].0 == vs@[i as int].0@);
        if crate::text::str_eq(vs[i].0.as_str(), name) {
            return Some(i);
        }
        i = i + 1;
    }
    None
}

/// A character as `{:?}` writes it inside a quoted text.
pub open spec fn escaped_char(c: char) -> Seq<char> {
    if c == '"' {
        "\\\""@
    } else if c == '\\' {
        "\\\\"@
    } else if c == '\n' {
        "\\n"@
    } else if c == '\r' {
        "\\r"@
    } else if c == '\t' {
        "\\t"@
    } else if c == '\0' {
        "\\0"@
    } else {
        seq![c]
    }
}

/// The characters of a text, each escaped.
pub open spec fn escaped_chars(s: Seq<char>) -> Seq<char>
    decreases s.len(),
{
    if s.len() == 0 {
        Seq::empty()
    } else {
        escaped_chars(s.drop_last()) + escaped_char(s.last())
    }
}

/// A text as `{:?}` writes it: in double quotes, with quotes, backslashes and
/// the common control characters escaped.
pub open spec fn debug_text(s: Seq<char>) -> Seq<char> {
    "\""@ + escaped_chars(s) + "\""@
}

/// Appends a text as `{:?}` writes it: in double quotes, with quotes,
/// backslashes and the common control characters escaped.
pub(crate) fn push_debug_str(out: &mut String, text: &str)
    ensures
        final(out)@ == old(out)@ + debug_text(text@),
{
    out.append("\"");
    let ghost head = out@;
    let n = text.unicode_len();
    let mut i: usize = 0;
    while i < n
        invariant
            n == text@.len(),
            i <= n,
            head == old(out)@ + "\""@,
            out@ == head + escaped_chars(text@.take(i as int)),
        decreases n - i,
    {
        let c = text.get_char(i);
        let ghost before = out@;
        proof {
            let tk = text@.take(i as int + 1);
            assert(tk.drop_last() =~= text@.take(i as int));
            assert(tk.last() == c);
        }
        if c == '"' {
            out.append("\\\"");
        } else if c == '\\' {
            out.append("\\\\");
        } else if c == '\n' {
            out.append("\\n");
        } else if c == '\r' {
            out.append("\\r");
        } else if c == '\t' {
            out.append("\\t");
        } else if c == '\0' {
            out.append("\\0");
        } else {
            crate::text::push_char(out, c);
            assert(before.push(c) =~= before + seq![c]);
        }
        assert(out@ =~= head + escaped_chars(text@.take(i as int + 1)));
        i = i + 1;
    }
    assert(text@.take(n as int) =~= text@);
    out.append("\"");
    assert(out@ =~= old(out)@ + debug_text(text@));
}

impl TypeChecker {
    /// Type check the arms of a case statement on a value of enum type `et`;
    /// also give, for each variant, whether some arm names it.
    fn check_case_arms(&mut self, ctx: &FnContext, locals: &mut Vec<LocalVariable>, et: &EnumType, arms: Vec<CaseArm>) -> (r: (
        Vec<CaseArm>,
        Vec<bool>,
    ))
        requires
            old(self).inv(),
            ty_wf(old(self).table(), enum_ty(*et)),
            case_arms_wf(old(self).table(), param_ids(ctx.params@), local_ids(old(locals)@), arms@),
            ctx_wf(old(self).table(), *ctx),
            locals_wf(old(self).table(), old(locals)@),
        ensures
            old(self).steps(*final(self)),
            local_ids(final(locals)@) == local_ids(old(locals)@),
            locals_wf(old(self).table(), final(locals)@),
            r.0@.len() == arms@.len(),
            r.1@.len() == variant_count(old(self).table(), enum_ty(*et)),
            forall|v: int| 0 <= v < r.1@.len() ==> r.1@[v] == has_arm_for(r.0@, v),
            final(self).errors().len() == old(self).errors().len() ==> case_arms_fine(old(self).table(), ret_ty(*ctx), enum_ty(*et), r.0@),
            final(self).errors().len() == old(self).errors().len() ==> forall|j: int, k: int|
                0 <= j < k < r.0@.len() ==> (#[trigger] r.0@[j]).variant != (#[trigger] r.0@[k]).variant,
            infer_case_arms(old(self).table(), ret_ty(*ctx), param_env(ctx.params@), local_env(old(locals)@), enum_ty(*et), arms@, Set::empty())
                matches Some(le2) ==> final(self).errors().len() == old(self).errors().len() && local_env(final(locals)@) == le2
                && forall|v: int| 0 <= v < r.1@.len() ==> r.1@[v],
            forall|q: int| 0 <= q < arms@.len() ==> {
                &&& (#[trigger] r.0@[q]).location == arms@[q].location
                &&& r.0@[q].local_ids == arms@[q].local_ids
                &&& variant_resolved(old(self).table(), enum_ty(*et), arms@[q].variant, r.0@[q].variant)
                &&& variant_resolves(old(self).table(), enum_ty(*et), arms@[q].variant, r.0@[q].variant)
                &&& blocks_annotated(old(self).table(), arms@[q].body@, r.0@[q].body@)
            },
            forall|q: int| 0 <= q < arms@.len() ==> #[trigger] final(self).arm_reported(old(self).table(), enum_ty(*et), arms@, r.0@, q),
        decreases arms, 2nat,
    {
        let ghost t = self.table();
        let ghost ps = param_ids(ctx.params@);
        let ghost ls = local_ids(locals@);
        let ghost pe = param_env(ctx.params@);
        let ghost vt = enum_ty(*et);
        let ghost start = *self;
        proof {
            lemma_case_arms_wf(t, ps, ls, arms@);
            lemma_find_info(t, et.enum_id as nat);
        }
        let k = find_entry(&self.tab, et.enum_id).unwrap();
        assert(t[k as int] == self.tab@[k as int].info());
        let ghost d = t[k as int];
        let nv = self.tab[k].variants.len();
        let mut seen: Vec<bool> = Vec::new();
        let mut i: usize = 0;
        while i < nv
            invariant
                i <= nv,
                seen@.len() == i,
                forall|v: int| 0 <= v < i ==> !seen@[v],
            decreases nv - i,
        {
            seen.push(false);
            i = i + 1;
        }
        let ghost vals = arms@;
        let ghost target = infer_case_arms(t, ret_ty(*ctx), pe, local_env(locals@), vt, vals, Set::empty());
        assert(vals.skip(0) =~= vals);
        assert(Set::new(|v: int| 0 <= v < nv && seen@[v]) =~= Set::<int>::empty());
        let n = arms.len();
        let mut rest = arms;
        let mut out: Vec<CaseArm> = Vec::new();
        let mut i: usize = 0;
        while i < n
            invariant
                i <= n,
                n == vals.len(),
                vals == arms@,
                out@.len() == i,
                rest@ == vals.skip(i as int),
                t == start.table(),
                start == *old(self),
                start.steps(*self),
                ctx_wf(t, *ctx),
                locals_wf(t, locals@),
                ps == param_ids(ctx.params@),
                pe == param_env(ctx.params@),
                ls == local_ids(locals@),
                ls == local_ids(old(locals)@),
                vt == enum_ty(*et),
                ty_wf(t, vt),
                k < self.tab@.len(),
                d == t[k as int],
                d == infos(self.tab@)[k as int],
                info_of(t, et.enum_id as nat, DefKind::Enum) == Some(d),
                nv == d.variants.len(),
                nv == variant_count(t, vt),
                seen@.len() == nv,
                forall|j: int| 0 <= j < vals.len() ==> case_arm_wf(t, ps, ls, #[trigger] vals[j]),
                forall|v: int| 0 <= v < nv ==> seen@[v] == has_arm_for(out@, v),
                self.errors().len() == start.errors().len() ==> forall|j: int| 0 <= j < i ==> case_arm_fine(t, ret_ty(*ctx), vt, #[trigger] out@[j]),
                self.errors().len() == start.errors().len() ==> forall|j: int, m: int|
                    0 <= j < m < i ==> (#[trigger] out@[j]).variant != (#[trigger] out@[m]).variant,
                target == infer_case_arms(t, ret_ty(*ctx), pe, local_env(old(locals)@), vt, vals, Set::empty()),
                target is Some ==> self.errors().len() == start.errors().len(),
                target is Some ==> infer_case_arms(t, ret_ty(*ctx), pe, local_env(locals@), vt, vals.skip(i as int), Set::new(|v: int| 0 <= v < nv && seen@[v])) == target,
                forall|q: int| 0 <= q < i ==> {
                    &&& (#[trigger] out@[q]).location == vals[q].location
                    &&& out@[q].local_ids == vals[q].local_ids
                    &&& variant_resolved(t, vt, vals[q].variant, out@[q].variant)
                    &&& variant_resolves(t, vt, vals[q].variant, out@[q].variant)
                    &&& blocks_annotated(t, vals[q].body@, out@[q].body@)
                },
                forall|q: int| 0 <= q < i ==> #[trigger] self.arm_reported(t, vt, vals, out@, q),
            decreases n - i,
        {
            let arm = rest.remove(0);
            assert(arm == arms@[i as int]);
            assert(vals.skip(i as int)[0] == vals[i as int]);
            assert(vals.skip(i as int).drop_first() =~= vals.skip(i as int + 1));
            assert(rest@ =~= vals.skip(i as int + 1));
            let ghost seen_set = Set::new(|v: int| 0 <= v < nv && seen@[v]);
            let CaseArm { location: al, variant, local_ids: ids, body } = arm;
            let ghost st0 = *self;
            let ghost o0 = out@;
            proof {
                assert(case_arm_wf(t, ps, ls, vals[i as int]));
                assert(d.variants == variant_tys(self.tab@[k as int].variants@));
                assert(variant_names(t, et.enum_id as nat) == d.variants.map_values(|v: (Seq<char>, Seq<Ty>)| v.0));
            }
            let idx = match &variant {
                VariantRef::Name(name) => find_variant(&self.tab[k].variants, name.as_str()),
                VariantRef::Variant(v) => Some(*v),
            };
            match idx {
                None => {
                    let mut m = message("Enum has no variant named: ");
                    match &variant {
                        VariantRef::Name(name) => m.append(name.as_str()),
                        VariantRef::Variant(_) => {},
                    }
                    let ghost msg = m@;
                    self.error(al, m);
                    proof {
                        assert(self.errors()[self.errors().len() - 1] matches CompilationError::SingleError {
                            location: l,
                            message: mm,
                            ..
                        } && l == al && mm@ == msg);
                        assert(self.has_error(al, msg));
                    }
                    let ghost o = out@;
                    let ghost new_arm = CaseArm { location: al, variant, local_ids: ids, body };
                    proof {
                        lemma_blocks_annotated_refl(t, body@);
                    }
                    out.push(CaseArm { location: al, variant, local_ids: ids, body });
                    proof {
                        assert(out@ == o.push(new_arm));
                        assert(vals[i as int].variant == variant);
                        assert(vals[i as int].location == al);
                        assert(self.arm_reported(t, vt, vals, out@, i as int));
                        assert forall|w: int| 0 <= w < nv implies seen@[w] == has_arm_for(out@, w) by {
                            if has_arm_for(out@, w) {
                                let j = choose|j: int| 0 <= j < out@.len() && (#[trigger] out@[j]).variant == VariantRef::Variant(w as usize);
                                assert(j < o.len());
                                assert(o[j] == out@[j]);
                                assert(has_arm_for(o, w));
                            }
                            if has_arm_for(o, w) {
                                let j = choose|j: int| 0 <= j < o.len() && (#[trigger] o[j]).variant == VariantRef::Variant(w as usize);
                                assert(out@[j] == o[j]);
                            }
                        }
                    }
                },
                Some(v) => {
                    proof {
                        assert(d.variants == variant_tys(self.tab@[k as int].variants@));
                    }
                    let ghost o = out@;
                    let ghost env0 = local_env(locals@);
                    if seen[v] {
                        let mut m = message("Duplicate field: ");
                        m.append(self.tab[k].variants[v].0.as_str());
                        let ghost msg = m@;
                        self.error(al, m);
                        proof {
                            assert(self.errors()[self.errors().len() - 1] matches CompilationError::SingleError {
                                location: l,
                                message: mm,
                                ..
                            } && l == al && mm@ == msg);
                            assert(self.has_error(al, msg));
                        }
                        let ghost new_arm = CaseArm { location: al, variant: VariantRef::Variant(v), local_ids: ids, body };
                        proof {
                            lemma_blocks_annotated_refl(t, body@);
                        }
                        out.push(CaseArm { location: al, variant: VariantRef::Variant(v), local_ids: ids, body });
                        proof {
                            assert(out@ == o.push(new_arm));
                            assert(vals[i as int].variant == variant);
                            assert(vals[i as int].location == al);
                            assert(out@.take(i as int) =~= o);
                            assert(has_arm_for(o, v as int));
                            assert(variant_names(t, et.enum_id as nat)[v as int] == self.tab@[k as int].variants@[v as int].0@);
                            assert(self.arm_reported(t, vt, vals, out@, i as int));
                            assert forall|w: int| 0 <= w < nv implies seen@[w] == has_arm_for(out@, w) by {
                                if has_arm_for(out@, w) {
                                    let j = choose|j: int| 0 <= j < out@.len() && (#[trigger] out@[j]).variant == VariantRef::Variant(w as usize);
                                    if j < o.len() {
                                        assert(o[j] == out@[j]);
                                        assert(has_arm_for(o, w));
                                    }
                                }
                                if has_arm_for(o, w) {
                                    let j = choose|j: int| 0 <= j < o.len() && (#[trigger] o[j]).variant == VariantRef::Variant(w as usize);
                                    assert(out@[j] == o[j]);
                                }
                            }
                            assert(seen_set.contains(v as int));
                        }
                    } else {
                        let ghost seen0 = seen@;
                        seen.set(v, true);
                        proof {
                            assert(Set::new(|w: int| 0 <= w < nv && seen@[w]) =~= seen_set.insert(v as int));
                        }
                        let data = enum_variant_types(&self.tab, et, v);
                        proof {
                            lemma_tys(data@);
                        }
                        let data_ok = data.len() == ids.len();
                        let ghost gmsg = "Got "@ + nat_text(ids@.len() as nat) + " constructor arguments, but expected "@ + nat_text(
                            data@.len() as nat,
                        );
                        if data_ok {
                            let mut j: usize = 0;
                            assert(ids@.take(0) =~= Seq::<usize>::empty());
                            while j < data.len()
                                invariant
                                    j <= data@.len(),
                                    data@.len() == ids@.len(),
                                    tys(data@).len() == data@.len(),
                                    forall|q: int| 0 <= q < data@.len() ==> #[trigger] tys(data@)[q] == data@[q].ty(),
                                    local_ids(locals@) == ls,
                                    locals_wf(t, locals@),
                                    forall|q: int| 0 <= q < data@.len() ==> ty_wf(t, (#[trigger] data@[q]).ty()),
                                    forall|q: int| 0 <= q < ids@.len() ==> has_local(ls, #[trigger] ids@[q]),
                                    local_env(locals@) == set_envs(env0, ids@.take(j as int), tys(data@)),
                                decreases data@.len() - j,
                            {
                                let ghost before = locals@;
                                set_local_type(locals, ids[j], data[j].copy());
                                proof {
                                    assert forall|q: int| 0 <= q < locals@.len() implies ty_wf(t, (#[trigger] locals@[q]).typ.ty()) by {
                                        assert(local_ids(locals@)[q] == local_ids(before)[q]);
                                        assert(ty_wf(t, before[q].typ.ty()));
                                    }
                                    assert(ids@.take(j as int + 1).drop_last() =~= ids@.take(j as int));
                                    assert(ids@.take(j as int + 1).last() == ids@[j as int]);
                                }
                                j = j + 1;
                            }
                            assert(ids@.take(j as int) =~= ids@);
                        } else {
                            let mut m = message("Got ");
                            crate::text::push_u64(&mut m, ids.len() as u64);
                            m.append(" constructor arguments, but expected ");
                            crate::text::push_u64(&mut m, data.len() as u64);
                            let ghost msg = m@;
                            self.error(al, m);
                            proof {
                                assert(self.errors()[self.errors().len() - 1] matches CompilationError::SingleError {
                                    location: l,
                                    message: mm,
                                    ..
                                } && l == al && mm@ == msg);
                                assert(self.has_error(al, msg));
                            }
                        }
                        let ghost errs_before_body = self.errors().len();
                        let ghost st_mid = *self;
                        proof {
                            if !data_ok {
                                assert(self.has_error(al, gmsg));
                            }
                        }
                        let body2 = self.check_block(ctx, locals, body);
                        proof {
                            if !data_ok {
                                st_mid.lemma_has_error_stays(*self, al, gmsg);
                            }
                        }
                        let ghost new_arm = CaseArm { location: al, variant: VariantRef::Variant(v), local_ids: ids, body: body2 };
                        out.push(CaseArm { location: al, variant: VariantRef::Variant(v), local_ids: ids, body: body2 });
                        proof {
                            assert(out@ == o.push(new_arm));
                            assert(vals[i as int].variant == variant);
                            assert(vals[i as int].location == al);
                            assert(vals[i as int].local_ids == ids);
                            assert(out@.take(i as int) =~= o);
                            assert(!has_arm_for(o, v as int));
                            assert(variant_data_tys(t, vt, v as int) == tys(data@));
                            assert(self.arm_reported(t, vt, vals, out@, i as int));
                            assert forall|w: int| 0 <= w < nv implies seen@[w] == has_arm_for(out@, w) by {
                                if has_arm_for(out@, w) {
                                    let j = choose|j: int| 0 <= j < out@.len() && (#[trigger] out@[j]).variant == VariantRef::Variant(w as usize);
                                    if j < o.len() {
                                        assert(o[j] == out@[j]);
                                        assert(has_arm_for(o, w));
                                    }
                                }
                                if has_arm_for(o, w) {
                                    let j = choose|j: int| 0 <= j < o.len() && (#[trigger] o[j]).variant == VariantRef::Variant(w as usize);
                                    assert(out@[j] == o[j]);
                                }
                                if w == v {
                                    assert(out@[i as int] == new_arm);
                                }
                            }
                            assert(variant_data_tys(t, vt, v as int) == tys(data@));
                            if self.errors().len() == start.errors().len() {
                                assert(case_arm_fine(t, ret_ty(*ctx), vt, new_arm));
                                assert forall|q: int, m: int| 0 <= q < m < i + 1 implies (#[trigger] out@[q]).variant != (#[trigger] out@[m]).variant by {
                                    if m == i {
                                        assert(out@[q] == o[q]);
                                        if out@[q].variant == VariantRef::Variant(v) {
                                            assert(has_arm_for(o, v as int));
                                        }
                                    } else {
                                        assert(out@[q] == o[q]);
                                        assert(out@[m] == o[m]);
                                    }
                                }
                            }
                        }
                    }
                },
            }
            proof {
                assert(st0.steps(*self));
                assert(self.arm_reported(t, vt, vals, out@, i as int));
                assert forall|q: int| 0 <= q < i implies #[trigger] self.arm_reported(t, vt, vals, out@, q) by {
                    assert(out@.take(q) =~= o0.take(q));
                    st0.lemma_arm_reported_stays(*self, t, vt, vals, o0, out@, q);
                }
                assert(out@.take(i as int) =~= o0);
            }
            i = i + 1;
        }
        proof {
            lemma_case_arms_fine(t, ret_ty(*ctx), vt, out@);
            assert(vals.skip(n as int) =~= Seq::<CaseArm>::empty());
            if target is Some {
                let ss = Set::new(|v: int| 0 <= v < nv && seen@[v]);
                assert(infer_case_arms(t, ret_ty(*ctx), pe, local_env(locals@), vt, Seq::<CaseArm>::empty(), ss) is Some);
                assert forall|v: int| 0 <= v < seen@.len() implies seen@[v] by {
                    assert(ss.contains(v));
                }
            }
        }
        (out, seen)
    }
}


impl TypeChecker {
    /// Type check a case statement: the value must be of an enum type; each
    /// arm names one of its variants, none twice, with a local for each part
    /// of the payload; every variant needs an arm.
    fn check_case(&mut self, ctx: &FnContext, locals: &mut Vec<LocalVariable>, s: Statement) -> (r: (Statement, bool))
        requires
            old(self).inv(),
            s.kind is Case,
            swf(old(self).table(), param_ids(ctx.params@), local_ids(old(locals)@), s),
            ctx_wf(old(self).table(), *ctx),
            locals_wf(old(self).table(), old(locals)@),
        ensures
            old(self).stmt_checked(*final(self), *ctx, old(locals)@, final(locals)@, r.0, r.1),
            infer_stmt(old(self).table(), ret_ty(*ctx), param_env(ctx.params@), local_env(old(locals)@), s) matches Some(le2) ==> r.1
                && final(self).errors().len() == old(self).errors().len() && local_env(final(locals)@) == le2,
            stmt_annotated(old(self).table(), s, r.0),
            old(self).case_reports(*final(self), *ctx, old(locals)@, s, r.0, r.1),
        decreases s, 0nat,
    {
        proof {
            lemma_stmt_annotated_refl(self.table(), s);
        }
        let ghost t = self.table();
        let Statement { location, kind } = s;
        match kind {
            StatementKind::Case(CaseStatement { value, arms }) => {
                let (v2, ok) = self.check_expression(ctx, locals, value);
                if !ok {
                    return (Statement { location, kind: StatementKind::Case(CaseStatement { value: v2, arms }) }, false);
                }
                let et = match &v2.typ {
                    SlangType::User(UserType::Enum(e)) => Some(
                        EnumType { enum_id: e.enum_id, type_arguments: copy_types(&e.type_arguments) },
                    ),
                    _ => None,
                };
                match et {
                    None => {
                        let mut m = message("Expected enum type, not ");
                        let txt = self.text(&v2.typ);
                        m.append(txt.as_str());
                        self.error(v2.location, m);
                        (Statement { location, kind: StatementKind::Case(CaseStatement { value: v2, arms }) }, false)
                    },
                    Some(et) => {
                        assert(enum_ty(et) == v2.typ.ty());
                        let (arms2, seen) = self.check_case_arms(ctx, locals, &et, arms);
                        let k = find_entry(&self.tab, et.enum_id).unwrap();
                        let mut missed = String::new();
                        let mut any_missed = false;
                        let mut v: usize = 0;
                        let nv = seen.len();
                        while v < nv
                            invariant
                                v <= nv,
                                nv == seen@.len(),
                                k < self.tab@.len(),
                                any_missed <==> exists|w: int| 0 <= w < v && !seen@[w],
                                nv == variant_count(t, enum_ty(et)),
                                nv == self.tab@[k as int].variants@.len(),
                                forall|w: int| 0 <= w < nv ==> #[trigger] seen@[w] == has_arm_for(arms2@, w),
                                forall|w: int| 0 <= w < nv ==> #[trigger] variant_names(t, et.enum_id as nat)[w]
                                    == self.tab@[k as int].variants@[w].0@,
                                missed@ == missed_variants(variant_names(t, et.enum_id as nat), arms2@, v as int),
                            decreases nv - v,
                        {
                            let ghost names = variant_names(t, et.enum_id as nat);
                            let ghost before = missed@;
                            proof {
                                if !any_missed {
                                    assert forall|w: int| 0 <= w < v implies #[trigger] has_arm_for(arms2@, w) by {
                                        assert(seen@[w]);
                                    }
                                } else {
                                    let w = choose|w: int| 0 <= w < v && !seen@[w];
                                    assert(!has_arm_for(arms2@, w));
                                }
                            }
                            if !seen[v] {
                                assert(!has_arm_for(arms2@, v as int));
                                assert(names[v as int] == self.tab@[k as int].variants@[v as int].0@);
                                let ghost was_missed = any_missed;
                                if any_missed {
                                    missed.append(", ");
                                }
                                if v < self.tab[k].variants.len() {
                                    push_debug_str(&mut missed, self.tab[k].variants[v].0.as_str());
                                }
                                any_missed = true;
                                proof {
                                    if was_missed {
                                        assert(!(forall|w: int| 0 <= w < v ==> #[trigger] has_arm_for(arms2@, w)));
                                        assert(missed@ =~= before + ", "@ + debug_text(names[v as int]));
                                    } else {
                                        assert(missed@ =~= before + debug_text(names[v as int]));
                                        assert(before.len() == 0) by {
                                            assert(missed_variants(names, arms2@, v as int) =~= Seq::<char>::empty()) by {
                                                lemma_missed_none(names, arms2@, v as int);
                                            }
                                        }
                                    }
                                }
                                assert(missed@ =~= missed_variants(names, arms2@, v + 1));
                            } else {
                                assert(has_arm_for(arms2@, v as int));
                            }
                            v = v + 1;
                        }
                        let ghost st_arms = *self;
                        if any_missed {
                            let mut m = message("Enum case '[");
                            m.append(missed.as_str());
                            m.append("]' not covered");
                            self.error(location, m);
                        }
                        proof {
                            assert forall|q: int| 0 <= q < arms2@.len() implies #[trigger] self.arm_reported(
                                t,
                                enum_ty(et),
                                arms@,
                                arms2@,
                                q,
                            ) by {
                                st_arms.lemma_arm_reported_stays(*self, t, enum_ty(et), arms@, arms2@, arms2@, q);
                            }
                        }
                        proof {
                            if !any_missed {
                                assert forall|w: int| 0 <= w < variant_count(t, v2.typ.ty()) implies #[trigger] has_arm_for(arms2@, w) by {
                                    assert(seen@[w]);
                                }
                            }
                        }
                        (Statement { location, kind: StatementKind::Case(CaseStatement { value: v2, arms: arms2 }) }, true)
                    },
                }
            },
            other => (Statement { location, kind: other }, true),
        }
    }
}

} // verus!
