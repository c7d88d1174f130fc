//! Lowering after type checking: a `let` becomes a store into its local, and
//! an assignment becomes a store into a local, an attribute or an array
//! element.

use crate::tast::{
    Block, CaseArm, ClassDef, CaseStatement, Definition, Expression, ExpressionKind, FunctionDef, IfStatement, Program, Statement,
    StatementKind, SwitchArm, SwitchStatement, Symbol, WhileStatement,
};
use vstd::prelude::*;

verus! {

/// The target of an assignment can be lowered: an attribute, an array
/// element or a local variable.
pub open spec fn target_ok(target: Expression) -> bool {
    ||| target.kind is GetAttr
    ||| target.kind is GetIndex
    ||| target.kind matches ExpressionKind::LoadSymbol(Symbol::LocalVariable(_))
}

/// Every assignment in the statement, at any depth, has a target that can be lowered.
pub open spec fn stmt_ok(s: Statement) -> bool
    decreases s,
{
    match s.kind {
        StatementKind::Assignment { target, .. } => target_ok(target),
        StatementKind::If(i) => block_ok(i.if_true@) && match i.if_false {
            Some(b) => block_ok(b@),
            None => true,
        },
        StatementKind::Loop { body } => block_ok(body@),
        StatementKind::Compound(body) => block_ok(body@),
        StatementKind::While(w) => block_ok(w.body@),
        StatementKind::For { body, .. } => block_ok(body@),
        StatementKind::Switch(sw) => arms_ok(sw.arms@) && block_ok(sw.default@),
        StatementKind::Case(cs) => case_arms_ok(cs.arms@),
        _ => true,
    }
}

pub open spec fn block_ok(b: Seq<Statement>) -> bool
    decreases b,
{
    if b.len() == 0 {
        true
    } else {
        stmt_ok(b[0]) && block_ok(b.drop_first())
    }
}

pub open spec fn arms_ok(arms: Seq<SwitchArm>) -> bool
    decreases arms,
{
    if arms.len() == 0 {
        true
    } else {
        block_ok(arms[0].body@) && arms_ok(arms.drop_first())
    }
}

pub open spec fn case_arms_ok(arms: Seq<CaseArm>) -> bool
    decreases arms,
{
    if arms.len() == 0 {
        true
    } else {
        block_ok(arms[0].body@) && case_arms_ok(arms.drop_first())
    }
}

/// `b` is the statement `a` lowered: a `let` became a store into its local,
/// an assignment a store into its target, every block inside was lowered, and
/// nothing else changed.
pub open spec fn lowered(a: Statement, b: Statement) -> bool
    decreases a,
{
    &&& b.location == a.location
    &&& match a.kind {
        StatementKind::Let { local_id, value, .. } => b.kind == StatementKind::StoreLocal { local_id, value },
        StatementKind::Assignment { target, value } => match target.kind {
            ExpressionKind::GetAttr { base, attr } => b.kind == StatementKind::SetAttr { base: *base, attr, value },
            ExpressionKind::GetIndex { base, index } => b.kind == StatementKind::SetIndex { base: *base, index: *index, value },
            ExpressionKind::LoadSymbol(Symbol::LocalVariable(id)) => b.kind == StatementKind::StoreLocal { local_id: id, value },
            _ => false,
        },
        StatementKind::If(i) => match b.kind {
            StatementKind::If(j) => {
                &&& j.condition == i.condition
                &&& blocks_lowered(i.if_true@, j.if_true@)
                &&& match (i.if_false, j.if_false) {
                    (Some(x), Some(y)) => blocks_lowered(x@, y@),
                    (None, None) => true,
                    _ => false,
                }
            },
            _ => false,
        },
        StatementKind::Loop { body } => b.kind matches StatementKind::Loop { body: c } && blocks_lowered(body@, c@),
        StatementKind::Compound(body) => b.kind matches StatementKind::Compound(c) && blocks_lowered(body@, c@),
        StatementKind::While(w) => match b.kind {
            StatementKind::While(v) => v.condition == w.condition && blocks_lowered(w.body@, v.body@),
            _ => false,
        },
        StatementKind::For { loop_var, iterable, body } => match b.kind {
            StatementKind::For { loop_var: l2, iterable: i2, body: b2 } => l2 == loop_var && i2 == iterable && blocks_lowered(
                body@,
                b2@,
            ),
            _ => false,
        },
        StatementKind::Switch(sw) => match b.kind {
            StatementKind::Switch(sv) => {
                &&& sv.value == sw.value
                &&& arms_lowered(sw.arms@, sv.arms@)
                &&& blocks_lowered(sw.default@, sv.default@)
            },
            _ => false,
        },
        StatementKind::Case(cs) => match b.kind {
            StatementKind::Case(cv) => cv.value == cs.value && case_arms_lowered(cs.arms@, cv.arms@),
            _ => false,
        },
        _ => b.kind == a.kind,
    }
}

/// Each statement of `b` is its counterpart of `a` lowered.
pub open spec fn blocks_lowered(a: Seq<Statement>, b: Seq<Statement>) -> bool
    decreases a,
{
    if a.len() == 0 {
        b.len() == 0
    } else {
        b.len() > 0 && lowered(a[0], b[0]) && blocks_lowered(a.drop_first(), b.drop_first())
    }
}

pub open spec fn arms_lowered(a: Seq<SwitchArm>, b: Seq<SwitchArm>) -> bool
    decreases a,
{
    if a.len() == 0 {
        b.len() == 0
    } else {
        &&& b.len() > 0
        &&& b[0].value == a[0].value
        &&& blocks_lowered(a[0].body@, b[0].body@)
        &&& arms_lowered(a.drop_first(), b.drop_first())
    }
}

pub open spec fn case_arms_lowered(a: Seq<CaseArm>, b: Seq<CaseArm>) -> bool
    decreases a,
{
    if a.len() == 0 {
        b.len() == 0
    } else {
        &&& b.len() > 0
        &&& b[0].location == a[0].location
        &&& b[0].variant == a[0].variant
        &&& b[0].local_ids == a[0].local_ids
        &&& blocks_lowered(a[0].body@, b[0].body@)
        &&& case_arms_lowered(a.drop_first(), b.drop_first())
    }
}

/// No `let` and no assignment is left in the statement, at any depth.
pub open spec fn sugar_free(s: Statement) -> bool
    decreases s,
{
    match s.kind {
        StatementKind::Let { .. } | StatementKind::Assignment { .. } => false,
        StatementKind::If(i) => sugar_free_block(i.if_true@) && match i.if_false {
            Some(b) => sugar_free_block(b@),
            None => true,
        },
        StatementKind::Loop { body } => sugar_free_block(body@),
        StatementKind::Compound(body) => sugar_free_block(body@),
        StatementKind::While(w) => sugar_free_block(w.body@),
        StatementKind::For { body, .. } => sugar_free_block(body@),
        StatementKind::Switch(sw) => sugar_free_arms(sw.arms@) && sugar_free_block(sw.default@),
        StatementKind::Case(cs) => sugar_free_case_arms(cs.arms@),
        _ => true,
    }
}

pub open spec fn sugar_free_block(b: Seq<Statement>) -> bool
    decreases b,
{
    if b.len() == 0 {
        true
    } else {
        sugar_free(b[0]) && sugar_free_block(b.drop_first())
    }
}

pub open spec fn sugar_free_arms(arms: Seq<SwitchArm>) -> bool
    decreases arms,
{
    if arms.len() == 0 {
        true
    } else {
        sugar_free_block(arms[0].body@) && sugar_free_arms(arms.drop_first())
    }
}

pub open spec fn sugar_free_case_arms(arms: Seq<CaseArm>) -> bool
    decreases arms,
{
    if arms.len() == 0 {
        true
    } else {
        sugar_free_block(arms[0].body@) && sugar_free_case_arms(arms.drop_first())
    }
}


/// Lower one statement, and the blocks inside it.
pub fn lower_statement(s: Statement) -> (r: Statement)
    requires
        stmt_ok(s),
    ensures
        lowered(s, r),
        sugar_free(r),
    decreases s,
{
    let Statement { location, kind } = s;
    let kind = match kind {
        StatementKind::Let { local_id, type_hint: _, value } => StatementKind::StoreLocal { local_id, value },
        StatementKind::Assignment { target, value } => {
            let Expression { location: _, kind: tk, typ: _ } = target;
            match tk {
                ExpressionKind::GetAttr { base, attr } => StatementKind::SetAttr { base: *base, attr, value },
                ExpressionKind::GetIndex { base, index } => StatementKind::SetIndex { base: *base, index: *index, value },
                ExpressionKind::LoadSymbol(Symbol::LocalVariable(id)) => StatementKind::StoreLocal { local_id: id, value },
                _ => StatementKind::Pass,
            }
        },
        StatementKind::If(IfStatement { condition, if_true, if_false }) => {
            let if_true = lower_block(if_true);
            let if_false = match if_false {
                Some(b) => Some(lower_block(b)),
                None => None,
            };
            StatementKind::If(IfStatement { condition, if_true, if_false })
        },
        StatementKind::Loop { body } => StatementKind::Loop { body: lower_block(body) },
        StatementKind::Compound(body) => StatementKind::Compound(lower_block(body)),
        StatementKind::While(WhileStatement { condition, body }) => {
            StatementKind::While(WhileStatement { condition, body: lower_block(body) })
        },
        StatementKind::For { loop_var, iterable, body } => StatementKind::For { loop_var, iterable, body: lower_block(body) },
        StatementKind::Switch(SwitchStatement { value, arms, default }) => {
            let arms = lower_arms(arms);
            let default = lower_block(default);
            StatementKind::Switch(SwitchStatement { value, arms, default })
        },
        StatementKind::Case(CaseStatement { value, arms }) => {
            StatementKind::Case(CaseStatement { value, arms: lower_case_arms(arms) })
        },
        other => other,
    };
    Statement { location, kind }
}

/// Lower each statement of a block.
pub fn lower_block(b: Block) -> (r: Block)
    requires
        block_ok(b@),
    ensures
        blocks_lowered(b@, r@),
        sugar_free_block(r@),
    decreases b,
{
    let ghost vals = b@;
    let n = b.len();
    let mut rest = b;
    let mut out: Vec<Statement> = Vec::new();
    let mut i: usize = 0;
    assert(vals.skip(0) =~= vals);
    while i < n
        invariant
            i <= n,
            n == vals.len(),
            vals == b@,
            out@.len() == i,
            rest@ == vals.skip(i as int),
            block_ok(vals.skip(i as int)),
            forall|j: int| 0 <= j < i ==> lowered(vals[j], #[trigger] out@[j]),
            forall|j: int| 0 <= j < i ==> sugar_free(#[trigger] out@[j]),
        decreases n - i,
    {
        let st = rest.remove(0);
        assert(st == b@[i as int]);
        assert(vals.skip(i as int)[0] == vals[i as int]);
        assert(vals.skip(i as int).drop_first() =~= vals.skip(i as int + 1));
        assert(rest@ =~= vals.skip(i as int + 1));
        out.push(lower_statement(st));
        i = i + 1;
    }
    proof {
        lemma_blocks_lowered(vals, out@);
    }
    out
}

/// Lower the bodies of the arms of a switch.
pub fn lower_arms(arms: Vec<SwitchArm>) -> (r: Vec<SwitchArm>)
    requires
        arms_ok(arms@),
    ensures
        arms_lowered(arms@, r@),
        sugar_free_arms(r@),
    decreases arms,
{
    let ghost vals = arms@;
    let n = arms.len();
    let mut rest = arms;
    let mut out: Vec<SwitchArm> = Vec::new();
    let mut i: usize = 0;
    assert(vals.skip(0) =~= vals);
    while i < n
        invariant
            i <= n,
            n == vals.len(),
            vals == arms@,
            out@.len() == i,
            rest@ == vals.skip(i as int),
            arms_ok(vals.skip(i as int)),
            forall|j: int| 0 <= j < i ==> (#[trigger] out@[j]).value == vals[j].value && blocks_lowered(vals[j].body@, out@[j].body@)
                && sugar_free_block(out@[j].body@),
        decreases n - i,
    {
        let arm = rest.remove(0);
        assert(arm == arms@[i as int]);
        assert(vals.skip(i as int)[0] == vals[i as int]);
        assert(vals.skip(i as int).drop_first() =~= vals.skip(i as int + 1));
        assert(rest@ =~= vals.skip(i as int + 1));
        let SwitchArm { value, body } = arm;
        out.push(SwitchArm { value, body: lower_block(body) });
        i = i + 1;
    }
    proof {
        lemma_arms_lowered(vals, out@);
    }
    out
}

/// Lower the bodies of the arms of a case statement.
pub fn lower_case_arms(arms: Vec<CaseArm>) -> (r: Vec<CaseArm>)
    requires
        case_arms_ok(arms@),
    ensures
        case_arms_lowered(arms@, r@),
        sugar_free_case_arms(r@),
    decreases arms,
{
    let ghost vals = arms@;
    let n = arms.len();
    let mut rest = arms;
    let mut out: Vec<CaseArm> = Vec::new();
    let mut i: usize = 0;
    assert(vals.skip(0) =~= vals);
    while i < n
        invariant
            i <= n,
            n == vals.len(),
            vals == arms@,
            out@.len() == i,
            rest@ == vals.skip(i as int),
            case_arms_ok(vals.skip(i as int)),
            forall|j: int| 0 <= j < i ==> (#[trigger] out@[j]).location == vals[j].location && out@[j].variant == vals[j].variant
                && out@[j].local_ids == vals[j].local_ids && blocks_lowered(vals[j].body@, out@[j].body@)
                && sugar_free_block(out@[j].body@),
        decreases n - i,
    {
        let arm = rest.remove(0);
        assert(arm == arms@[i as int]);
        assert(vals.skip(i as int)[0] == vals[i as int]);
        assert(vals.skip(i as int).drop_first() =~= vals.skip(i as int + 1));
        assert(rest@ =~= vals.skip(i as int + 1));
        let CaseArm { location, variant, local_ids, body } = arm;
        out.push(CaseArm { location, variant, local_ids, body: lower_block(body) });
        i = i + 1;
    }
    proof {
        lemma_case_arms_lowered(vals, out@);
    }
    out
}

pub proof fn lemma_blocks_lowered(a: Seq<Statement>, b: Seq<Statement>)
    requires
        a.len() == b.len(),
        forall|j: int| 0 <= j < a.len() ==> lowered(a[j], #[trigger] b[j]),
        forall|j: int| 0 <= j < b.len() ==> sugar_free(#[trigger] b[j]),
    ensures
        blocks_lowered(a, b),
        sugar_free_block(b),
    decreases a.len(),
{
    if a.len() > 0 {
        assert(lowered(a[0], b[0]));
        assert forall|j: int| 0 <= j < a.len() - 1 implies lowered(a.drop_first()[j], #[trigger] b.drop_first()[j]) by {
            assert(lowered(a[j + 1], b[j + 1]));
        }
        assert forall|j: int| 0 <= j < b.len() - 1 implies sugar_free(#[trigger] b.drop_first()[j]) by {
            assert(sugar_free(b[j + 1]));
        }
        lemma_blocks_lowered(a.drop_first(), b.drop_first());
    }
}

pub proof fn lemma_arms_lowered(a: Seq<SwitchArm>, b: Seq<SwitchArm>)
    requires
        a.len() == b.len(),
        forall|j: int| 0 <= j < b.len() ==> (#[trigger] b[j]).value == a[j].value && blocks_lowered(a[j].body@, b[j].body@)
            && sugar_free_block(b[j].body@),
    ensures
        arms_lowered(a, b),
        sugar_free_arms(b),
    decreases a.len(),
{
    if a.len() > 0 {
        assert(b[0].value == a[0].value);
        assert forall|j: int| 0 <= j < b.len() - 1 implies (#[trigger] b.drop_first()[j]).value == a.drop_first()[j].value
            && blocks_lowered(a.drop_first()[j].body@, b.drop_first()[j].body@) && sugar_free_block(b.drop_first()[j].body@) by {
            assert(b[j + 1].value == a[j + 1].value);
        }
        lemma_arms_lowered(a.drop_first(), b.drop_first());
    }
}

pub proof fn lemma_case_arms_lowered(a: Seq<CaseArm>, b: Seq<CaseArm>)
    requires
        a.len() == b.len(),
        forall|j: int| 0 <= j < b.len() ==> (#[trigger] b[j]).location == a[j].location && b[j].variant == a[j].variant
            && b[j].local_ids == a[j].local_ids && blocks_lowered(a[j].body@, b[j].body@) && sugar_free_block(b[j].body@),
    ensures
        case_arms_lowered(a, b),
        sugar_free_case_arms(b),
    decreases a.len(),
{
    if a.len() > 0 {
        assert(b[0].location == a[0].location);
        assert forall|j: int| 0 <= j < b.len() - 1 implies (#[trigger] b.drop_first()[j]).location == a.drop_first()[j].location
            && b.drop_first()[j].variant == a.drop_first()[j].variant && b.drop_first()[j].local_ids == a.drop_first()[j].local_ids
            && blocks_lowered(a.drop_first()[j].body@, b.drop_first()[j].body@) && sugar_free_block(b.drop_first()[j].body@) by {
            assert(b[j + 1].location == a[j + 1].location);
        }
        lemma_case_arms_lowered(a.drop_first(), b.drop_first());
    }
}


/// Every assignment in the body of the function can be lowered.
pub open spec fn fn_ok(f: FunctionDef) -> bool {
    block_ok(f.body@)
}

/// Every function and method of the definitions can be lowered.
pub open spec fn defs_ok(defs: Seq<Definition>) -> bool {
    forall|i: int| 0 <= i < defs.len() ==> match #[trigger] defs[i] {
        Definition::Function(f) => fn_ok(f),
        Definition::Class(c) => forall|j: int| 0 <= j < c.methods@.len() ==> fn_ok(#[trigger] c.methods@[j]),
        _ => true,
    }
}

/// `b` is the function `a` with its body lowered.
pub open spec fn fn_lowered(a: FunctionDef, b: FunctionDef) -> bool {
    &&& b.name == a.name
    &&& b.location == a.location
    &&& b.signature == a.signature
    &&& b.this_param == a.this_param
    &&& b.locals == a.locals
    &&& blocks_lowered(a.body@, b.body@)
    &&& sugar_free_block(b.body@)
}

/// `b` is the definition `a` with the bodies of its functions lowered.
pub open spec fn def_lowered(a: Definition, b: Definition) -> bool {
    match a {
        Definition::Function(f) => b matches Definition::Function(g) && fn_lowered(f, g),
        Definition::Class(c) => match b {
            Definition::Class(d) => {
                &&& d.location == c.location
                &&& d.name == c.name
                &&& d.type_parameters == c.type_parameters
                &&& d.fields == c.fields
                &&& d.methods@.len() == c.methods@.len()
                &&& forall|j: int| 0 <= j < c.methods@.len() ==> fn_lowered(c.methods@[j], #[trigger] d.methods@[j])
            },
            _ => false,
        },
        _ => b == a,
    }
}

fn lower_function(f: FunctionDef) -> (r: FunctionDef)
    requires
        fn_ok(f),
    ensures
        fn_lowered(f, r),
{
    let FunctionDef { name, location, signature, this_param, locals, body } = f;
    FunctionDef { name, location, signature, this_param, locals, body: lower_block(body) }
}

fn lower_definition(d: Definition) -> (r: Definition)
    requires
        defs_ok(seq![d]),
    ensures
        def_lowered(d, r),
{
    assert(seq![d][0] == d);
    match d {
        Definition::Function(f) => Definition::Function(lower_function(f)),
        Definition::Class(c) => {
            let ClassDef { location, name, type_parameters, fields, methods } = c;
            let ghost vals = methods@;
            let n = methods.len();
            let mut rest = methods;
            let mut out: Vec<FunctionDef> = Vec::new();
            let mut i: usize = 0;
            while i < n
                invariant
                    i <= n,
                    n == vals.len(),
                    out@.len() == i,
                    rest@ == vals.skip(i as int),
                    forall|j: int| 0 <= j < vals.len() ==> fn_ok(#[trigger] vals[j]),
                    forall|j: int| 0 <= j < i ==> fn_lowered(vals[j], #[trigger] out@[j]),
                decreases n - i,
            {
                let m = rest.remove(0);
                assert(m == vals[i as int]);
                assert(rest@ =~= vals.skip(i as int + 1));
                out.push(lower_function(m));
                i = i + 1;
            }
            Definition::Class(ClassDef { location, name, type_parameters, fields, methods: out })
        },
        other => other,
    }
}

/// Lower every function and method body of the program: afterwards no `let`
/// and no assignment is left in any of them.
pub fn desugar(program: &mut Program)
    requires
        defs_ok(old(program).definitions@),
    ensures
        final(program).name == old(program).name,
        final(program).path == old(program).path,
        final(program).definitions@.len() == old(program).definitions@.len(),
        forall|i: int| 0 <= i < old(program).definitions@.len() ==> def_lowered(
            old(program).definitions@[i],
            #[trigger] final(program).definitions@[i],
        ),
{
    let mut defs: Vec<Definition> = Vec::new();
    std::mem::swap(&mut defs, &mut program.definitions);
    let ghost vals = defs@;
    let n = defs.len();
    let mut rest = defs;
    let mut out: Vec<Definition> = Vec::new();
    let mut i: usize = 0;
    while i < n
        invariant
            i <= n,
            n == vals.len(),
            out@.len() == i,
            rest@ == vals.skip(i as int),
            defs_ok(vals),
            forall|j: int| 0 <= j < i ==> def_lowered(vals[j], #[trigger] out@[j]),
        decreases n - i,
    {
        let d = rest.remove(0);
        assert(d == vals[i as int]);
        assert(rest@ =~= vals.skip(i as int + 1));
        proof {
            assert(defs_ok(seq![d])) by {
                assert(seq![d][0] == vals[i as int]);
            }
        }
        out.push(lower_definition(d));
        i = i + 1;
    }
    program.definitions = out;
}

/// After lowering, no function or method body holds a `let` or an
/// assignment, at any depth.
pub proof fn lemma_desugared_is_sugar_free(a: Seq<Definition>, b: Seq<Definition>)
    requires
        a.len() == b.len(),
        forall|i: int| 0 <= i < a.len() ==> def_lowered(a[i], #[trigger] b[i]),
    ensures
        forall|i: int| 0 <= i < b.len() ==> match #[trigger] b[i] {
            Definition::Function(f) => sugar_free_block(f.body@),
            Definition::Class(c) => forall|j: int| 0 <= j < c.methods@.len() ==> sugar_free_block(#[trigger] c.methods@[j].body@),
            _ => true,
        },
{
    assert forall|i: int| 0 <= i < b.len() implies match #[trigger] b[i] {
        Definition::Function(f) => sugar_free_block(f.body@),
        Definition::Class(c) => forall|j: int| 0 <= j < c.methods@.len() ==> sugar_free_block(#[trigger] c.methods@[j].body@),
        _ => true,
    } by {
        assert(def_lowered(a[i], b[i]));
        match b[i] {
            Definition::Class(d) => {
                let c = a[i]->Class_0;
                assert forall|j: int| 0 <= j < d.methods@.len() implies sugar_free_block(#[trigger] d.methods@[j].body@) by {
                    assert(fn_lowered(c.methods@[j], d.methods@[j]));
                }
            },
            _ => {},
        }
    }
}

} // verus!
