use compiler2::location::Location;
use compiler2::semantics::phase5_desugar::desugar;
use compiler2::tast::{
    BasicType, Definition, Expression, ExpressionKind, FunctionDef, FunctionSignature, IfStatement, Literal, NameNodeId,
    Program, SlangType, Statement, StatementKind, Symbol,
};

fn loc() -> Location {
    Location::new(1, 1)
}

fn int_lit(v: i64) -> Expression {
    Expression { location: loc(), kind: ExpressionKind::Literal(Literal::Integer(v)), typ: SlangType::Basic(BasicType::Int) }
}

fn local(id: usize) -> Expression {
    Expression { location: loc(), kind: ExpressionKind::LoadSymbol(Symbol::LocalVariable(id)), typ: SlangType::Undefined }
}

fn stmt(kind: StatementKind) -> Statement {
    Statement { location: loc(), kind }
}

fn program(body: Vec<Statement>) -> Program {
    let f = FunctionDef {
        name: NameNodeId { name: "f".to_string(), id: 1 },
        location: loc(),
        signature: FunctionSignature { parameters: vec![], return_type: None },
        this_param: None,
        locals: vec![],
        body,
    };
    Program { name: "m".to_string(), path: "m.slang".to_string(), definitions: vec![Definition::Function(f)] }
}

fn body(p: &Program) -> &Vec<Statement> {
    match &p.definitions[0] {
        Definition::Function(f) => &f.body,
        _ => panic!("expected a function"),
    }
}

#[test]
fn let_becomes_store_local() {
    let mut p = program(vec![stmt(StatementKind::Let { local_id: 5, type_hint: None, value: int_lit(1) })]);
    desugar(&mut p);
    match &body(&p)[0].kind {
        StatementKind::StoreLocal { local_id, value } => {
            assert_eq!(*local_id, 5);
            assert!(matches!(value.kind, ExpressionKind::Literal(Literal::Integer(1))));
        },
        _ => panic!("expected a store into a local"),
    }
}

#[test]
fn assignments_become_stores() {
    let attr = Expression {
        location: loc(),
        kind: ExpressionKind::GetAttr { base: Box::new(local(3)), attr: "x".to_string() },
        typ: SlangType::Undefined,
    };
    let index = Expression {
        location: loc(),
        kind: ExpressionKind::GetIndex { base: Box::new(local(3)), index: Box::new(int_lit(0)) },
        typ: SlangType::Undefined,
    };
    let inner = vec![
        stmt(StatementKind::Assignment { target: attr, value: int_lit(2) }),
        stmt(StatementKind::Assignment { target: index, value: int_lit(3) }),
        stmt(StatementKind::Assignment { target: local(4), value: int_lit(4) }),
    ];
    let cond = Expression { location: loc(), kind: ExpressionKind::Literal(Literal::Bool(true)), typ: SlangType::Basic(BasicType::Bool) };
    let mut p = program(vec![stmt(StatementKind::If(IfStatement { condition: cond, if_true: inner, if_false: None }))]);
    desugar(&mut p);
    match &body(&p)[0].kind {
        StatementKind::If(i) => {
            assert!(matches!(&i.if_true[0].kind, StatementKind::SetAttr { attr, .. } if attr == "x"));
            assert!(matches!(i.if_true[1].kind, StatementKind::SetIndex { .. }));
            assert!(matches!(i.if_true[2].kind, StatementKind::StoreLocal { local_id: 4, .. }));
        },
        _ => panic!("expected an if statement"),
    }
}
