use compiler2::errors::CompilationError;
use compiler2::location::Location;
use compiler2::semantics::pass3::pass3;
use compiler2::tast::{
    BasicType, ClassDef, Definition, Expression, ExpressionKind, FieldDef, FunctionDef, FunctionSignature, LabeledField, Literal,
    NameNodeId, Program, SlangType, Statement, StatementKind, StructDef, StructType, UserType,
};

fn loc(row: i32) -> Location {
    Location::new(row, 1)
}

fn int_t() -> SlangType {
    SlangType::Basic(BasicType::Int)
}

fn name(n: &str, id: usize) -> NameNodeId {
    NameNodeId { name: n.to_string(), id }
}

fn int_lit(v: i64) -> Expression {
    Expression { location: loc(1), kind: ExpressionKind::Literal(Literal::Integer(v)), typ: int_t() }
}

fn field(n: &str, index: usize, typ: SlangType) -> FieldDef {
    FieldDef { location: loc(1), name: n.to_string(), index, typ, value: None }
}

/// struct Point: x: int, y: int
fn point() -> Definition {
    Definition::Struct(StructDef {
        location: loc(1),
        name: name("Point", 2),
        type_parameters: vec![],
        fields: vec![field("x", 0, int_t()), field("y", 1, int_t())],
    })
}

fn point_t() -> SlangType {
    SlangType::User(UserType::Struct(StructType { struct_id: 2, type_arguments: vec![] }))
}

/// struct Line: a: Point, b: Point
fn line() -> Definition {
    Definition::Struct(StructDef {
        location: loc(1),
        name: name("Line", 3),
        type_parameters: vec![],
        fields: vec![field("a", 0, point_t()), field("b", 1, point_t())],
    })
}

fn line_t() -> SlangType {
    SlangType::User(UserType::Struct(StructType { struct_id: 3, type_arguments: vec![] }))
}

fn label(row: i32, n: &str, value: Expression) -> LabeledField {
    LabeledField { location: loc(row), name: n.to_string(), value: Box::new(value) }
}

fn init(row: i32, typ: SlangType, fields: Vec<LabeledField>) -> Expression {
    Expression { location: loc(row), kind: ExpressionKind::ObjectInitializer { typ, fields }, typ: SlangType::Undefined }
}

fn function(body: Vec<Statement>) -> FunctionDef {
    FunctionDef {
        name: name("f", 1),
        location: loc(1),
        signature: FunctionSignature { parameters: vec![], return_type: None },
        this_param: None,
        locals: vec![],
        body,
    }
}

fn ret(row: i32, value: Expression) -> Statement {
    Statement { location: loc(row), kind: StatementKind::Return { value: Some(value) } }
}

fn program(defs: Vec<Definition>) -> Program {
    Program { name: "m".to_string(), path: "m.slang".to_string(), definitions: defs }
}

fn messages(r: Result<(), CompilationError>) -> Vec<(i32, String)> {
    match r {
        Ok(()) => vec![],
        Err(CompilationError::MultiError(es)) => es
            .into_iter()
            .map(|e| match e {
                CompilationError::SingleError { path, location, message } => {
                    assert_eq!(path, "m.slang");
                    (location.row, message)
                },
                _ => panic!("expected an error at a location"),
            })
            .collect(),
        Err(_) => panic!("expected a collection of errors"),
    }
}

fn returned(p: &Program, def: usize) -> &Expression {
    match &p.definitions[def] {
        Definition::Function(f) => match &f.body[0].kind {
            StatementKind::Return { value: Some(v) } => v,
            _ => panic!("expected a return with a value"),
        },
        _ => panic!("expected a function"),
    }
}

fn int_value(e: &Expression) -> i64 {
    match &e.kind {
        ExpressionKind::Literal(Literal::Integer(v)) => *v,
        _ => panic!("expected an integer literal"),
    }
}

#[test]
fn initializer_becomes_tuple_in_field_order() {
    let e = init(2, point_t(), vec![label(2, "y", int_lit(20)), label(2, "x", int_lit(10))]);
    let mut p = program(vec![point(), Definition::Function(function(vec![ret(2, e)]))]);
    assert!(pass3(&mut p).is_ok());
    let e = returned(&p, 1);
    assert_eq!(e.location.row, 2);
    match &e.kind {
        ExpressionKind::TupleLiteral { typ, values } => {
            assert!(typ.is_struct());
            assert_eq!(values.len(), 2);
            assert_eq!(int_value(&values[0]), 10);
            assert_eq!(int_value(&values[1]), 20);
        },
        _ => panic!("expected a tuple literal"),
    }
}

#[test]
fn nested_initializers_are_all_converted() {
    let a = init(2, point_t(), vec![label(2, "x", int_lit(1)), label(2, "y", int_lit(2))]);
    let b = init(2, point_t(), vec![label(2, "y", int_lit(4)), label(2, "x", int_lit(3))]);
    let e = init(2, line_t(), vec![label(2, "b", b), label(2, "a", a)]);
    let mut p = program(vec![point(), line(), Definition::Function(function(vec![ret(2, e)]))]);
    assert!(pass3(&mut p).is_ok());
    match &returned(&p, 2).kind {
        ExpressionKind::TupleLiteral { values, .. } => {
            assert_eq!(values.len(), 2);
            let inner: Vec<Vec<i64>> = values
                .iter()
                .map(|v| match &v.kind {
                    ExpressionKind::TupleLiteral { values, .. } => values.iter().map(int_value).collect(),
                    _ => panic!("expected an inner tuple literal"),
                })
                .collect();
            assert_eq!(inner, vec![vec![1, 2], vec![3, 4]]);
        },
        _ => panic!("expected a tuple literal"),
    }
}

#[test]
fn missing_field_is_reported() {
    let e = init(3, point_t(), vec![label(3, "x", int_lit(1))]);
    let mut p = program(vec![point(), Definition::Function(function(vec![ret(3, e)]))]);
    assert_eq!(messages(pass3(&mut p)), vec![(3, "Missing field: y".to_string())]);
    match &returned(&p, 1).kind {
        ExpressionKind::ObjectInitializer { fields, .. } => assert!(fields.is_empty()),
        _ => panic!("a failed initializer stays an initializer"),
    }
}

#[test]
fn duplicate_field_is_superfluous() {
    let e = init(3, point_t(), vec![label(4, "x", int_lit(1)), label(5, "y", int_lit(2)), label(6, "x", int_lit(3))]);
    let mut p = program(vec![point(), Definition::Function(function(vec![ret(3, e)]))]);
    assert_eq!(messages(pass3(&mut p)), vec![(6, "Superfluous field: x".to_string())]);
}

#[test]
fn unknown_field_is_superfluous_and_missing_ones_are_reported() {
    let e = init(3, point_t(), vec![label(4, "z", int_lit(1))]);
    let mut p = program(vec![point(), Definition::Function(function(vec![ret(3, e)]))]);
    assert_eq!(
        messages(pass3(&mut p)),
        vec![
            (4, "Superfluous field: z".to_string()),
            (3, "Missing field: x".to_string()),
            (3, "Missing field: y".to_string()),
        ]
    );
}

#[test]
fn initializer_of_non_struct_type_is_reported() {
    let e = init(7, int_t(), vec![label(7, "x", int_lit(1))]);
    let mut p = program(vec![Definition::Function(function(vec![ret(7, e)]))]);
    assert_eq!(messages(pass3(&mut p)), vec![(7, "Must be struct type, not int".to_string())]);
}

#[test]
fn initializers_in_field_values_and_methods_are_converted() {
    let default = init(1, point_t(), vec![label(1, "y", int_lit(6)), label(1, "x", int_lit(5))]);
    let in_method = init(2, point_t(), vec![label(2, "x", int_lit(7)), label(2, "y", int_lit(8))]);
    let class = ClassDef {
        location: loc(1),
        name: name("Shape", 30),
        type_parameters: vec![],
        fields: vec![FieldDef { location: loc(1), name: "origin".to_string(), index: 0, typ: point_t(), value: Some(default) }],
        methods: vec![function(vec![ret(2, in_method)])],
    };
    let mut p = program(vec![point(), Definition::Class(class)]);
    assert!(pass3(&mut p).is_ok());
    match &p.definitions[1] {
        Definition::Class(c) => {
            match &c.fields[0].value.as_ref().unwrap().kind {
                ExpressionKind::TupleLiteral { values, .. } => {
                    assert_eq!(values.iter().map(int_value).collect::<Vec<_>>(), vec![5, 6])
                },
                _ => panic!("expected a tuple literal in the field value"),
            }
            match &c.methods[0].body[0].kind {
                StatementKind::Return { value: Some(v) } => assert!(matches!(v.kind, ExpressionKind::TupleLiteral { .. })),
                _ => panic!("expected a return"),
            }
        },
        _ => panic!("expected a class"),
    }
}

#[test]
fn program_without_initializers_is_unchanged() {
    let mut p = program(vec![point(), Definition::Function(function(vec![ret(1, int_lit(4))]))]);
    assert!(pass3(&mut p).is_ok());
    assert_eq!(int_value(returned(&p, 1)), 4);
    assert_eq!(p.definitions.len(), 2);
}

#[test]
fn value_of_wrong_type_is_reported() {
    let b = Expression { location: loc(4), kind: ExpressionKind::Literal(Literal::Bool(true)), typ: SlangType::Basic(BasicType::Bool) };
    let e = init(3, point_t(), vec![label(4, "x", b), label(5, "y", int_lit(2))]);
    let mut p = program(vec![point(), Definition::Function(function(vec![ret(3, e)]))]);
    assert_eq!(messages(pass3(&mut p)), vec![(4, "Wrong type for field: x, expected int".to_string())]);
}

#[test]
fn value_of_unknown_type_is_accepted() {
    let u = Expression { location: loc(4), kind: ExpressionKind::Literal(Literal::Bool(true)), typ: SlangType::Undefined };
    let e = init(3, point_t(), vec![label(4, "x", u), label(5, "y", int_lit(2))]);
    let mut p = program(vec![point(), Definition::Function(function(vec![ret(3, e)]))]);
    assert!(pass3(&mut p).is_ok());
}
