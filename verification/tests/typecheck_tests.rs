use compiler2::ast::{BinaryOperator, ComparisonOperator, LogicOperator, MathOperator};
use compiler2::errors::CompilationError;
use compiler2::location::Location;
use compiler2::semantics::typechecker::check_types;
use compiler2::tast::type_system::{replace_type_vars, type_table};
use compiler2::tast::type_text::type_text;
use compiler2::tast::{
    ArrayType, BasicType, CaseArm, CaseStatement, ClassDef, ClassType, Definition, EnumDef, EnumType, EnumVariant, VariantRef, Expression, ExpressionKind, FieldDef, FunctionDef,
    FunctionSignature, IfStatement, Literal, LocalVariable, NameNodeId, Parameter, Program, SlangType, Statement,
    StatementKind, StructDef, StructType, Symbol, UserType,
};

fn loc(row: i32) -> Location {
    Location::new(row, 1)
}

fn int_t() -> SlangType {
    SlangType::Basic(BasicType::Int)
}

fn float_t() -> SlangType {
    SlangType::Basic(BasicType::Float)
}

fn bool_t() -> SlangType {
    SlangType::Basic(BasicType::Bool)
}

fn name(n: &str, id: usize) -> NameNodeId {
    NameNodeId { name: n.to_string(), id }
}

fn untyped(kind: ExpressionKind) -> Expression {
    Expression { location: loc(1), kind, typ: SlangType::Undefined }
}

fn int_lit(v: i64) -> Expression {
    untyped(ExpressionKind::Literal(Literal::Integer(v)))
}

fn float_lit(v: f64) -> Expression {
    untyped(ExpressionKind::Literal(Literal::Float(v.to_bits())))
}

fn binop(lhs: Expression, op: BinaryOperator, rhs: Expression) -> Expression {
    untyped(ExpressionKind::Binop { lhs: Box::new(lhs), op, rhs: Box::new(rhs) })
}

fn stmt(row: i32, kind: StatementKind) -> Statement {
    Statement { location: loc(row), kind }
}

fn ret(row: i32, value: Expression) -> Statement {
    stmt(row, StatementKind::Return { value: Some(value) })
}

fn function(id: usize, params: Vec<Parameter>, ret: Option<SlangType>, locals: Vec<LocalVariable>, body: Vec<Statement>) -> FunctionDef {
    FunctionDef {
        name: name("f", id),
        location: loc(1),
        signature: FunctionSignature { parameters: params, return_type: ret },
        this_param: None,
        locals,
        body,
    }
}

fn program(defs: Vec<Definition>) -> Program {
    Program { name: "m".to_string(), path: "m.slang".to_string(), definitions: defs }
}

fn messages(r: Result<(), CompilationError>) -> Vec<(i32, String)> {
    match r {
        Ok(()) => vec![],
        Err(CompilationError::MultiError(es)) => es
            .into_iter()
            .map(|e| match e {
                CompilationError::SingleError { path, location, message } => {
                    assert_eq!(path, "m.slang");
                    (location.row, message)
                },
                _ => panic!("expected an error at a location"),
            })
            .collect(),
        Err(_) => panic!("expected a collection of errors"),
    }
}

fn body_of(p: &Program, i: usize) -> &Vec<Statement> {
    match &p.definitions[i] {
        Definition::Function(f) => &f.body,
        _ => panic!("expected a function"),
    }
}

fn returned(s: &Statement) -> &Expression {
    match &s.kind {
        StatementKind::Return { value: Some(v) } => v,
        _ => panic!("expected a return with a value"),
    }
}

#[test]
fn int_operand_is_converted_to_float() {
    let sum = binop(int_lit(1), BinaryOperator::Math(MathOperator::Add), float_lit(2.5));
    let mut p = program(vec![Definition::Function(function(1, vec![], Some(float_t()), vec![], vec![ret(2, sum)]))]);
    assert!(check_types(&mut p).is_ok());
    let e = returned(&body_of(&p, 0)[0]);
    assert!(e.typ.is_float());
    match &e.kind {
        ExpressionKind::Binop { lhs, rhs, .. } => {
            match &lhs.kind {
                ExpressionKind::TypeCast { to_type, value } => {
                    assert!(to_type.is_float());
                    assert!(value.typ.is_int());
                },
                _ => panic!("the int operand should be converted"),
            }
            assert!(lhs.typ.is_float());
            assert!(matches!(rhs.kind, ExpressionKind::Literal(_)));
            assert!(rhs.typ.is_float());
        },
        _ => panic!("expected a binary operation"),
    }
}

#[test]
fn division_of_ints_gives_float() {
    let q = binop(int_lit(7), BinaryOperator::Math(MathOperator::Div), int_lit(2));
    let mut p = program(vec![Definition::Function(function(1, vec![], Some(float_t()), vec![], vec![ret(2, q)]))]);
    assert!(check_types(&mut p).is_ok());
    let e = returned(&body_of(&p, 0)[0]);
    assert!(e.typ.is_float());
}

#[test]
fn return_of_wrong_type_is_reported() {
    let sum = binop(int_lit(1), BinaryOperator::Math(MathOperator::Add), float_lit(2.5));
    let mut p = program(vec![Definition::Function(function(1, vec![], Some(int_t()), vec![], vec![ret(3, sum)]))]);
    let r = check_types(&mut p);
    assert_eq!(messages(r), vec![(3, "Expected int, but got float".to_string())]);
}

#[test]
fn condition_must_be_bool() {
    let cond = int_lit(1);
    let if_stmt = stmt(4, StatementKind::If(IfStatement { condition: cond, if_true: vec![], if_false: None }));
    let mut p = program(vec![Definition::Function(function(1, vec![], None, vec![], vec![if_stmt]))]);
    assert_eq!(messages(check_types(&mut p)), vec![(1, "Expected bool, but got int".to_string())]);
}

#[test]
fn comparison_and_logic_give_bool() {
    let cmp = binop(int_lit(1), BinaryOperator::Comparison(ComparisonOperator::Lt), int_lit(2));
    let both = binop(cmp, BinaryOperator::Logic(LogicOperator::And), untyped(ExpressionKind::Literal(Literal::Bool(true))));
    let mut p = program(vec![Definition::Function(function(1, vec![], Some(bool_t()), vec![], vec![ret(2, both)]))]);
    assert!(check_types(&mut p).is_ok());
    assert!(matches!(returned(&body_of(&p, 0)[0]).typ, SlangType::Basic(BasicType::Bool)));
}

#[test]
fn comparison_of_different_types_is_reported() {
    let cmp = binop(int_lit(1), BinaryOperator::Comparison(ComparisonOperator::Equal), untyped(ExpressionKind::Literal(Literal::String("a".to_string()))));
    let mut p = program(vec![Definition::Function(function(1, vec![], None, vec![], vec![stmt(5, StatementKind::Expression(cmp))]))]);
    assert_eq!(messages(check_types(&mut p)), vec![(1, "Expected int, but got str".to_string())]);
}

fn callee(params: Vec<SlangType>, ret: Option<SlangType>) -> Expression {
    let parameters = params
        .into_iter()
        .enumerate()
        .map(|(i, t)| Parameter { location: loc(1), name: name("p", 100 + i), typ: t })
        .collect();
    let typ = SlangType::User(UserType::Function(Box::new(FunctionSignature { parameters, return_type: ret })));
    untyped(ExpressionKind::LoadSymbol(Symbol::Function { name: name("g", 50), typ }))
}

#[test]
fn call_with_wrong_number_of_arguments_is_reported() {
    let call = untyped(ExpressionKind::Call { callee: Box::new(callee(vec![int_t(), int_t()], None)), arguments: vec![int_lit(1)] });
    let mut p = program(vec![Definition::Function(function(1, vec![], None, vec![], vec![stmt(2, StatementKind::Expression(call))]))]);
    assert_eq!(messages(check_types(&mut p)), vec![(1, "Expected 2, but got 1 arguments ".to_string())]);
}

#[test]
fn call_gets_the_return_type_and_converts_arguments() {
    let call = untyped(ExpressionKind::Call { callee: Box::new(callee(vec![float_t()], Some(bool_t()))), arguments: vec![int_lit(3)] });
    let mut p = program(vec![Definition::Function(function(1, vec![], Some(bool_t()), vec![], vec![ret(2, call)]))]);
    assert!(check_types(&mut p).is_ok());
    let e = returned(&body_of(&p, 0)[0]);
    assert!(matches!(e.typ, SlangType::Basic(BasicType::Bool)));
    match &e.kind {
        ExpressionKind::Call { arguments, .. } => {
            assert!(arguments[0].typ.is_float());
            assert!(matches!(arguments[0].kind, ExpressionKind::TypeCast { .. }));
        },
        _ => panic!("expected a call"),
    }
}

#[test]
fn call_of_non_function_is_reported() {
    let call = untyped(ExpressionKind::Call { callee: Box::new(int_lit(1)), arguments: vec![] });
    let mut p = program(vec![Definition::Function(function(1, vec![], None, vec![], vec![stmt(2, StatementKind::Expression(call))]))]);
    assert_eq!(messages(check_types(&mut p)), vec![(1, "Cannot call: int ".to_string())]);
}

#[test]
fn let_gives_the_local_its_type() {
    let local = LocalVariable { location: loc(1), mutable: false, name: name("x", 9), typ: SlangType::Undefined };
    let let_x = stmt(2, StatementKind::Let { local_id: 9, type_hint: None, value: float_lit(1.5) });
    let load = untyped(ExpressionKind::LoadSymbol(Symbol::LocalVariable(9)));
    let mut p = program(vec![Definition::Function(function(1, vec![], Some(float_t()), vec![local], vec![let_x, ret(3, load)]))]);
    assert!(check_types(&mut p).is_ok());
    match &p.definitions[0] {
        Definition::Function(f) => {
            assert!(f.locals[0].typ.is_float());
            assert!(returned(&f.body[1]).typ.is_float());
        },
        _ => panic!("expected a function"),
    }
}

#[test]
fn let_with_hint_converts_the_value() {
    let local = LocalVariable { location: loc(1), mutable: true, name: name("x", 9), typ: SlangType::Undefined };
    let let_x = stmt(2, StatementKind::Let { local_id: 9, type_hint: Some(float_t()), value: int_lit(2) });
    let mut p = program(vec![Definition::Function(function(1, vec![], None, vec![local], vec![let_x]))]);
    assert!(check_types(&mut p).is_ok());
    match &p.definitions[0] {
        Definition::Function(f) => assert!(f.locals[0].typ.is_float()),
        _ => panic!("expected a function"),
    }
}

#[test]
fn returns_are_held_to_the_signature() {
    let nothing = stmt(2, StatementKind::Return { value: None });
    let something = stmt(3, StatementKind::Return { value: Some(int_lit(1)) });
    let mut p = program(vec![
        Definition::Function(function(1, vec![], Some(int_t()), vec![], vec![nothing])),
        Definition::Function(function(2, vec![], None, vec![], vec![something])),
    ]);
    assert_eq!(
        messages(check_types(&mut p)),
        vec![(2, "Return nothing, but expected: int".to_string()), (3, "Function does not return anything".to_string())]
    );
}

#[test]
fn loop_over_non_array_is_reported() {
    let local = LocalVariable { location: loc(1), mutable: false, name: name("i", 9), typ: SlangType::Undefined };
    let for_stmt = stmt(6, StatementKind::For { loop_var: 9, iterable: int_lit(3), body: vec![] });
    let mut p = program(vec![Definition::Function(function(1, vec![], None, vec![local], vec![for_stmt]))]);
    assert_eq!(messages(check_types(&mut p)), vec![(6, "Cannot loop over int".to_string())]);
}

#[test]
fn list_literal_takes_the_first_element_type() {
    let list = untyped(ExpressionKind::ListLiteral(vec![float_lit(1.0), int_lit(2)]));
    let local = LocalVariable { location: loc(1), mutable: false, name: name("x", 9), typ: SlangType::Undefined };
    let for_stmt = stmt(2, StatementKind::For { loop_var: 9, iterable: list, body: vec![] });
    let mut p = program(vec![Definition::Function(function(1, vec![], None, vec![local], vec![for_stmt]))]);
    assert!(check_types(&mut p).is_ok());
    match &p.definitions[0] {
        Definition::Function(f) => {
            assert!(f.locals[0].typ.is_float());
            match &f.body[0].kind {
                StatementKind::For { iterable, .. } => match &iterable.typ {
                    SlangType::Array(a) => {
                        assert_eq!(a.size, 2);
                        assert!(a.element_type.is_float());
                    },
                    _ => panic!("expected an array type"),
                },
                _ => panic!("expected a for loop"),
            }
        },
        _ => panic!("expected a function"),
    }
}

#[test]
fn list_of_mixed_values_is_reported() {
    let list = untyped(ExpressionKind::ListLiteral(vec![int_lit(1), float_lit(2.0)]));
    let mut p = program(vec![Definition::Function(function(1, vec![], None, vec![], vec![stmt(2, StatementKind::Expression(list))]))]);
    assert_eq!(messages(check_types(&mut p)), vec![(1, "Expected int, but got float".to_string())]);
}

fn pair_struct() -> StructDef {
    // struct Pair[T]: first: T, count: int
    StructDef {
        location: loc(1),
        name: name("Pair", 4),
        type_parameters: vec![name("T", 5)],
        fields: vec![
            FieldDef { location: loc(1), name: "first".to_string(), index: 0, typ: SlangType::TypeVar(name("T", 5)), value: None },
            FieldDef { location: loc(1), name: "count".to_string(), index: 1, typ: int_t(), value: None },
        ],
    }
}

fn pair_of(t: SlangType) -> SlangType {
    SlangType::User(UserType::Struct(StructType { struct_id: 4, type_arguments: vec![t] }))
}

#[test]
fn attribute_of_generic_struct_gets_the_type_argument() {
    let param = Parameter { location: loc(1), name: name("p", 7), typ: pair_of(bool_t()) };
    let base = untyped(ExpressionKind::LoadSymbol(Symbol::Parameter(7)));
    let attr = untyped(ExpressionKind::GetAttr { base: Box::new(base), attr: "first".to_string() });
    let mut p = program(vec![
        Definition::Struct(pair_struct()),
        Definition::Function(function(1, vec![param], Some(bool_t()), vec![], vec![ret(2, attr)])),
    ]);
    assert!(check_types(&mut p).is_ok());
    assert!(matches!(returned(&body_of(&p, 1)[0]).typ, SlangType::Basic(BasicType::Bool)));
}

#[test]
fn missing_attribute_is_reported_with_the_type_text() {
    let param = Parameter { location: loc(1), name: name("p", 7), typ: pair_of(bool_t()) };
    let base = untyped(ExpressionKind::LoadSymbol(Symbol::Parameter(7)));
    let attr = untyped(ExpressionKind::GetAttr { base: Box::new(base), attr: "second".to_string() });
    let mut p = program(vec![
        Definition::Struct(pair_struct()),
        Definition::Function(function(1, vec![param], None, vec![], vec![stmt(2, StatementKind::Expression(attr))])),
    ]);
    assert_eq!(
        messages(check_types(&mut p)),
        vec![(1, "Type 'struct-Pair(id=4)[T(id=5)=bool]' has no attribute 'second'".to_string())]
    );
}

#[test]
fn tuple_literal_values_fit_the_fields() {
    let tuple = untyped(ExpressionKind::TupleLiteral { typ: pair_of(float_t()), values: vec![int_lit(1), int_lit(2)] });
    let mut p = program(vec![
        Definition::Struct(pair_struct()),
        Definition::Function(function(1, vec![], Some(pair_of(float_t())), vec![], vec![ret(2, tuple)])),
    ]);
    assert!(check_types(&mut p).is_ok());
    match &returned(&body_of(&p, 1)[0]).kind {
        ExpressionKind::TupleLiteral { values, .. } => {
            assert!(values[0].typ.is_float());
            assert!(values[1].typ.is_int());
        },
        _ => panic!("expected a tuple literal"),
    }
}

#[test]
fn indexing_a_non_array_is_reported() {
    let index = untyped(ExpressionKind::GetIndex { base: Box::new(int_lit(1)), index: Box::new(int_lit(0)) });
    let mut p = program(vec![Definition::Function(function(1, vec![], None, vec![], vec![stmt(2, StatementKind::Expression(index))]))]);
    assert_eq!(messages(check_types(&mut p)), vec![(1, "Cannot array-index non-array 'int' type.".to_string())]);
}

#[test]
fn loading_a_module_is_reported() {
    let load = untyped(ExpressionKind::LoadSymbol(Symbol::Module));
    let mut p = program(vec![Definition::Function(function(1, vec![], None, vec![], vec![stmt(2, StatementKind::Expression(load))]))]);
    assert_eq!(messages(check_types(&mut p)), vec![(1, "cannot load module".to_string())]);
}

#[test]
fn method_object_gets_the_class_type() {
    let this = Parameter { location: loc(1), name: name("this", 30), typ: SlangType::Undefined };
    let method = FunctionDef {
        name: name("get", 31),
        location: loc(1),
        signature: FunctionSignature { parameters: vec![], return_type: Some(int_t()) },
        this_param: Some(this),
        locals: vec![],
        body: vec![ret(
            2,
            untyped(ExpressionKind::GetAttr {
                base: Box::new(untyped(ExpressionKind::LoadSymbol(Symbol::Parameter(30)))),
                attr: "n".to_string(),
            }),
        )],
    };
    let class = ClassDef {
        location: loc(1),
        name: name("Counter", 20),
        type_parameters: vec![],
        fields: vec![FieldDef { location: loc(1), name: "n".to_string(), index: 0, typ: int_t(), value: Some(int_lit(0)) }],
        methods: vec![method],
    };
    let mut p = program(vec![Definition::Class(class)]);
    assert!(check_types(&mut p).is_ok());
    match &p.definitions[0] {
        Definition::Class(c) => {
            let this = c.methods[0].this_param.as_ref().unwrap();
            assert!(matches!(this.typ, SlangType::User(UserType::Class(ClassType { class_id: 20, .. }))));
            assert!(c.fields[0].value.as_ref().unwrap().typ.is_int());
        },
        _ => panic!("expected a class"),
    }
}

#[test]
fn type_texts() {
    let defs = vec![Definition::Struct(pair_struct())];
    let tab = type_table(&defs);
    assert_eq!(type_text(&tab, &pair_of(int_t())), "struct-Pair(id=4)[T(id=5)=int]");
    let arr = SlangType::Array(ArrayType { element_type: Box::new(float_t()), size: 3 });
    assert_eq!(type_text(&tab, &arr), "array(3 x float)");
    let f = SlangType::User(UserType::Function(Box::new(FunctionSignature {
        parameters: vec![
            Parameter { location: loc(1), name: name("a", 1), typ: int_t() },
            Parameter { location: loc(1), name: name("b", 2), typ: SlangType::Basic(BasicType::String) },
        ],
        return_type: Some(bool_t()),
    })));
    assert_eq!(type_text(&tab, &f), "function(int, str) -> bool");
    assert_eq!(type_text(&tab, &SlangType::TypeVar(name("T", 5))), "type-var-T(id=5)");
    assert_eq!(type_text(&tab, &SlangType::Void), "void");
}

fn shape_enum() -> EnumDef {
    // enum Shape: Circle(float), Square(int)
    EnumDef {
        location: loc(1),
        name: name("Shape", 40),
        type_parameters: vec![],
        variants: vec![
            EnumVariant { location: loc(1), name: "Circle".to_string(), data: vec![float_t()], index: 0 },
            EnumVariant { location: loc(1), name: "Square".to_string(), data: vec![int_t()], index: 1 },
        ],
    }
}

fn shape_t() -> SlangType {
    SlangType::User(UserType::Enum(EnumType { enum_id: 40, type_arguments: vec![] }))
}

fn arm(row: i32, variant: &str, ids: Vec<usize>) -> CaseArm {
    CaseArm { location: loc(row), variant: VariantRef::Name(variant.to_string()), local_ids: ids, body: vec![] }
}

fn case_program(arms: Vec<CaseArm>, locals: Vec<LocalVariable>) -> Program {
    let param = Parameter { location: loc(1), name: name("s", 7), typ: shape_t() };
    let value = untyped(ExpressionKind::LoadSymbol(Symbol::Parameter(7)));
    let case = stmt(9, StatementKind::Case(CaseStatement { value, arms }));
    program(vec![Definition::Enum(shape_enum()), Definition::Function(function(1, vec![param], None, locals, vec![case]))])
}

fn local(n: &str, id: usize) -> LocalVariable {
    LocalVariable { location: loc(1), mutable: false, name: name(n, id), typ: SlangType::Undefined }
}

#[test]
fn case_arms_are_resolved_and_unpack_the_payload() {
    let mut p = case_program(vec![arm(2, "Square", vec![11]), arm(3, "Circle", vec![10])], vec![local("r", 10), local("a", 11)]);
    assert!(check_types(&mut p).is_ok());
    match &p.definitions[1] {
        Definition::Function(f) => {
            assert!(f.locals[0].typ.is_float());
            assert!(f.locals[1].typ.is_int());
            match &f.body[0].kind {
                StatementKind::Case(cs) => {
                    assert!(matches!(cs.arms[0].variant, VariantRef::Variant(1)));
                    assert!(matches!(cs.arms[1].variant, VariantRef::Variant(0)));
                },
                _ => panic!("expected a case statement"),
            }
        },
        _ => panic!("expected a function"),
    }
}

#[test]
fn case_with_missing_variant_is_reported() {
    let mut p = case_program(vec![arm(2, "Circle", vec![10])], vec![local("r", 10)]);
    assert_eq!(messages(check_types(&mut p)), vec![(9, "Enum case '[\"Square\"]' not covered".to_string())]);
}

#[test]
fn case_with_duplicate_and_unknown_arms_is_reported() {
    let mut p = case_program(
        vec![arm(2, "Circle", vec![10]), arm(3, "Circle", vec![10]), arm(4, "Triangle", vec![]), arm(5, "Square", vec![11])],
        vec![local("r", 10), local("a", 11)],
    );
    assert_eq!(
        messages(check_types(&mut p)),
        vec![(3, "Duplicate field: Circle".to_string()), (4, "Enum has no variant named: Triangle".to_string())]
    );
}

#[test]
fn case_with_wrong_payload_count_is_reported() {
    let mut p = case_program(vec![arm(2, "Circle", vec![10, 11]), arm(3, "Square", vec![11])], vec![local("r", 10), local("a", 11)]);
    assert_eq!(messages(check_types(&mut p)), vec![(2, "Got 2 constructor arguments, but expected 1".to_string())]);
}

#[test]
fn case_on_non_enum_is_reported() {
    let case = stmt(9, StatementKind::Case(CaseStatement { value: int_lit(1), arms: vec![] }));
    let mut p = program(vec![Definition::Function(function(1, vec![], None, vec![], vec![case]))]);
    assert_eq!(messages(check_types(&mut p)), vec![(1, "Expected enum type, not int".to_string())]);
}

#[test]
fn enum_literal_gets_the_enum_type_and_converts_its_payload() {
    let lit = untyped(ExpressionKind::EnumLiteral {
        enum_type: EnumType { enum_id: 40, type_arguments: vec![] },
        variant: 0,
        arguments: vec![int_lit(2)],
    });
    let mut p = program(vec![Definition::Enum(shape_enum()), Definition::Function(function(1, vec![], Some(shape_t()), vec![], vec![ret(2, lit)]))]);
    assert!(check_types(&mut p).is_ok());
    let e = returned(&body_of(&p, 1)[0]);
    assert!(e.typ.is_enum());
    match &e.kind {
        ExpressionKind::EnumLiteral { arguments, .. } => assert!(arguments[0].typ.is_float()),
        _ => panic!("expected an enum literal"),
    }
}

#[test]
fn calling_a_class_gives_an_object_of_it() {
    let class = ClassDef { location: loc(1), name: name("Counter", 20), type_parameters: vec![], fields: vec![], methods: vec![] };
    let class_t = SlangType::User(UserType::Class(ClassType { class_id: 20, type_arguments: vec![] }));
    let call = untyped(ExpressionKind::Call {
        callee: Box::new(untyped(ExpressionKind::LoadSymbol(Symbol::Typ(class_t)))),
        arguments: vec![],
    });
    let mut p = program(vec![Definition::Class(class), Definition::Function(function(1, vec![], None, vec![], vec![stmt(2, StatementKind::Expression(call))]))]);
    assert!(check_types(&mut p).is_ok());
    match &body_of(&p, 1)[0].kind {
        StatementKind::Expression(e) => assert!(e.typ.is_class()),
        _ => panic!("expected an expression statement"),
    }
}

#[test]
fn calling_another_type_is_reported() {
    let call = untyped(ExpressionKind::Call {
        callee: Box::new(untyped(ExpressionKind::LoadSymbol(Symbol::Typ(int_t())))),
        arguments: vec![],
    });
    let mut p = program(vec![Definition::Function(function(1, vec![], None, vec![], vec![stmt(2, StatementKind::Expression(call))]))]);
    assert_eq!(messages(check_types(&mut p)), vec![(1, "Cannot call type: int".to_string())]);
}

#[test]
fn enum_type_text() {
    let defs = vec![Definition::Enum(shape_enum())];
    let tab = type_table(&defs);
    assert_eq!(type_text(&tab, &shape_t()), "enum(Shape(id=40))[]");
}

#[test]
fn comparison_of_int_with_float_is_reported() {
    let cmp = binop(int_lit(1), BinaryOperator::Comparison(ComparisonOperator::Lt), float_lit(2.5));
    let mut p = program(vec![Definition::Function(function(1, vec![], None, vec![], vec![stmt(5, StatementKind::Expression(cmp))]))]);
    assert_eq!(messages(check_types(&mut p)), vec![(1, "Expected int, but got float".to_string())]);
}

#[test]
fn type_variables_inside_arrays_are_replaced() {
    let var = SlangType::TypeVar(name("T", 9));
    let arr = SlangType::Array(ArrayType { element_type: Box::new(var), size: 3 });
    let r = replace_type_vars(&vec![name("T", 9)], &vec![int_t()], &arr);
    match r {
        SlangType::Array(a) => {
            assert_eq!(a.size, 3);
            assert!(matches!(*a.element_type, SlangType::Basic(BasicType::Int)));
        },
        _ => panic!("expected an array type"),
    }
}
