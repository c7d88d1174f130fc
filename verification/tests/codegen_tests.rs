use compiler2::ast::{BinaryOperator, ComparisonOperator, MathOperator};
use compiler2::bytecode::{self, Comparison, Instruction, Operator, Typ};
use compiler2::ir_gen::generate_bytecode;
use compiler2::llvm_backend::create_llvm_text_code;
use compiler2::location::Location;
use compiler2::tast::{
    BasicType, Definition, Expression, ExpressionKind, FunctionDef, FunctionSignature, IfStatement,
    Literal, NameNodeId, Parameter, Program, SlangType, Statement, StatementKind, Symbol,
    WhileStatement,
};

fn loc() -> Location {
    Location::new(1, 1)
}

fn int_t() -> SlangType {
    SlangType::Basic(BasicType::Int)
}

fn bool_t() -> SlangType {
    SlangType::Basic(BasicType::Bool)
}

fn name(n: &str, id: usize) -> NameNodeId {
    NameNodeId { name: n.to_string(), id }
}

fn expr(kind: ExpressionKind, typ: SlangType) -> Expression {
    Expression { location: loc(), kind, typ }
}

fn param(_n: &str, id: usize) -> Expression {
    expr(ExpressionKind::LoadSymbol(Symbol::Parameter(id)), int_t())
}

fn stmt(kind: StatementKind) -> Statement {
    Statement { location: loc(), kind }
}

fn function(n: &str, id: usize, params: Vec<Parameter>, ret: Option<SlangType>, body: Vec<Statement>) -> FunctionDef {
    FunctionDef {
        name: name(n, id),
        location: loc(),
        signature: FunctionSignature { parameters: params, return_type: ret },
        this_param: None,
        locals: vec![],
        body,
    }
}

fn program(defs: Vec<Definition>) -> Program {
    Program { name: "m".to_string(), path: "m.slang".to_string(), definitions: defs }
}

/// `fn add(a: int, b: int) -> int: return a + b`
fn add_program() -> Program {
    let sum = expr(
        ExpressionKind::Binop {
            lhs: Box::new(param("a", 1)),
            op: BinaryOperator::Math(MathOperator::Add),
            rhs: Box::new(param("b", 2)),
        },
        int_t(),
    );
    let params = vec![
        Parameter { location: loc(), name: name("a", 1), typ: int_t() },
        Parameter { location: loc(), name: name("b", 2), typ: int_t() },
    ];
    let body = vec![stmt(StatementKind::Return { value: Some(sum) })];
    program(vec![Definition::Function(function("add", 0, params, Some(int_t()), body))])
}

#[test]
fn addition_compiles_to_stack_code() {
    let bc = generate_bytecode(&[add_program()]);
    assert_eq!(bc.functions.len(), 1);
    let f = &bc.functions[0];
    assert_eq!(f.name, "add");
    assert_eq!(f.parameters.len(), 2);
    assert_eq!(f.parameters[0].name, "a");
    assert!(matches!(f.parameters[0].typ, Typ::Int));
    assert!(matches!(f.return_type, Some(Typ::Int)));
    assert_eq!(f.code.len(), 4);
    assert!(matches!(f.code[0], Instruction::LoadParameter { index: 0 }));
    assert!(matches!(f.code[1], Instruction::LoadParameter { index: 1 }));
    assert!(matches!(f.code[2], Instruction::Operator { op: Operator::Add, typ: Typ::Int }));
    assert!(matches!(f.code[3], Instruction::Return(1)));
    assert!(bc.imports.is_empty());
}

/// `fn f(): while true: break`
#[test]
fn while_loop_jumps_are_resolved() {
    let cond = expr(ExpressionKind::Literal(Literal::Bool(true)), bool_t());
    let body = vec![stmt(StatementKind::Break)];
    let w = stmt(StatementKind::While(WhileStatement { condition: cond, body }));
    let prog = program(vec![Definition::Function(function("f", 0, vec![], None, vec![w]))]);
    let bc = generate_bytecode(&[prog]);
    let code = &bc.functions[0].code;
    assert_eq!(code.len(), 7);
    assert!(matches!(code[0], Instruction::Jump(1)));
    assert!(matches!(code[1], Instruction::BoolLiteral(true)));
    assert!(matches!(code[2], Instruction::JumpIf(3, 5)));
    assert!(matches!(code[3], Instruction::Jump(5)));
    assert!(matches!(code[4], Instruction::Jump(1)));
    assert!(matches!(code[5], Instruction::Nop));
    assert!(matches!(code[6], Instruction::Return(0)));
}

/// `fn g(a: int): if a < 1 and a > 0: return else: pass`
#[test]
fn short_circuit_condition_and_if_else() {
    let lt = expr(
        ExpressionKind::Binop {
            lhs: Box::new(param("a", 1)),
            op: BinaryOperator::Comparison(ComparisonOperator::Lt),
            rhs: Box::new(expr(ExpressionKind::Literal(Literal::Integer(1)), int_t())),
        },
        bool_t(),
    );
    let gt = expr(
        ExpressionKind::Binop {
            lhs: Box::new(param("a", 1)),
            op: BinaryOperator::Comparison(ComparisonOperator::Gt),
            rhs: Box::new(expr(ExpressionKind::Literal(Literal::Integer(0)), int_t())),
        },
        bool_t(),
    );
    let cond = expr(
        ExpressionKind::Binop {
            lhs: Box::new(lt),
            op: BinaryOperator::Logic(compiler2::ast::LogicOperator::And),
            rhs: Box::new(gt),
        },
        bool_t(),
    );
    let i = stmt(StatementKind::If(IfStatement {
        condition: cond,
        if_true: vec![stmt(StatementKind::Return { value: None })],
        if_false: Some(vec![stmt(StatementKind::Pass)]),
    }));
    let params = vec![Parameter { location: loc(), name: name("a", 1), typ: int_t() }];
    let prog = program(vec![Definition::Function(function("g", 0, params, None, vec![i]))]);
    let bc = generate_bytecode(&[prog]);
    let code = &bc.functions[0].code;
    // a < 1 ; jump-if to the middle or the false branch; a > 0 ; jump-if to true or false.
    assert!(matches!(code[0], Instruction::LoadParameter { index: 0 }));
    assert!(matches!(code[1], Instruction::IntLiteral(1)));
    assert!(matches!(code[2], Instruction::Comparison { op: Comparison::Lt, typ: Typ::Int }));
    assert!(matches!(code[3], Instruction::JumpIf(4, 10)));
    assert!(matches!(code[6], Instruction::Comparison { op: Comparison::Gt, typ: Typ::Int }));
    assert!(matches!(code[7], Instruction::JumpIf(8, 10)));
    assert!(matches!(code[8], Instruction::Return(0)));
    assert!(matches!(code[9], Instruction::Jump(11)));
    assert!(matches!(code[10], Instruction::Jump(11)));
    assert!(matches!(code[11], Instruction::Nop));
    assert!(matches!(code[12], Instruction::Return(0)));
    assert_eq!(code.len(), 13);
    // Every jump stays inside the code, and the code ends with a terminator.
    let n = code.len();
    for ins in code.iter() {
        match ins {
            Instruction::Jump(t) => assert!(*t < n),
            Instruction::JumpIf(a, b) => assert!(*a < n && *b < n),
            _ => {}
        }
    }
    assert!(code[n - 1].is_terminator());
}

#[test]
fn empty_function_gets_a_return() {
    let prog = program(vec![Definition::Function(function("e", 0, vec![], None, vec![]))]);
    let bc = generate_bytecode(&[prog]);
    let code = &bc.functions[0].code;
    assert_eq!(code.len(), 1);
    assert!(matches!(code[0], Instruction::Return(0)));
}

#[test]
fn external_function_is_imported_once() {
    let callee = || {
        expr(
            ExpressionKind::LoadSymbol(Symbol::ExternFunction {
                name: "print".to_string(),
                typ: SlangType::User(compiler2::tast::UserType::Function(Box::new(FunctionSignature {
                    parameters: vec![Parameter { location: loc(), name: name("x", 9), typ: int_t() }],
                    return_type: None,
                }))),
            }),
            SlangType::User(compiler2::tast::UserType::Function(Box::new(FunctionSignature {
                parameters: vec![Parameter { location: loc(), name: name("x", 9), typ: int_t() }],
                return_type: None,
            }))),
        )
    };
    let call = |v: i64| {
        stmt(StatementKind::Expression(expr(
            ExpressionKind::Call {
                callee: Box::new(callee()),
                arguments: vec![expr(ExpressionKind::Literal(Literal::Integer(v)), int_t())],
            },
            SlangType::Void,
        )))
    };
    let prog = program(vec![Definition::Function(function("main", 0, vec![], None, vec![call(1), call(2)]))]);
    let bc = generate_bytecode(&[prog]);
    assert_eq!(bc.imports.len(), 1);
    assert_eq!(bc.imports[0].name, "std_print");
    assert_eq!(bc.imports[0].parameter_types.len(), 1);
    let code = &bc.functions[0].code;
    assert!(matches!(&code[0], Instruction::LoadGlobalName { name, .. } if name == "std_print"));
    assert!(matches!(code[2], Instruction::Call { n_args: 1, typ: None }));
}

#[test]
fn llvm_text_of_an_addition() {
    let prog = bytecode::Program {
        imports: vec![],
        types: vec![],
        functions: vec![bytecode::Function {
            name: "main".to_string(),
            parameters: vec![bytecode::Parameter { name: "n".to_string(), typ: Typ::Int }],
            return_type: None,
            locals: vec![],
            code: vec![
                Instruction::IntLiteral(1),
                Instruction::IntLiteral(2),
                Instruction::Operator { op: Operator::Add, typ: Typ::Int },
            ],
        }],
    };
    let text = create_llvm_text_code(prog);
    let expected = "\n; Text generated!!\n\ndeclare void @std_print(i8* nocapture) nounwind\n\n\
define void @main(i64 %n) {\n    %fuu0 = add i64 1, 2;\n    ret void\n}\n\n\n";
    assert_eq!(text, expected);
}

#[test]
fn llvm_text_of_strings_floats_and_jumps() {
    let prog = bytecode::Program {
        imports: vec![],
        types: vec![],
        functions: vec![bytecode::Function {
            name: "f".to_string(),
            parameters: vec![],
            return_type: None,
            locals: vec![],
            code: vec![
                Instruction::LoadGlobalName { name: "std_print".to_string(), typ: Typ::Void },
                Instruction::StringLiteral("hi".to_string()),
                Instruction::Call { n_args: 1, typ: None },
                Instruction::FloatLiteral(1.0f64.to_bits()),
                Instruction::FloatLiteral(2.0f64.to_bits()),
                Instruction::Comparison { op: Comparison::Lt, typ: Typ::Float },
                Instruction::JumpIf(7, 8),
                Instruction::Jump(8),
            ],
        }],
    };
    let text = create_llvm_text_code(prog);
    let lines: Vec<&str> = text.split('\n').collect();
    assert_eq!(lines[5], "define void @f() {");
    assert_eq!(lines[6], "    %fuu1 = getelementptr [3 x i8], [3 x i8]* @baz0, i64 0, i64 0");
    assert_eq!(lines[7], "    call void @std_print(i8* %fuu1)");
    assert_eq!(lines[8], "    %fuu2 = icmp slt f64 0x3FF0000000000000, 0x4000000000000000");
    assert_eq!(lines[9], "    br i1 %fuu2, label %block7, label %block8");
    assert_eq!(lines[10], "    br label %block8");
    assert_eq!(lines[11], "    ret void");
    assert_eq!(lines[14], "@baz0 = private unnamed_addr constant [3 x i8] c\"hi\\00\"");
}
