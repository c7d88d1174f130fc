use compiler2::ast::{BinaryOperator, MathOperator};
use compiler2::location::Location;
use compiler2::tast::printer::{ast_dump, Piece};
use compiler2::tast::{
    BasicType, ClassDef, ClassType, Definition, EnumDef, EnumVariant, Expression, ExpressionKind, FieldDef, FunctionDef,
    FunctionSignature, Literal, LocalVariable, NameNodeId, Parameter, Program, SlangType, Statement, StatementKind, StructDef,
    Symbol, UserType,
};

fn loc(row: i32, column: i32) -> Location {
    Location::new(row, column)
}

fn int_t() -> SlangType {
    SlangType::Basic(BasicType::Int)
}

fn float_t() -> SlangType {
    SlangType::Basic(BasicType::Float)
}

fn name(n: &str, id: usize) -> NameNodeId {
    NameNodeId { name: n.to_string(), id }
}

fn expr(row: i32, column: i32, kind: ExpressionKind, typ: SlangType) -> Expression {
    Expression { location: loc(row, column), kind, typ }
}

fn render(pieces: Vec<Piece>) -> String {
    let mut s = String::new();
    for p in pieces {
        match p {
            Piece::Text(t) => s.push_str(&t),
            Piece::Float(bits) => s.push_str(&format!("{}", f64::from_bits(bits))),
        }
    }
    s
}

fn program(defs: Vec<Definition>) -> Program {
    Program { name: "m".to_string(), path: "m.slang".to_string(), definitions: defs }
}

#[test]
fn dump_of_struct_and_function() {
    let point = Definition::Struct(StructDef {
        location: loc(1, 1),
        name: name("Point", 2),
        type_parameters: vec![],
        fields: vec![
            FieldDef { location: loc(1, 1), name: "x".to_string(), index: 0, typ: int_t(), value: None },
            FieldDef { location: loc(1, 1), name: "y".to_string(), index: 1, typ: int_t(), value: None },
        ],
    });
    let sum = expr(
        2,
        5,
        ExpressionKind::Binop {
            lhs: Box::new(expr(2, 5, ExpressionKind::LoadSymbol(Symbol::Parameter(7)), int_t())),
            op: BinaryOperator::Math(MathOperator::Add),
            rhs: Box::new(expr(2, 9, ExpressionKind::Literal(Literal::Float(2.5f64.to_bits())), float_t())),
        },
        float_t(),
    );
    let f = FunctionDef {
        name: name("f", 1),
        location: loc(1, 1),
        signature: FunctionSignature {
            parameters: vec![Parameter { location: loc(1, 1), name: name("p", 7), typ: int_t() }],
            return_type: Some(int_t()),
        },
        this_param: None,
        locals: vec![LocalVariable { location: loc(2, 1), mutable: true, name: name("t", 8), typ: int_t() }],
        body: vec![
            Statement { location: loc(2, 1), kind: StatementKind::Let { local_id: 8, type_hint: None, value: sum } },
            Statement {
                location: loc(3, 1),
                kind: StatementKind::Return {
                    value: Some(expr(3, 8, ExpressionKind::LoadSymbol(Symbol::LocalVariable(8)), SlangType::Undefined)),
                },
            },
        ],
    };
    let p = program(vec![point, Definition::Function(f)]);
    let expected = "\
======== TYPED AST [m] ============>>
struct Point(id=2)
   field name=x typ=int
   field name=y typ=int
fn f(id=1) location=[1:1]
   parameters:
      p(id=7) typ=int
   Return type: int
   locals:
      index=0 t(id=8) typ=int
   code:
      let-statement variable-name=t(id=8) [2:1]
         Binary operation Math(Add) type=float [2:5]
            Load-parameter p(id=7) type=int [2:5]
            Float val=2.5 type=float [2:9]
      return [3:1]
         Load-local(t(id=8)) [3:8]
";
    assert_eq!(render(ast_dump(&p)), expected);
}

#[test]
fn dump_of_enum_and_class() {
    let option = Definition::Enum(EnumDef {
        location: loc(1, 1),
        name: name("Option", 3),
        type_parameters: vec![name("T", 4)],
        variants: vec![
            EnumVariant { location: loc(1, 1), name: "Some".to_string(), data: vec![SlangType::TypeVar(name("T", 4))], index: 0 },
            EnumVariant { location: loc(1, 1), name: "None".to_string(), data: vec![], index: 1 },
        ],
    });
    let counter_t = SlangType::User(UserType::Class(ClassType { class_id: 20, type_arguments: vec![] }));
    let method = FunctionDef {
        name: name("m", 21),
        location: loc(3, 1),
        signature: FunctionSignature { parameters: vec![], return_type: None },
        this_param: Some(Parameter { location: loc(3, 1), name: name("self", 22), typ: counter_t.copy() }),
        locals: vec![],
        body: vec![Statement {
            location: loc(4, 1),
            kind: StatementKind::Return {
                value: Some(expr(4, 8, ExpressionKind::LoadSymbol(Symbol::Parameter(22)), counter_t)),
            },
        }],
    };
    let counter = Definition::Class(ClassDef {
        location: loc(1, 1),
        name: name("Counter", 20),
        type_parameters: vec![],
        fields: vec![FieldDef {
            location: loc(2, 1),
            name: "n".to_string(),
            index: 0,
            typ: int_t(),
            value: Some(expr(2, 9, ExpressionKind::Literal(Literal::Integer(0)), int_t())),
        }],
        methods: vec![method],
    });
    let p = program(vec![option, counter]);
    let expected = "\
======== TYPED AST [m] ============>>
enum(Option(id=3))[T]
   variant Some(type-var-T(id=4))
   variant None()
class Counter(id=20)
   field name=n typ=int
   Integer val=0 type=int [2:9]
   fn m(id=21) location=[3:1]
      code:
      return [4:1]
         Load-parameter self(id=22) type=user-class(Counter(id=20))[] [4:8]
";
    assert_eq!(render(ast_dump(&p)), expected);
}

#[test]
fn dump_of_literals_and_symbols() {
    let items = vec![
        expr(1, 1, ExpressionKind::Literal(Literal::Bool(true)), SlangType::Undefined),
        expr(1, 2, ExpressionKind::Literal(Literal::String("hi".to_string())), SlangType::Undefined),
        expr(1, 3, ExpressionKind::Literal(Literal::Integer(-4)), SlangType::Undefined),
        expr(1, 4, ExpressionKind::LoadSymbol(Symbol::Module), SlangType::Undefined),
        expr(1, 5, ExpressionKind::LoadSymbol(Symbol::Definition(2)), SlangType::Undefined),
        expr(1, 6, ExpressionKind::LoadSymbol(Symbol::ExternFunction { name: "std_print".to_string(), typ: SlangType::Void }), SlangType::Undefined),
    ];
    let point = Definition::Struct(StructDef { location: loc(1, 1), name: name("Point", 2), type_parameters: vec![], fields: vec![] });
    let f = FunctionDef {
        name: name("g", 1),
        location: loc(1, 1),
        signature: FunctionSignature { parameters: vec![], return_type: None },
        this_param: None,
        locals: vec![],
        body: vec![Statement {
            location: loc(5, 2),
            kind: StatementKind::Expression(expr(5, 3, ExpressionKind::ListLiteral(items), SlangType::Undefined)),
        }],
    };
    let p = program(vec![point, Definition::Function(f)]);
    let expected = "\
======== TYPED AST [m] ============>>
struct Point(id=2)
fn g(id=1) location=[1:1]
   code:
      expression-statement [5:2]
         List-literal [5:3]
            Bool val=true [1:1]
            String val='hi' [1:2]
            Integer val=-4 [1:3]
            Load-symbol symbol-module(..) [1:4]
            Load-symbol ref-struct-Point(id=2) [1:5]
            Load-symbol-extern-function(name=std_print) [1:6]
";
    assert_eq!(render(ast_dump(&p)), expected);
}
