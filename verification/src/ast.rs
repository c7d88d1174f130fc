//! The abstract syntax tree that the parser produces.

use crate::location::Location;
use vstd::prelude::*;

verus! {

/// A parsed module.
pub struct Program {
    pub docstring: Option<String>,
    pub name: String,
    /// The source file path.
    pub path: String,
    /// Other used modules.
    pub imports: Vec<Import>,
    /// Items defined in this module.
    pub definitions: Vec<Definition>,
}

/// The name of the module that an import refers to.
pub open spec fn import_modname(i: Import) -> String {
    match i {
        Import::Import { modname, .. } => modname,
        Import::ImportFrom { modname, .. } => modname,
    }
}

impl Program {
    /// The names of the modules that this module imports, in import order.
    pub fn deps(&self) -> (d: Vec<String>)
        ensures
            d@.len() == self.imports@.len(),
            forall|i: int| 0 <= i < d@.len() ==> d@[i] == import_modname(#[trigger] self.imports@[i]),
    {
        let mut d: Vec<String> = Vec::new();
        let mut k: usize = 0;
        while k < self.imports.len()
            invariant
                k <= self.imports@.len(),
                d@.len() == k,
                forall|i: int| 0 <= i < k ==> d@[i] == import_modname(#[trigger] self.imports@[i]),
            decreases self.imports@.len() - k,
        {
            let name = match &self.imports[k] {
                Import::Import { modname, .. } => modname.clone(),
                Import::ImportFrom { modname, .. } => modname.clone(),
            };
            d.push(name);
            k = k + 1;
        }
        d
    }
}

pub enum Import {
    Import { location: Location, modname: String },
    ImportFrom { location: Location, modname: String, names: Vec<String> },
}

pub enum Definition {
    Struct(StructDef),
    Class(ClassDef),
    Enum(EnumDef),
    Function(FunctionDef),
}

/// A variant declaration: a tagged union, with optional payload per choice.
pub struct EnumDef {
    pub name: String,
    pub location: Location,
    pub type_parameters: Vec<TypeVar>,
    pub options: Vec<EnumDefOption>,
}

/// A choice inside a variant type.
pub struct EnumDefOption {
    pub name: String,
    pub location: Location,
    /// Payload types.
    pub data: Vec<Expression>,
}

pub struct ClassDef {
    pub name: String,
    pub location: Location,
    pub type_parameters: Vec<TypeVar>,
    pub fields: Vec<VariableDef>,
    pub methods: Vec<FunctionDef>,
}

pub struct VariableDef {
    pub location: Location,
    pub name: String,
    pub typ: Expression,
    pub value: Expression,
}

/// A user defined struct data type.
pub struct StructDef {
    pub location: Location,
    pub name: String,
    pub type_parameters: Vec<TypeVar>,
    pub fields: Vec<StructDefField>,
}

/// A type variable, usable in generic types.
pub struct TypeVar {
    pub location: Location,
    pub name: String,
}

pub struct StructDefField {
    pub location: Location,
    pub name: String,
    pub typ: Expression,
}

pub struct FunctionDef {
    pub location: Location,
    pub name: String,
    pub public: bool,
    pub signature: FunctionSignature,
    pub body: Block,
}

pub struct FunctionSignature {
    pub parameters: Vec<Parameter>,
    pub return_type: Option<Expression>,
}

pub struct Parameter {
    pub location: Location,
    pub name: String,
    pub typ: Expression,
}

pub type Block = Vec<Statement>;

pub struct Statement {
    pub location: Location,
    pub kind: StatementKind,
}

pub enum StatementKind {
    Expression(Expression),
    /// Assign and define a variable.
    Let { name: String, mutable: bool, type_hint: Option<Expression>, value: Expression },
    Assignment { target: Expression, value: Expression },
    If { condition: Expression, if_true: Vec<Statement>, if_false: Option<Vec<Statement>> },
    For { name: String, it: Expression, body: Block },
    Loop { body: Block },
    While { condition: Expression, body: Vec<Statement> },
    Match { value: Expression, arms: Vec<MatchArm> },
    /// A simple edition of match, over enum types only.
    Case { value: Expression, arms: Vec<CaseArm> },
    /// Switch over an integer value.
    Switch { value: Expression, arms: Vec<SwitchArm>, default: Block },
    Return { value: Option<Expression> },
    Pass,
    Break,
    Continue,
}

pub struct MatchArm {
    pub location: Location,
    pub pattern: Expression,
    pub body: Block,
}

pub struct CaseArm {
    pub location: Location,
    pub variant: String,
    pub arguments: Vec<String>,
    pub body: Block,
}

pub struct SwitchArm {
    pub location: Location,
    pub value: Expression,
    pub body: Block,
}

pub struct Expression {
    pub location: Location,
    pub kind: ExpressionKind,
}

pub enum ExpressionKind {
    Object(ObjRef),
    Literal(Literal),
    ObjectInitializer { typ: Box<Expression>, fields: Vec<LabeledField> },
    ListLiteral(Vec<Expression>),
    Call { callee: Box<Expression>, arguments: Vec<Expression> },
    FunctionType(Box<FunctionSignature>),
    ArrayIndex { base: Box<Expression>, indici: Vec<Expression> },
    GetAttr { base: Box<Expression>, attr: String },
    /// Binary operator.
    Binop { lhs: Box<Expression>, op: BinaryOperator, rhs: Box<Expression> },
}

/// A literal value; a float is held as the bit pattern of its `f64` value.
#[derive(Debug)]
pub enum Literal {
    Bool(bool),
    String(String),
    Integer(i64),
    Float(u64),
}

pub enum ObjRef {
    Name { location: Location, name: String },
    /// Scope access.
    Inner { location: Location, base: Box<ObjRef>, member: String },
}

pub struct LabeledField {
    pub location: Location,
    pub name: String,
    pub value: Expression,
}

#[derive(Clone, Copy, Debug, PartialEq, Eq, Structural)]
pub enum BinaryOperator {
    Math(MathOperator),
    Comparison(ComparisonOperator),
    Logic(LogicOperator),
    Bit(BitOperator),
}

#[derive(Clone, Copy, Debug, PartialEq, Eq, Structural)]
pub enum LogicOperator {
    And,
    Or,
}

#[derive(Clone, Copy, Debug, PartialEq, Eq, Structural)]
pub enum BitOperator {
    ShiftLeft,
    ShiftRight,
    Xor,
    And,
    Or,
}

#[derive(Clone, Copy, Debug, PartialEq, Eq, Structural)]
pub enum MathOperator {
    Add,
    Sub,
    Mul,
    Div,
}

#[derive(Clone, Copy, Debug, PartialEq, Eq, Structural)]
pub enum ComparisonOperator {
    Lt,
    Gt,
    LtEqual,
    GtEqual,
    Equal,
    NotEqual,
}

} // verus!
