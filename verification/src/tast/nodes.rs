//! Definitions, statements and expressions of the typed tree.

use super::{EnumType, NameNodeId, NodeId, SlangType};
use crate::ast::BinaryOperator;
use crate::location::Location;
use vstd::prelude::*;

verus! {

/// A typed module.
pub struct Program {
    pub name: String,
    pub path: String,
    pub definitions: Vec<Definition>,
}

pub enum Definition {
    Function(FunctionDef),
    /// A class; classes are rewritten into structs before code generation.
    Class(ClassDef),
    Struct(StructDef),
    Union(StructDef),
    /// An enum; enums are rewritten into tagged unions before code generation.
    Enum(EnumDef),
}

/// An enum definition: its variants, each with the types of its payload.
pub struct EnumDef {
    pub location: Location,
    pub name: NameNodeId,
    pub type_parameters: Vec<NameNodeId>,
    pub variants: Vec<EnumVariant>,
}

pub struct EnumVariant {
    pub location: Location,
    pub name: String,
    pub data: Vec<SlangType>,
    /// The position of the variant in its enum.
    pub index: usize,
}

/// A struct or union definition.
pub struct StructDef {
    pub location: Location,
    pub name: NameNodeId,
    pub type_parameters: Vec<NameNodeId>,
    pub fields: Vec<FieldDef>,
}

/// A class definition: fields and methods.
pub struct ClassDef {
    pub location: Location,
    pub name: NameNodeId,
    pub type_parameters: Vec<NameNodeId>,
    pub fields: Vec<FieldDef>,
    pub methods: Vec<FunctionDef>,
}

/// A field of a struct or union, with its position.
pub struct FieldDef {
    pub location: Location,
    pub name: String,
    pub index: usize,
    pub typ: SlangType,
    /// The initial value, if the field has one.
    pub value: Option<Expression>,
}

pub struct FunctionDef {
    pub name: NameNodeId,
    pub location: Location,
    pub signature: FunctionSignature,
    /// The object parameter of a method.
    pub this_param: Option<Parameter>,
    pub locals: Vec<LocalVariable>,
    pub body: Block,
}

#[derive(Debug)]
pub struct FunctionSignature {
    pub parameters: Vec<Parameter>,
    pub return_type: Option<SlangType>,
}

#[derive(Debug)]
pub struct Parameter {
    pub location: Location,
    pub name: NameNodeId,
    pub typ: SlangType,
}

pub struct LocalVariable {
    pub location: Location,
    pub mutable: bool,
    pub name: NameNodeId,
    pub typ: SlangType,
}

pub type Block = Vec<Statement>;

pub struct Statement {
    pub location: Location,
    pub kind: StatementKind,
}

pub enum StatementKind {
    Expression(Expression),
    Let { local_id: NodeId, type_hint: Option<SlangType>, value: Expression },
    Assignment { target: Expression, value: Expression },
    StoreLocal { local_id: NodeId, value: Expression },
    SetAttr { base: Expression, attr: String, value: Expression },
    SetIndex { base: Expression, index: Expression, value: Expression },
    If(IfStatement),
    Loop { body: Block },
    While(WhileStatement),
    For { loop_var: NodeId, iterable: Expression, body: Block },
    Return { value: Option<Expression> },
    Case(CaseStatement),
    Switch(SwitchStatement),
    Compound(Block),
    Pass,
    Break,
    Continue,
    /// A marker statement that cannot be reached.
    Unreachable,
}

/// A case statement: chooses an arm by the variant of an enum value, and
/// unpacks its payload into local variables.
pub struct CaseStatement {
    pub value: Expression,
    pub arms: Vec<CaseArm>,
}

pub struct CaseArm {
    pub location: Location,
    pub variant: VariantRef,
    /// The node ids of the locals that receive the payload.
    pub local_ids: Vec<NodeId>,
    pub body: Block,
}

/// The variant of an arm: by name, or, once resolved, by its position in the enum.
pub enum VariantRef {
    Name(String),
    Variant(usize),
}

/// A value for a field, by name, in an object initializer.
pub struct LabeledField {
    pub location: Location,
    pub name: String,
    pub value: Box<Expression>,
}

/// A switch statement: chooses an arm by an integer value.
pub struct SwitchStatement {
    pub value: Expression,
    pub arms: Vec<SwitchArm>,
    pub default: Block,
}

pub struct SwitchArm {
    pub value: Expression,
    pub body: Block,
}

pub struct IfStatement {
    pub condition: Expression,
    pub if_true: Block,
    pub if_false: Option<Block>,
}

pub struct WhileStatement {
    pub condition: Expression,
    pub body: Block,
}

pub struct Expression {
    pub location: Location,
    pub kind: ExpressionKind,
    pub typ: SlangType,
}

pub enum ExpressionKind {
    /// An undefined value.
    Undefined,
    Literal(Literal),
    /// An object initializer with labeled values; rewritten into a tuple before type checking.
    ObjectInitializer { typ: SlangType, fields: Vec<LabeledField> },
    /// A tuple of mixed values; its type is a struct type.
    TupleLiteral { typ: SlangType, values: Vec<Expression> },
    /// A union literal, initializing a single field of a union.
    UnionLiteral { attr: String, value: Box<Expression> },
    /// An enum literal: a variant of an enum type with its payload;
    /// rewritten into a tagged union before code generation.
    EnumLiteral { enum_type: EnumType, variant: usize, arguments: Vec<Expression> },
    /// A list literal with equally typed values.
    ListLiteral(Vec<Expression>),
    /// Load the value of a symbol.
    LoadSymbol(Symbol),
    Call { callee: Box<Expression>, arguments: Vec<Expression> },
    /// Convert the value into another type.
    TypeCast { to_type: SlangType, value: Box<Expression> },
    /// Attribute of an object: `base.attr`.
    GetAttr { base: Box<Expression>, attr: String },
    /// Indexing: `base[index]`.
    GetIndex { base: Box<Expression>, index: Box<Expression> },
    Binop { lhs: Box<Expression>, op: BinaryOperator, rhs: Box<Expression> },
    /// A name that is not resolved yet.
    Object,
}

#[derive(Debug)]
pub enum Literal {
    Bool(bool),
    String(String),
    Integer(i64),
    /// A float, held as the bit pattern of its `f64` value.
    Float(u64),
}

/// What a name refers to.
pub enum Symbol {
    /// A function of this program, with its name and its function type.
    Function { name: NameNodeId, typ: SlangType },
    /// A function provided by the runtime.
    ExternFunction { name: String, typ: SlangType },
    /// A parameter, by node id.
    Parameter(NodeId),
    /// A local variable, by node id.
    LocalVariable(NodeId),
    /// A type.
    Typ(SlangType),
    Module,
    /// A definition that is not a value (a struct, union, enum or class), by its node id.
    Definition(NodeId),
    Field,
    EnumVariant,
}

} // verus!
