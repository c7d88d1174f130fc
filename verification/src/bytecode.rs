//! A stack based bytecode.
//!
//! Code of a function is a sequence of instructions over an operand stack;
//! jumps name instruction indices.

use vstd::prelude::*;

verus! {

#[derive(Debug)]
pub struct Program {
    pub imports: Vec<Import>,
    /// A list of types, usable via an index.
    pub types: Vec<TypeDef>,
    /// The functions defined in this module.
    pub functions: Vec<Function>,
}

#[derive(Debug)]
pub struct Import {
    pub name: String,
    pub parameter_types: Vec<Typ>,
    pub return_type: Option<Typ>,
}

#[derive(Debug)]
pub enum TypeDef {
    Struct(StructDef),
    Union(UnionDef),
    Array { size: usize, element_type: Typ },
}

impl TypeDef {
    /// A placeholder entry in the type table, filled in later.
    pub fn invalid() -> (t: TypeDef)
        ensures
            t matches TypeDef::Struct(s) && s.name is None && s.fields@.len() == 0,
    {
        TypeDef::Struct(StructDef { name: None, fields: Vec::new() })
    }
}

#[derive(Debug)]
pub struct StructDef {
    pub name: Option<String>,
    pub fields: Vec<Typ>,
}

#[derive(Debug)]
pub struct UnionDef {
    pub name: String,
    pub choices: Vec<Typ>,
}

#[derive(Debug)]
pub struct Function {
    pub name: String,
    pub parameters: Vec<Parameter>,
    pub return_type: Option<Typ>,
    pub locals: Vec<Local>,
    pub code: Vec<Instruction>,
}

#[derive(Debug)]
pub struct Parameter {
    pub name: String,
    pub typ: Typ,
}

#[derive(Debug)]
pub struct Local {
    pub name: String,
    pub typ: Typ,
}

#[derive(Debug)]
pub enum Instruction {
    Nop,
    BoolLiteral(bool),
    IntLiteral(i64),
    /// A float literal, held as the bit pattern of its `f64` value.
    FloatLiteral(u64),
    StringLiteral(String),
    UndefinedLiteral,
    /// Duplicate the value on top of the stack.
    Duplicate,
    DropTop,
    /// Allocate new memory for the given type.
    Malloc(Typ),
    Call { n_args: usize, typ: Option<Typ> },
    Operator { op: Operator, typ: Typ },
    Comparison { op: Comparison, typ: Typ },
    LoadGlobalName { name: String, typ: Typ },
    /// Load a function parameter onto the stack.
    LoadParameter { index: usize },
    /// Load a local variable onto the stack.
    LoadLocal { index: usize },
    /// Store the value on top of the stack in a local variable.
    StoreLocal { index: usize },
    /// Jump to an instruction index.
    Jump(usize),
    /// Jump to the first index if the value on top of the stack is true, else to the second.
    JumpIf(usize, usize),
    /// Jump to the target whose value matches the integer on top of the stack, or to `default`.
    JumpSwitch { default: usize, options: Vec<(i64, usize)> },
    /// Return the given number of values (zero or one).
    Return(usize),
    /// Get the n-th attribute of a struct typed object.
    GetAttr { index: usize, typ: Typ },
    /// Set the n-th attribute of a struct typed object.
    SetAttr { index: usize },
    /// Get an element from an array.
    GetElement { typ: Typ },
    /// Set an element in an array.
    SetElement,
    /// Convert the value on top of the stack to another type.
    TypeConvert(TypeConversion),
}

/// The instructions that end a basic block.
pub open spec fn terminator(i: Instruction) -> bool {
    match i {
        Instruction::Return(_) | Instruction::Jump(_) | Instruction::JumpIf(_, _)
        | Instruction::JumpSwitch { .. } => true,
        _ => false,
    }
}

impl Instruction {
    /// This instruction ends a basic block: a return or a jump.
    pub fn is_terminator(&self) -> (r: bool)
        ensures
            r == terminator(*self),
    {
        match self {
            Instruction::Return(_) | Instruction::Jump(_) | Instruction::JumpIf(_, _)
            | Instruction::JumpSwitch { .. } => true,
            _ => false,
        }
    }
}

/// How many operands an instruction takes from the stack.
pub open spec fn pops(i: Instruction) -> int {
    match i {
        Instruction::Duplicate | Instruction::DropTop | Instruction::StoreLocal { .. }
        | Instruction::JumpIf(_, _) | Instruction::JumpSwitch { .. } | Instruction::GetAttr { .. }
        | Instruction::TypeConvert(_) => 1,
        Instruction::Operator { .. } | Instruction::Comparison { .. } | Instruction::SetAttr { .. }
        | Instruction::GetElement { .. } => 2,
        Instruction::SetElement => 3,
        Instruction::Call { n_args, .. } => n_args + 1,
        Instruction::Return(n) => n as int,
        _ => 0,
    }
}

/// How many values an instruction puts on the stack.
pub open spec fn pushes(i: Instruction) -> int {
    match i {
        Instruction::BoolLiteral(_) | Instruction::IntLiteral(_) | Instruction::FloatLiteral(_)
        | Instruction::StringLiteral(_) | Instruction::UndefinedLiteral | Instruction::Malloc(_)
        | Instruction::Operator { .. } | Instruction::Comparison { .. }
        | Instruction::LoadGlobalName { .. } | Instruction::LoadParameter { .. }
        | Instruction::LoadLocal { .. } | Instruction::GetAttr { .. }
        | Instruction::GetElement { .. } | Instruction::TypeConvert(_) => 1,
        Instruction::Duplicate => 2,
        Instruction::Call { typ, .. } => if typ is Some {
            1
        } else {
            0
        },
        _ => 0,
    }
}

#[derive(Debug)]
pub enum TypeConversion {
    IntToFloat,
    FloatToInt,
    UserToOpaque,
    OpaqueToUser(Typ),
}

#[derive(Clone, Copy, Debug, PartialEq, Eq, Structural)]
pub enum Operator {
    Add,
    Sub,
    Mul,
    Div,
}

#[derive(Debug)]
pub enum Typ {
    Void,
    Bool,
    Int,
    Float,
    String,
    Ptr(Box<Typ>),
    /// A reference into the types table.
    Composite(usize),
    Function { parameters: Vec<Typ>, result: Option<Box<Typ>> },
}

#[derive(Clone, Copy, Debug, PartialEq, Eq, Structural)]
pub enum Comparison {
    Lt,
    LtEqual,
    Gt,
    GtEqual,
    Equal,
    NotEqual,
}

} // verus!
