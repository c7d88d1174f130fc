//! Types of the slang language, as the typed tree carries them.

use super::{FunctionSignature, NameNodeId, NodeId};
use vstd::prelude::*;

verus! {

#[derive(Clone, Copy, Debug, PartialEq, Eq, Structural)]
pub enum BasicType {
    Bool,
    Int,
    Float,
    String,
}

#[derive(Debug)]
pub enum SlangType {
    /// The type is undefined.
    Undefined,
    Basic(BasicType),
    /// The type of a type constructor, such as a class or an enum variant.
    TypeConstructor(Box<SlangType>),
    /// An opaque object, as left by rewriting generic types.
    Opaque,
    /// A type variable, by the name and node id of its declaration.
    TypeVar(NameNodeId),
    /// A flat container type of fixed size.
    Array(ArrayType),
    /// A user defined type.
    User(UserType),
    Void,
    /// A type expression that is not evaluated yet.
    Unresolved,
}

#[derive(Debug)]
pub struct ArrayType {
    pub element_type: Box<SlangType>,
    pub size: usize,
}

/// A struct type: the node id of its definition and the type arguments.
#[derive(Debug)]
pub struct StructType {
    pub struct_id: NodeId,
    pub type_arguments: Vec<SlangType>,
}

/// An enum type: the node id of its definition and the type arguments.
#[derive(Debug)]
pub struct EnumType {
    pub enum_id: NodeId,
    pub type_arguments: Vec<SlangType>,
}

/// A class type: the node id of its definition and the type arguments.
#[derive(Debug)]
pub struct ClassType {
    pub class_id: NodeId,
    pub type_arguments: Vec<SlangType>,
}

#[derive(Debug)]
pub enum UserType {
    Struct(StructType),
    /// A union type, by the node id of its definition.
    Union(NodeId),
    Enum(EnumType),
    Class(ClassType),
    Function(Box<FunctionSignature>),
}

impl SlangType {
    pub fn int_type() -> (t: Self)
        ensures
            t == SlangType::Basic(BasicType::Int),
    {
        SlangType::Basic(BasicType::Int)
    }

    pub fn bool_type() -> (t: Self)
        ensures
            t == SlangType::Basic(BasicType::Bool),
    {
        SlangType::Basic(BasicType::Bool)
    }

    pub fn float_type() -> (t: Self)
        ensures
            t == SlangType::Basic(BasicType::Float),
    {
        SlangType::Basic(BasicType::Float)
    }

    pub fn string_type() -> (t: Self)
        ensures
            t == SlangType::Basic(BasicType::String),
    {
        SlangType::Basic(BasicType::String)
    }

    pub fn is_void(&self) -> (r: bool)
        ensures
            r == (*self is Void),
    {
        matches!(self, SlangType::Void)
    }

    pub fn is_type_var(&self) -> (r: bool)
        ensures
            r == (*self is TypeVar),
    {
        matches!(self, SlangType::TypeVar(_))
    }

    pub fn is_int(&self) -> (r: bool)
        ensures
            r == (*self == SlangType::Basic(BasicType::Int)),
    {
        matches!(self, SlangType::Basic(BasicType::Int))
    }

    pub fn is_float(&self) -> (r: bool)
        ensures
            r == (*self == SlangType::Basic(BasicType::Float)),
    {
        matches!(self, SlangType::Basic(BasicType::Float))
    }

    /// This is a user defined type.
    pub fn is_user(&self) -> (r: bool)
        ensures
            r == (*self is User),
    {
        matches!(self, SlangType::User(_))
    }

    /// Values of this type live on the heap: user types and type variables.
    pub fn is_heap_type(&self) -> (r: bool)
        ensures
            r == (*self is User || *self is TypeVar),
    {
        self.is_user() || self.is_type_var()
    }

    pub fn is_enum(&self) -> (r: bool)
        ensures
            r == (*self matches SlangType::User(UserType::Enum(_))),
    {
        matches!(self, SlangType::User(UserType::Enum(_)))
    }

    pub fn is_struct(&self) -> (r: bool)
        ensures
            r == (*self matches SlangType::User(UserType::Struct(_))),
    {
        matches!(self, SlangType::User(UserType::Struct(_)))
    }

    pub fn is_class(&self) -> (r: bool)
        ensures
            r == (*self matches SlangType::User(UserType::Class(_))),
    {
        matches!(self, SlangType::User(UserType::Class(_)))
    }
}

} // verus!
