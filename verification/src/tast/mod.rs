//! The typed abstract syntax tree that code generation works on.
//!
//! References between nodes are node ids: a struct type names the id of its
//! definition, a symbol names the id of the parameter or local it loads.

pub mod generics;
pub mod nodes;
pub mod printer;
pub mod type_system;
pub mod type_text;
pub mod types;

pub use nodes::{
    Block, Definition, Expression, ExpressionKind, FieldDef, FunctionDef, FunctionSignature,
    CaseArm, CaseStatement, ClassDef, EnumDef, EnumVariant, IfStatement, LabeledField, VariantRef, Literal, LocalVariable, Parameter, Program, Statement, StatementKind, StructDef,
    SwitchArm, SwitchStatement, Symbol, WhileStatement,
};
pub use types::{ArrayType, BasicType, ClassType, EnumType, SlangType, StructType, UserType};

use crate::text::{nat_text, push_char, push_u64};
use vstd::prelude::*;

verus! {

pub type NodeId = usize;

/// A name together with the unique id of the node it names.
#[derive(Debug)]
pub struct NameNodeId {
    pub name: String,
    pub id: NodeId,
}

/// The text of a named node: `name(id=..)`.
pub open spec fn name_node_text(name: Seq<char>, id: nat) -> Seq<char> {
    name + "(id="@ + nat_text(id) + seq![')']
}

impl NameNodeId {
    /// The named node written as `name(id=..)`.
    pub fn text(&self) -> (s: String)
        ensures
            s@ == name_node_text(self.name@, self.id as nat),
    {
        let mut s = self.name.clone();
        let prefix = "(id=";
        s.append(prefix);
        push_u64(&mut s, self.id as u64);
        push_char(&mut s, ')');
        s
    }

    pub fn copy(&self) -> (r: NameNodeId)
        ensures
            r.name == self.name,
            r.id == self.id,
    {
        NameNodeId { name: self.name.clone(), id: self.id }
    }
}

} // verus!
