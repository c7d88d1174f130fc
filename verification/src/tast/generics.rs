//! Type variables of generic definitions.

use super::{name_node_text, NameNodeId};
use crate::location::Location;
use vstd::prelude::*;
use std::rc::Rc;

verus! {

/// A type variable of a generic definition.
#[derive(Debug)]
pub struct TypeVar {
    pub location: Location,
    pub name: NameNodeId,
}

/// A reference to a type variable.
#[derive(Debug)]
pub struct TypeVarRef {
    ptr: Rc<TypeVar>,
}

impl TypeVarRef {
    /// The type variable referred to.
    pub closed spec fn target(&self) -> TypeVar {
        *self.ptr
    }

    pub fn new(type_var: &Rc<TypeVar>) -> (r: Self)
        ensures
            r.target() == **type_var,
    {
        TypeVarRef { ptr: Rc::clone(type_var) }
    }

    pub fn get_type_var(&self) -> (r: Rc<TypeVar>)
        ensures
            *r == self.target(),
    {
        Rc::clone(&self.ptr)
    }

    /// Two references refer to the same type variable: the one with the same node id.
    pub fn same(&self, other: &TypeVarRef) -> (r: bool)
        ensures
            r == (self.target().name.id == other.target().name.id),
    {
        self.ptr.name.id == other.ptr.name.id
    }
}

/// The texts of the type variables, joined by commas.
pub open spec fn type_vars_text(vars: Seq<TypeVar>) -> Seq<char>
    decreases vars.len(),
{
    if vars.len() == 0 {
        Seq::empty()
    } else if vars.len() == 1 {
        name_node_text(vars[0].name.name@, vars[0].name.id as nat)
    } else {
        type_vars_text(vars.drop_last()) + seq![','] + name_node_text(
            vars.last().name.name@,
            vars.last().name.id as nat,
        )
    }
}

/// The type parameters written as `name(id=..),name(id=..),...`.
pub fn get_type_vars_text(type_parameters: &[Rc<TypeVar>]) -> (s: String)
    ensures
        s@ == type_vars_text(type_parameters@.map_values(|v: Rc<TypeVar>| *v)),
{
    let ghost vars = type_parameters@.map_values(|v: Rc<TypeVar>| *v);
    let mut s = String::new();
    let mut i: usize = 0;
    while i < type_parameters.len()
        invariant
            i <= type_parameters@.len(),
            vars == type_parameters@.map_values(|v: Rc<TypeVar>| *v),
            s@ == type_vars_text(vars.take(i as int)),
        decreases type_parameters@.len() - i,
    {
        let t = type_parameters[i].name.text();
        proof {
            assert(vars.take(i as int + 1).drop_last() =~= vars.take(i as int));
            assert(vars.take(i as int + 1).last() == *type_parameters@[i as int]);
        }
        if i > 0 {
            crate::text::push_char(&mut s, ',');
        }
        s.append(t.as_str());
        i = i + 1;
        proof {
            if i == 1 {
                assert(s@ =~= type_vars_text(vars.take(i as int)));
            }
        }
    }
    assert(vars.take(i as int) =~= vars);
    s
}

} // verus!
