//! Types as mathematical values: equality, copies, the text of a type and
//! the substitution of type variables.

use super::{ArrayType, BasicType, ClassType, Definition, EnumType, EnumVariant, FieldDef, FunctionDef, FunctionSignature, NameNodeId, Parameter, SlangType, StructType, UserType};
use vstd::prelude::*;

verus! {

/// The value of a type. Two types are equal exactly when their values are.
pub enum Ty {
    Undefined,
    Basic(BasicType),
    TypeCon(Box<Ty>),
    Opaque,
    /// A type variable, by name and node id.
    Var(Seq<char>, nat),
    /// Element type and size.
    Array(Box<Ty>, nat),
    /// Definition id and type arguments.
    Struct(nat, Seq<Ty>),
    Union(nat),
    Enum(nat, Seq<Ty>),
    Class(nat, Seq<Ty>),
    /// Parameter types and return type.
    Function(Seq<Ty>, Option<Box<Ty>>),
    Void,
    Unresolved,
}

impl SlangType {
    /// The value of this type.
    pub open spec fn ty(self) -> Ty
        decreases self,
    {
        match self {
            SlangType::Undefined => Ty::Undefined,
            SlangType::Basic(b) => Ty::Basic(b),
            SlangType::TypeConstructor(t) => Ty::TypeCon(Box::new((*t).ty())),
            SlangType::Opaque => Ty::Opaque,
            SlangType::TypeVar(n) => Ty::Var(n.name@, n.id as nat),
            SlangType::Array(a) => Ty::Array(Box::new((*a.element_type).ty()), a.size as nat),
            SlangType::User(u) => match u {
                UserType::Struct(st) => Ty::Struct(st.struct_id as nat, tys(st.type_arguments@)),
                UserType::Union(id) => Ty::Union(id as nat),
                UserType::Enum(et) => Ty::Enum(et.enum_id as nat, tys(et.type_arguments@)),
                UserType::Class(ct) => Ty::Class(ct.class_id as nat, tys(ct.type_arguments@)),
                UserType::Function(sig) => Ty::Function(
                    param_tys(sig.parameters@),
                    match sig.return_type {
                        Some(r) => Some(Box::new(r.ty())),
                        None => None,
                    },
                ),
            },
            SlangType::Void => Ty::Void,
            SlangType::Unresolved => Ty::Unresolved,
        }
    }
}

/// The values of a sequence of types.
pub open spec fn tys(s: Seq<SlangType>) -> Seq<Ty>
    decreases s,
{
    if s.len() == 0 {
        Seq::empty()
    } else {
        seq![s[0].ty()] + tys(s.drop_first())
    }
}

/// The values of the types of a sequence of parameters.
pub open spec fn param_tys(s: Seq<Parameter>) -> Seq<Ty>
    decreases s,
{
    if s.len() == 0 {
        Seq::empty()
    } else {
        seq![s[0].typ.ty()] + param_tys(s.drop_first())
    }
}

pub proof fn lemma_tys(s: Seq<SlangType>)
    ensures
        tys(s).len() == s.len(),
        forall|i: int| 0 <= i < s.len() ==> #[trigger] tys(s)[i] == s[i].ty(),
    decreases s.len(),
{
    if s.len() > 0 {
        lemma_tys(s.drop_first());
        assert forall|i: int| 0 <= i < s.len() implies #[trigger] tys(s)[i] == s[i].ty() by {
            if i > 0 {
                assert(tys(s)[i] == tys(s.drop_first())[i - 1]);
            }
        }
    }
}

pub proof fn lemma_param_tys(s: Seq<Parameter>)
    ensures
        param_tys(s).len() == s.len(),
        forall|i: int| 0 <= i < s.len() ==> #[trigger] param_tys(s)[i] == s[i].typ.ty(),
    decreases s.len(),
{
    if s.len() > 0 {
        lemma_param_tys(s.drop_first());
        assert forall|i: int| 0 <= i < s.len() implies #[trigger] param_tys(s)[i] == s[i].typ.ty() by {
            if i > 0 {
                assert(param_tys(s)[i] == param_tys(s.drop_first())[i - 1]);
            }
        }
    }
}

/// No part of the type is left unresolved.
pub open spec fn resolved(t: Ty) -> bool
    decreases t,
{
    match t {
        Ty::Unresolved => false,
        Ty::TypeCon(b) => resolved(*b),
        Ty::Array(b, _) => resolved(*b),
        Ty::Struct(_, args) => all_resolved(args),
        Ty::Enum(_, args) => all_resolved(args),
        Ty::Class(_, args) => all_resolved(args),
        Ty::Function(ps, r) => all_resolved(ps) && match r {
            Some(b) => resolved(*b),
            None => true,
        },
        _ => true,
    }
}

pub open spec fn all_resolved(s: Seq<Ty>) -> bool
    decreases s,
{
    if s.len() == 0 {
        true
    } else {
        resolved(s[0]) && all_resolved(s.drop_first())
    }
}

impl SlangType {
    /// A copy of this type.
    pub fn copy(&self) -> (r: SlangType)
        ensures
            r.ty() == self.ty(),
        decreases self,
    {
        match self {
            SlangType::Undefined => SlangType::Undefined,
            SlangType::Basic(b) => SlangType::Basic(*b),
            SlangType::TypeConstructor(t) => SlangType::TypeConstructor(Box::new((**t).copy())),
            SlangType::Opaque => SlangType::Opaque,
            SlangType::TypeVar(n) => SlangType::TypeVar(n.copy()),
            SlangType::Array(a) => SlangType::Array(
                ArrayType { element_type: Box::new((*a.element_type).copy()), size: a.size },
            ),
            SlangType::User(u) => SlangType::User(
                match u {
                    UserType::Struct(st) => UserType::Struct(
                        StructType { struct_id: st.struct_id, type_arguments: copy_types(&st.type_arguments) },
                    ),
                    UserType::Union(id) => UserType::Union(*id),
                    UserType::Enum(et) => UserType::Enum(
                        EnumType { enum_id: et.enum_id, type_arguments: copy_types(&et.type_arguments) },
                    ),
                    UserType::Class(ct) => UserType::Class(
                        ClassType { class_id: ct.class_id, type_arguments: copy_types(&ct.type_arguments) },
                    ),
                    UserType::Function(sig) => UserType::Function(Box::new((**sig).copy())),
                },
            ),
            SlangType::Void => SlangType::Void,
            SlangType::Unresolved => SlangType::Unresolved,
        }
    }
}

impl FunctionSignature {
    /// A copy of this signature.
    pub fn copy(&self) -> (r: FunctionSignature)
        ensures
            param_tys(r.parameters@) == param_tys(self.parameters@),
            (r.return_type is Some) == (self.return_type is Some),
            r.return_type matches Some(t) ==> t.ty() == self.return_type->0.ty(),
        decreases self,
    {
        let mut parameters: Vec<Parameter> = Vec::new();
        let mut i: usize = 0;
        while i < self.parameters.len()
            invariant
                i <= self.parameters@.len(),
                parameters@.len() == i,
                forall|j: int| 0 <= j < i ==> (#[trigger] parameters@[j]).typ.ty() == self.parameters@[j].typ.ty(),
            decreases self.parameters@.len() - i,
        {
            let p = &self.parameters[i];
            parameters.push(Parameter { location: p.location, name: p.name.copy(), typ: p.typ.copy() });
            i = i + 1;
        }
        proof {
            lemma_param_tys(parameters@);
            lemma_param_tys(self.parameters@);
            assert(param_tys(parameters@) =~= param_tys(self.parameters@));
        }
        let return_type = match &self.return_type {
            Some(t) => Some(t.copy()),
            None => None,
        };
        FunctionSignature { parameters, return_type }
    }
}

/// Copies of the types of a sequence.
pub fn copy_types(v: &Vec<SlangType>) -> (r: Vec<SlangType>)
    ensures
        tys(r@) == tys(v@),
    decreases v,
{
    let mut out: Vec<SlangType> = Vec::new();
    let mut i: usize = 0;
    while i < v.len()
        invariant
            i <= v@.len(),
            out@.len() == i,
            forall|j: int| 0 <= j < i ==> (#[trigger] out@[j]).ty() == v@[j].ty(),
        decreases v@.len() - i,
    {
        out.push(v[i].copy());
        i = i + 1;
    }
    proof {
        lemma_tys(out@);
        lemma_tys(v@);
        assert(tys(out@) =~= tys(v@));
    }
    out
}


/// The two types are equal.
pub fn same_type(a: &SlangType, b: &SlangType) -> (r: bool)
    ensures
        r == (a.ty() == b.ty()),
    decreases a,
{
    match (a, b) {
        (SlangType::Undefined, SlangType::Undefined) => true,
        (SlangType::Basic(x), SlangType::Basic(y)) => *x == *y,
        (SlangType::TypeConstructor(x), SlangType::TypeConstructor(y)) => same_type(&**x, &**y),
        (SlangType::Opaque, SlangType::Opaque) => true,
        (SlangType::TypeVar(x), SlangType::TypeVar(y)) => {
            x.id == y.id && crate::text::str_eq(x.name.as_str(), y.name.as_str())
        },
        (SlangType::Array(x), SlangType::Array(y)) => {
            x.size == y.size && same_type(&*x.element_type, &*y.element_type)
        },
        (SlangType::User(x), SlangType::User(y)) => match (x, y) {
            (UserType::Struct(s), UserType::Struct(t)) => {
                s.struct_id == t.struct_id && same_types(&s.type_arguments, &t.type_arguments)
            },
            (UserType::Union(s), UserType::Union(t)) => *s == *t,
            (UserType::Enum(s), UserType::Enum(t)) => {
                s.enum_id == t.enum_id && same_types(&s.type_arguments, &t.type_arguments)
            },
            (UserType::Class(s), UserType::Class(t)) => {
                s.class_id == t.class_id && same_types(&s.type_arguments, &t.type_arguments)
            },
            (UserType::Function(s), UserType::Function(t)) => compatible_signature(&**s, &**t),
            _ => false,
        },
        (SlangType::Void, SlangType::Void) => true,
        (SlangType::Unresolved, SlangType::Unresolved) => true,
        _ => false,
    }
}

/// The two sequences of types are equal, element by element.
pub fn same_types(a: &Vec<SlangType>, b: &Vec<SlangType>) -> (r: bool)
    ensures
        r == (tys(a@) == tys(b@)),
    decreases a,
{
    proof {
        lemma_tys(a@);
        lemma_tys(b@);
    }
    if a.len() != b.len() {
        return false;
    }
    let mut i: usize = 0;
    while i < a.len()
        invariant
            i <= a@.len(),
            a@.len() == b@.len(),
            tys(a@).len() == a@.len(),
            tys(b@).len() == b@.len(),
            forall|j: int| 0 <= j < a@.len() ==> #[trigger] tys(a@)[j] == a@[j].ty(),
            forall|j: int| 0 <= j < b@.len() ==> #[trigger] tys(b@)[j] == b@[j].ty(),
            forall|j: int| 0 <= j < i ==> a@[j].ty() == b@[j].ty(),
        decreases a@.len() - i,
    {
        if !same_type(&a[i], &b[i]) {
            assert(tys(a@)[i as int] != tys(b@)[i as int]);
            return false;
        }
        i = i + 1;
    }
    assert(tys(a@) =~= tys(b@));
    true
}

/// Two signatures are compatible: the same parameter types and the same return type.
pub fn compatible_signature(a: &FunctionSignature, b: &FunctionSignature) -> (r: bool)
    ensures
        r == (SlangType::User(UserType::Function(Box::new(*a))).ty() == SlangType::User(
            UserType::Function(Box::new(*b)),
        ).ty()),
    decreases a,
{
    proof {
        lemma_param_tys(a.parameters@);
        lemma_param_tys(b.parameters@);
    }
    let ghost pa = param_tys(a.parameters@);
    let ghost pb = param_tys(b.parameters@);
    if a.parameters.len() != b.parameters.len() {
        assert(pa.len() != pb.len());
        return false;
    }
    let mut i: usize = 0;
    while i < a.parameters.len()
        invariant
            i <= a.parameters@.len(),
            a.parameters@.len() == b.parameters@.len(),
            pa == param_tys(a.parameters@),
            pb == param_tys(b.parameters@),
            pa.len() == a.parameters@.len(),
            pb.len() == b.parameters@.len(),
            forall|j: int| 0 <= j < pa.len() ==> #[trigger] pa[j] == a.parameters@[j].typ.ty(),
            forall|j: int| 0 <= j < pb.len() ==> #[trigger] pb[j] == b.parameters@[j].typ.ty(),
            forall|j: int| 0 <= j < i ==> pa[j] == pb[j],
        decreases a.parameters@.len() - i,
    {
        if !same_type(&a.parameters[i].typ, &b.parameters[i].typ) {
            assert(pa[i as int] != pb[i as int]);
            return false;
        }
        i = i + 1;
    }
    assert(pa =~= pb);
    match (&a.return_type, &b.return_type) {
        (Some(x), Some(y)) => same_type(x, y),
        (None, None) => true,
        _ => false,
    }
}


// ---------------------------------------------------------------------------
// What the type definitions of a program say about types.

#[derive(Clone, Copy, Debug, PartialEq, Eq, Structural)]
pub enum DefKind {
    Struct,
    Union,
    Class,
    Enum,
}

/// What a type definition holds: its kind, name, type parameters, the types
/// of its fields and of its methods.
pub struct DefInfo {
    pub kind: DefKind,
    pub name: Seq<char>,
    pub id: nat,
    pub params: Seq<(Seq<char>, nat)>,
    pub fields: Seq<(Seq<char>, Ty)>,
    pub methods: Seq<(Seq<char>, Ty)>,
    /// For an enum: the name of each variant and the types of its payload.
    pub variants: Seq<(Seq<char>, Seq<Ty>)>,
}

pub open spec fn param_names(ps: Seq<NameNodeId>) -> Seq<(Seq<char>, nat)> {
    ps.map_values(|p: NameNodeId| (p.name@, p.id as nat))
}

pub open spec fn field_infos(fs: Seq<FieldDef>) -> Seq<(Seq<char>, Ty)> {
    fs.map_values(|f: FieldDef| (f.name@, f.typ.ty()))
}

pub open spec fn variant_infos(vs: Seq<EnumVariant>) -> Seq<(Seq<char>, Seq<Ty>)> {
    vs.map_values(|v: EnumVariant| (v.name@, tys(v.data@)))
}

/// The type of a function with this signature.
pub open spec fn signature_ty(sig: FunctionSignature) -> Ty {
    SlangType::User(UserType::Function(Box::new(sig))).ty()
}

pub open spec fn method_infos(ms: Seq<FunctionDef>) -> Seq<(Seq<char>, Ty)> {
    ms.map_values(|m: FunctionDef| (m.name.name@, signature_ty(m.signature)))
}

/// What a definition says about a type, if it defines one.
pub open spec fn def_info(d: Definition) -> Option<DefInfo> {
    match d {
        Definition::Struct(sd) => Some(DefInfo {
            kind: DefKind::Struct,
            name: sd.name.name@,
            id: sd.name.id as nat,
            params: param_names(sd.type_parameters@),
            fields: field_infos(sd.fields@),
            methods: Seq::empty(),
            variants: Seq::empty(),
        }),
        Definition::Union(sd) => Some(DefInfo {
            kind: DefKind::Union,
            name: sd.name.name@,
            id: sd.name.id as nat,
            params: param_names(sd.type_parameters@),
            fields: field_infos(sd.fields@),
            methods: Seq::empty(),
            variants: Seq::empty(),
        }),
        Definition::Class(cd) => Some(DefInfo {
            kind: DefKind::Class,
            name: cd.name.name@,
            id: cd.name.id as nat,
            params: param_names(cd.type_parameters@),
            fields: field_infos(cd.fields@),
            methods: method_infos(cd.methods@),
            variants: Seq::empty(),
        }),
        Definition::Enum(ed) => Some(DefInfo {
            kind: DefKind::Enum,
            name: ed.name.name@,
            id: ed.name.id as nat,
            params: param_names(ed.type_parameters@),
            fields: Seq::empty(),
            methods: Seq::empty(),
            variants: variant_infos(ed.variants@),
        }),
        Definition::Function(_) => None,
    }
}

/// The type definitions among the definitions, in order.
pub open spec fn def_infos(defs: Seq<Definition>) -> Seq<DefInfo>
    decreases defs.len(),
{
    if defs.len() == 0 {
        Seq::empty()
    } else {
        let rest = def_infos(defs.drop_last());
        match def_info(defs.last()) {
            Some(i) => rest.push(i),
            None => rest,
        }
    }
}

/// The position of the first definition with node id `id`.
pub open spec fn find_info(tab: Seq<DefInfo>, id: nat) -> Option<int>
    decreases tab.len(),
{
    if tab.len() == 0 {
        None
    } else if tab[0].id == id {
        Some(0)
    } else {
        match find_info(tab.drop_first(), id) {
            Some(k) => Some(k + 1),
            None => None,
        }
    }
}

/// The definition with node id `id`, if there is one of the given kind.
pub open spec fn info_of(tab: Seq<DefInfo>, id: nat, kind: DefKind) -> Option<DefInfo> {
    match find_info(tab, id) {
        Some(k) => if tab[k].kind == kind {
            Some(tab[k])
        } else {
            None
        },
        None => None,
    }
}

pub proof fn lemma_find_info(tab: Seq<DefInfo>, id: nat)
    ensures
        find_info(tab, id) matches Some(k) ==> 0 <= k < tab.len() && tab[k].id == id,
    decreases tab.len(),
{
    if tab.len() > 0 && tab[0].id != id {
        lemma_find_info(tab.drop_first(), id);
    }
}

/// The type refers only to definitions that exist, with as many type
/// arguments as they have parameters; nothing in it is unresolved, and it is
/// no type of a type.
pub open spec fn ty_wf(tab: Seq<DefInfo>, t: Ty) -> bool
    decreases t,
{
    match t {
        Ty::Unresolved => false,
        Ty::TypeCon(_) => false,
        Ty::Array(b, _) => ty_wf(tab, *b),
        Ty::Struct(id, args) => {
            &&& info_of(tab, id, DefKind::Struct) matches Some(d)
            &&& d.params.len() == args.len()
            &&& all_wf(tab, args)
        },
        Ty::Union(id) => info_of(tab, id, DefKind::Union) matches Some(d) && d.params.len() == 0,
        Ty::Enum(id, args) => {
            &&& info_of(tab, id, DefKind::Enum) matches Some(d)
            &&& d.params.len() == args.len()
            &&& all_wf(tab, args)
        },
        Ty::Class(id, args) => {
            &&& info_of(tab, id, DefKind::Class) matches Some(d)
            &&& d.params.len() == args.len()
            &&& all_wf(tab, args)
        },
        Ty::Function(ps, r) => all_wf(tab, ps) && match r {
            Some(b) => ty_wf(tab, *b),
            None => true,
        },
        _ => true,
    }
}

pub open spec fn all_wf(tab: Seq<DefInfo>, s: Seq<Ty>) -> bool
    decreases s,
{
    if s.len() == 0 {
        true
    } else {
        ty_wf(tab, s[0]) && all_wf(tab, s.drop_first())
    }
}

pub proof fn lemma_all_wf(tab: Seq<DefInfo>, s: Seq<Ty>)
    ensures
        all_wf(tab, s) <==> forall|i: int| 0 <= i < s.len() ==> ty_wf(tab, #[trigger] s[i]),
    decreases s.len(),
{
    if s.len() > 0 {
        lemma_all_wf(tab, s.drop_first());
        if forall|i: int| 0 <= i < s.len() ==> ty_wf(tab, #[trigger] s[i]) {
            assert forall|i: int| 0 <= i < s.len() - 1 implies ty_wf(tab, #[trigger] s.drop_first()[i]) by {
                assert(ty_wf(tab, s[i + 1]));
            }
        }
        if all_wf(tab, s) {
            assert forall|i: int| 0 <= i < s.len() implies ty_wf(tab, #[trigger] s[i]) by {
                if i > 0 {
                    assert(s[i] == s.drop_first()[i - 1]);
                }
            }
        }
    }
}

/// A well-formed type is resolved.
pub proof fn lemma_wf_resolved(tab: Seq<DefInfo>, t: Ty)
    requires
        ty_wf(tab, t),
    ensures
        resolved(t),
    decreases t,
{
    match t {
        Ty::Array(b, _) => lemma_wf_resolved(tab, *b),
        Ty::Struct(_, args) => lemma_all_wf_resolved(tab, args),
        Ty::Enum(_, args) => lemma_all_wf_resolved(tab, args),
        Ty::Class(_, args) => lemma_all_wf_resolved(tab, args),
        Ty::Function(ps, r) => {
            lemma_all_wf_resolved(tab, ps);
            if let Some(b) = r {
                lemma_wf_resolved(tab, *b);
            }
        },
        _ => {},
    }
}

pub proof fn lemma_all_wf_resolved(tab: Seq<DefInfo>, s: Seq<Ty>)
    requires
        all_wf(tab, s),
    ensures
        all_resolved(s),
    decreases s,
{
    if s.len() > 0 {
        lemma_wf_resolved(tab, s[0]);
        lemma_all_wf_resolved(tab, s.drop_first());
    }
}

// ---------------------------------------------------------------------------
// Substitution of type variables.

/// The argument bound to the type variable `name`: that of the last parameter
/// with this name.
pub open spec fn lookup_var(params: Seq<(Seq<char>, nat)>, args: Seq<Ty>, name: Seq<char>) -> Option<Ty>
    decreases params.len(),
{
    if params.len() == 0 {
        None
    } else if params.last().0 == name {
        Some(args[params.len() - 1])
    } else {
        lookup_var(params.drop_last(), args, name)
    }
}

/// The type with each of its type variables replaced by the argument bound to
/// it: at the top, in array element types, in the type arguments of struct,
/// enum and class types, and in function parameter and return types.
pub open spec fn subst(params: Seq<(Seq<char>, nat)>, args: Seq<Ty>, t: Ty) -> Ty
    decreases t,
{
    match t {
        Ty::Var(name, _) => match lookup_var(params, args, name) {
            Some(a) => a,
            None => t,
        },
        Ty::Array(b, n) => Ty::Array(Box::new(subst(params, args, *b)), n),
        Ty::Struct(id, targs) => Ty::Struct(id, subst_all(params, args, targs)),
        Ty::Enum(id, targs) => Ty::Enum(id, subst_all(params, args, targs)),
        Ty::Class(id, targs) => Ty::Class(id, subst_all(params, args, targs)),
        Ty::Function(ps, r) => Ty::Function(
            subst_all(params, args, ps),
            match r {
                Some(b) => Some(Box::new(subst(params, args, *b))),
                None => None,
            },
        ),
        _ => t,
    }
}

pub open spec fn subst_all(params: Seq<(Seq<char>, nat)>, args: Seq<Ty>, s: Seq<Ty>) -> Seq<Ty>
    decreases s,
{
    if s.len() == 0 {
        Seq::empty()
    } else {
        seq![subst(params, args, s[0])] + subst_all(params, args, s.drop_first())
    }
}

/// Every type variable that substitution meets is bound.
pub open spec fn subst_ok(params: Seq<(Seq<char>, nat)>, t: Ty) -> bool
    decreases t,
{
    match t {
        Ty::Var(name, _) => exists|i: int| 0 <= i < params.len() && (#[trigger] params[i]).0 == name,
        Ty::Array(b, _) => subst_ok(params, *b),
        Ty::Struct(_, targs) => all_subst_ok(params, targs),
        Ty::Enum(_, targs) => all_subst_ok(params, targs),
        Ty::Class(_, targs) => all_subst_ok(params, targs),
        Ty::Function(ps, r) => all_subst_ok(params, ps) && match r {
            Some(b) => subst_ok(params, *b),
            None => true,
        },
        _ => true,
    }
}

pub open spec fn all_subst_ok(params: Seq<(Seq<char>, nat)>, s: Seq<Ty>) -> bool
    decreases s,
{
    if s.len() == 0 {
        true
    } else {
        subst_ok(params, s[0]) && all_subst_ok(params, s.drop_first())
    }
}


pub proof fn lemma_subst_all(params: Seq<(Seq<char>, nat)>, args: Seq<Ty>, s: Seq<Ty>)
    ensures
        subst_all(params, args, s).len() == s.len(),
        forall|i: int| 0 <= i < s.len() ==> #[trigger] subst_all(params, args, s)[i] == subst(params, args, s[i]),
    decreases s.len(),
{
    if s.len() > 0 {
        lemma_subst_all(params, args, s.drop_first());
        assert forall|i: int| 0 <= i < s.len() implies #[trigger] subst_all(params, args, s)[i] == subst(params, args, s[i]) by {
            if i > 0 {
                assert(subst_all(params, args, s)[i] == subst_all(params, args, s.drop_first())[i - 1]);
            }
        }
    }
}

pub proof fn lemma_all_subst_ok(params: Seq<(Seq<char>, nat)>, s: Seq<Ty>)
    ensures
        all_subst_ok(params, s) <==> forall|i: int| 0 <= i < s.len() ==> subst_ok(params, #[trigger] s[i]),
    decreases s.len(),
{
    if s.len() > 0 {
        lemma_all_subst_ok(params, s.drop_first());
        if forall|i: int| 0 <= i < s.len() ==> subst_ok(params, #[trigger] s[i]) {
            assert forall|i: int| 0 <= i < s.len() - 1 implies subst_ok(params, #[trigger] s.drop_first()[i]) by {
                assert(subst_ok(params, s[i + 1]));
            }
        }
        if all_subst_ok(params, s) {
            assert forall|i: int| 0 <= i < s.len() implies subst_ok(params, #[trigger] s[i]) by {
                if i > 0 {
                    assert(s[i] == s.drop_first()[i - 1]);
                }
            }
        }
    }
}

/// A bound variable is found, and it is bound to one of the arguments.
pub proof fn lemma_lookup_var(params: Seq<(Seq<char>, nat)>, args: Seq<Ty>, name: Seq<char>)
    ensures
        (exists|i: int| 0 <= i < params.len() && (#[trigger] params[i]).0 == name) ==> lookup_var(params, args, name) is Some,
        lookup_var(params, args, name) matches Some(a) ==> exists|k: int| 0 <= k < params.len() && a == args[k],
    decreases params.len(),
{
    if params.len() > 0 {
        lemma_lookup_var(params.drop_last(), args, name);
        if params.last().0 != name {
            if exists|i: int| 0 <= i < params.len() && (#[trigger] params[i]).0 == name {
                let i = choose|i: int| 0 <= i < params.len() && (#[trigger] params[i]).0 == name;
                assert(params.drop_last()[i].0 == name);
            }
            if lookup_var(params, args, name) is Some {
                let k = choose|k: int| 0 <= k < params.drop_last().len() && lookup_var(params, args, name)->0 == args[k];
                assert(0 <= k < params.len());
            }
        } else {
            assert(lookup_var(params, args, name)->0 == args[params.len() - 1]);
        }
    }
}

/// Each type variable in the type is one of the parameters, by name and id.
pub open spec fn vars_among(params: Seq<(Seq<char>, nat)>, t: Ty) -> bool
    decreases t,
{
    match t {
        Ty::Var(name, id) => params.contains((name, id)),
        Ty::Array(b, _) => vars_among(params, *b),
        Ty::Struct(_, args) => forall|i: int| 0 <= i < args.len() ==> vars_among(params, #[trigger] args[i]),
        Ty::Enum(_, args) => forall|i: int| 0 <= i < args.len() ==> vars_among(params, #[trigger] args[i]),
        Ty::Class(_, args) => forall|i: int| 0 <= i < args.len() ==> vars_among(params, #[trigger] args[i]),
        Ty::Function(ps, r) => (forall|i: int| 0 <= i < ps.len() ==> vars_among(params, #[trigger] ps[i])) && match r {
            Some(b) => vars_among(params, *b),
            None => true,
        },
        _ => true,
    }
}

/// The parameters as type variables.
pub open spec fn param_vars(params: Seq<(Seq<char>, nat)>) -> Seq<Ty> {
    params.map_values(|p: (Seq<char>, nat)| Ty::Var(p.0, p.1))
}

proof fn lemma_lookup_self(params: Seq<(Seq<char>, nat)>, name: Seq<char>, id: nat)
    requires
        params.contains((name, id)),
        forall|i: int, j: int| 0 <= i < j < params.len() ==> (#[trigger] params[i]).0 != (#[trigger] params[j]).0,
    ensures
        lookup_var(params, param_vars(params), name) == Some(Ty::Var(name, id)),
    decreases params.len(),
{
    let last = params.len() - 1;
    if params[last] == (name, id) {
    } else {
        let k = choose|k: int| 0 <= k < params.len() && params[k] == (name, id);
        assert(k != last);
        assert(params[last].0 != name);
        let pre = params.drop_last();
        assert(pre[k] == (name, id));
        assert forall|i: int, j: int| 0 <= i < j < pre.len() implies (#[trigger] pre[i]).0 != (#[trigger] pre[j]).0 by {
            assert(pre[i] == params[i] && pre[j] == params[j]);
        }
        lemma_lookup_self(pre, name, id);
        assert forall|n: Seq<char>| lookup_var(pre, param_vars(pre), n) == lookup_var(pre, param_vars(params), n) by {
            lemma_lookup_prefix(pre, param_vars(pre), param_vars(params), n);
        }
    }
}

proof fn lemma_lookup_prefix(params: Seq<(Seq<char>, nat)>, a: Seq<Ty>, b: Seq<Ty>, n: Seq<char>)
    requires
        a.len() >= params.len(),
        b.len() >= params.len(),
        forall|i: int| 0 <= i < params.len() ==> a[i] == b[i],
    ensures
        lookup_var(params, a, n) == lookup_var(params, b, n),
    decreases params.len(),
{
    if params.len() > 0 {
        lemma_lookup_prefix(params.drop_last(), a, b, n);
    }
}

/// Putting each parameter in for itself leaves a type unchanged, where the
/// parameters have distinct names and every type variable of the type is one
/// of them.
pub proof fn lemma_subst_self(params: Seq<(Seq<char>, nat)>, t: Ty)
    requires
        forall|i: int, j: int| 0 <= i < j < params.len() ==> (#[trigger] params[i]).0 != (#[trigger] params[j]).0,
        vars_among(params, t),
    ensures
        subst(params, param_vars(params), t) == t,
    decreases t,
{
    let pv = param_vars(params);
    match t {
        Ty::Var(name, id) => lemma_lookup_self(params, name, id),
        Ty::Array(b, _) => lemma_subst_self(params, *b),
        Ty::Struct(_, args) | Ty::Enum(_, args) | Ty::Class(_, args) => {
            lemma_subst_all(params, pv, args);
            assert forall|i: int| 0 <= i < args.len() implies subst(params, pv, #[trigger] args[i]) == args[i] by {
                lemma_subst_self(params, args[i]);
            }
            assert(subst_all(params, pv, args) =~= args);
        },
        Ty::Function(ps, r) => {
            lemma_subst_all(params, pv, ps);
            assert forall|i: int| 0 <= i < ps.len() implies subst(params, pv, #[trigger] ps[i]) == ps[i] by {
                lemma_subst_self(params, ps[i]);
            }
            assert(subst_all(params, pv, ps) =~= ps);
            match r {
                Some(b) => lemma_subst_self(params, *b),
                None => {},
            }
        },
        _ => {},
    }
}

/// Substitution keeps a type well formed.
pub proof fn lemma_subst_wf(tab: Seq<DefInfo>, params: Seq<(Seq<char>, nat)>, args: Seq<Ty>, t: Ty)
    requires
        ty_wf(tab, t),
        subst_ok(params, t),
        all_wf(tab, args),
        params.len() == args.len(),
    ensures
        ty_wf(tab, subst(params, args, t)),
    decreases t,
{
    match t {
        Ty::Var(name, _) => {
            lemma_lookup_var(params, args, name);
            lemma_all_wf(tab, args);
            let k = choose|k: int| 0 <= k < params.len() && lookup_var(params, args, name)->0 == args[k];
            assert(ty_wf(tab, args[k]));
        },
        Ty::Struct(id, targs) => {
            lemma_subst_all(params, args, targs);
            lemma_all_wf(tab, targs);
            lemma_all_subst_ok(params, targs);
            let r = subst_all(params, args, targs);
            assert forall|i: int| 0 <= i < r.len() implies ty_wf(tab, #[trigger] r[i]) by {
                lemma_subst_wf(tab, params, args, targs[i]);
            }
            lemma_all_wf(tab, r);
        },
        Ty::Enum(id, targs) => {
            lemma_subst_all(params, args, targs);
            lemma_all_wf(tab, targs);
            lemma_all_subst_ok(params, targs);
            let r = subst_all(params, args, targs);
            assert forall|i: int| 0 <= i < r.len() implies ty_wf(tab, #[trigger] r[i]) by {
                lemma_subst_wf(tab, params, args, targs[i]);
            }
            lemma_all_wf(tab, r);
        },
        Ty::Class(id, targs) => {
            lemma_subst_all(params, args, targs);
            lemma_all_wf(tab, targs);
            lemma_all_subst_ok(params, targs);
            let r = subst_all(params, args, targs);
            assert forall|i: int| 0 <= i < r.len() implies ty_wf(tab, #[trigger] r[i]) by {
                lemma_subst_wf(tab, params, args, targs[i]);
            }
            lemma_all_wf(tab, r);
        },
        Ty::Array(b, _) => {
            lemma_subst_wf(tab, params, args, *b);
        },
        Ty::Function(ps, ret) => {
            lemma_subst_all(params, args, ps);
            lemma_all_wf(tab, ps);
            lemma_all_subst_ok(params, ps);
            let r = subst_all(params, args, ps);
            assert forall|i: int| 0 <= i < r.len() implies ty_wf(tab, #[trigger] r[i]) by {
                lemma_subst_wf(tab, params, args, ps[i]);
            }
            lemma_all_wf(tab, r);
            match ret {
                Some(b) => lemma_subst_wf(tab, params, args, *b),
                None => {},
            }
        },
        _ => {},
    }
}

/// The position of the last parameter named `name`.
fn lookup_type_var(params: &Vec<NameNodeId>, name: &str) -> (r: Option<usize>)
    ensures
        forall|args: Seq<Ty>| {
            &&& r matches Some(k) ==> k < params@.len() && #[trigger] lookup_var(param_names(params@), args, name@) == Some(args[k as int])
            &&& r is None ==> lookup_var(param_names(params@), args, name@) is None
        },
{
    let ghost ps = param_names(params@);
    let mut i: usize = params.len();
    assert(ps.take(i as int) =~= ps);
    while i > 0
        invariant
            i <= params@.len(),
            ps == param_names(params@),
            forall|args: Seq<Ty>| #[trigger] lookup_var(ps, args, name@) == lookup_var(ps.take(i as int), args, name@),
        decreases i,
    {
        assert(ps.take(i as int).last() == ps[i - 1]);
        assert(ps.take(i as int).drop_last() =~= ps.take(i - 1));
        if crate::text::str_eq(params[i - 1].name.as_str(), name) {
            return Some(i - 1);
        }
        i = i - 1;
    }
    None
}

/// The type with its type variables replaced by the arguments bound to them.
pub fn replace_type_vars(params: &Vec<NameNodeId>, args: &Vec<SlangType>, t: &SlangType) -> (r: SlangType)
    requires
        params@.len() == args@.len(),
        subst_ok(param_names(params@), t.ty()),
    ensures
        r.ty() == subst(param_names(params@), tys(args@), t.ty()),
    decreases t,
{
    proof {
        lemma_tys(args@);
    }
    match t {
        SlangType::TypeVar(n) => {
            proof {
                lemma_lookup_var(param_names(params@), tys(args@), n.name@);
            }
            match lookup_type_var(params, n.name.as_str()) {
                Some(k) => args[k].copy(),
                None => t.copy(),
            }
        },
        SlangType::User(UserType::Struct(st)) => {
            let targs = replace_all_type_vars(params, args, &st.type_arguments);
            SlangType::User(UserType::Struct(StructType { struct_id: st.struct_id, type_arguments: targs }))
        },
        SlangType::User(UserType::Enum(et)) => {
            let targs = replace_all_type_vars(params, args, &et.type_arguments);
            SlangType::User(UserType::Enum(EnumType { enum_id: et.enum_id, type_arguments: targs }))
        },
        SlangType::User(UserType::Class(ct)) => {
            let targs = replace_all_type_vars(params, args, &ct.type_arguments);
            SlangType::User(UserType::Class(ClassType { class_id: ct.class_id, type_arguments: targs }))
        },
        SlangType::Array(a) => {
            let e = replace_type_vars(params, args, &a.element_type);
            SlangType::Array(ArrayType { element_type: Box::new(e), size: a.size })
        },
        SlangType::User(UserType::Function(sig)) => {
            let sig2 = replace_signature_type_vars(params, args, sig);
            SlangType::User(UserType::Function(Box::new(sig2)))
        },
        _ => t.copy(),
    }
}

/// The signature with the type variables in its parameter and return types
/// replaced by the arguments bound to them.
fn replace_signature_type_vars(params: &Vec<NameNodeId>, args: &Vec<SlangType>, sig: &FunctionSignature) -> (r: FunctionSignature)
    requires
        params@.len() == args@.len(),
        subst_ok(param_names(params@), signature_ty(*sig)),
    ensures
        signature_ty(r) == subst(param_names(params@), tys(args@), signature_ty(*sig)),
    decreases sig,
{
    let ghost ps = param_names(params@);
    let ghost at = tys(args@);
    proof {
        lemma_param_tys(sig.parameters@);
        lemma_all_subst_ok(ps, param_tys(sig.parameters@));
        lemma_subst_all(ps, at, param_tys(sig.parameters@));
        assert forall|j: int| 0 <= j < sig.parameters@.len() implies subst_ok(ps, #[trigger] sig.parameters@[j].typ.ty()) by {
            assert(subst_ok(ps, param_tys(sig.parameters@)[j]));
        }
    }
    let mut parameters: Vec<Parameter> = Vec::new();
    let mut i: usize = 0;
    while i < sig.parameters.len()
        invariant
            i <= sig.parameters@.len(),
            params@.len() == args@.len(),
            ps == param_names(params@),
            at == tys(args@),
            parameters@.len() == i,
            forall|j: int| 0 <= j < sig.parameters@.len() ==> subst_ok(ps, #[trigger] sig.parameters@[j].typ.ty()),
            forall|j: int| 0 <= j < i ==> (#[trigger] parameters@[j]).typ.ty() == subst(ps, at, sig.parameters@[j].typ.ty()),
        decreases sig.parameters@.len() - i,
    {
        let p = &sig.parameters[i];
        let typ = replace_type_vars(params, args, &p.typ);
        parameters.push(Parameter { location: p.location, name: p.name.copy(), typ });
        i = i + 1;
    }
    proof {
        lemma_param_tys(parameters@);
        assert(param_tys(parameters@) =~= subst_all(ps, at, param_tys(sig.parameters@)));
    }
    let return_type = match &sig.return_type {
        Some(t) => Some(replace_type_vars(params, args, t)),
        None => None,
    };
    FunctionSignature { parameters, return_type }
}

pub fn replace_all_type_vars(params: &Vec<NameNodeId>, args: &Vec<SlangType>, v: &Vec<SlangType>) -> (r: Vec<SlangType>)
    requires
        params@.len() == args@.len(),
        all_subst_ok(param_names(params@), tys(v@)),
    ensures
        tys(r@) == subst_all(param_names(params@), tys(args@), tys(v@)),
    decreases v,
{
    proof {
        lemma_tys(v@);
        lemma_all_subst_ok(param_names(params@), tys(v@));
        lemma_subst_all(param_names(params@), tys(args@), tys(v@));
    }
    let mut out: Vec<SlangType> = Vec::new();
    let mut i: usize = 0;
    while i < v.len()
        invariant
            i <= v@.len(),
            params@.len() == args@.len(),
            out@.len() == i,
            tys(v@).len() == v@.len(),
            forall|j: int| 0 <= j < v@.len() ==> #[trigger] tys(v@)[j] == v@[j].ty(),
            forall|j: int| 0 <= j < v@.len() ==> subst_ok(param_names(params@), #[trigger] tys(v@)[j]),
            forall|j: int| 0 <= j < i ==> (#[trigger] out@[j]).ty() == subst(param_names(params@), tys(args@), v@[j].ty()),
        decreases v@.len() - i,
    {
        assert(subst_ok(param_names(params@), tys(v@)[i as int]));
        out.push(replace_type_vars(params, args, &v[i]));
        i = i + 1;
    }
    proof {
        lemma_tys(out@);
        assert(tys(out@) =~= subst_all(param_names(params@), tys(args@), tys(v@)));
    }
    out
}


// ---------------------------------------------------------------------------
// The table of type definitions, as the checker holds it while it works.

/// A type definition of the program: the parts that give types meaning.
pub struct TypeDefEntry {
    pub kind: DefKind,
    pub name: NameNodeId,
    pub type_parameters: Vec<NameNodeId>,
    pub fields: Vec<(String, SlangType)>,
    pub methods: Vec<(String, SlangType)>,
    pub variants: Vec<(String, Vec<SlangType>)>,
}

pub open spec fn named_tys(s: Seq<(String, SlangType)>) -> Seq<(Seq<char>, Ty)> {
    s.map_values(|f: (String, SlangType)| (f.0@, f.1.ty()))
}

pub open spec fn variant_tys(s: Seq<(String, Vec<SlangType>)>) -> Seq<(Seq<char>, Seq<Ty>)> {
    s.map_values(|v: (String, Vec<SlangType>)| (v.0@, tys(v.1@)))
}

impl TypeDefEntry {
    pub open spec fn info(self) -> DefInfo {
        DefInfo {
            kind: self.kind,
            name: self.name.name@,
            id: self.name.id as nat,
            params: param_names(self.type_parameters@),
            fields: named_tys(self.fields@),
            methods: named_tys(self.methods@),
            variants: variant_tys(self.variants@),
        }
    }
}

pub open spec fn infos(tab: Seq<TypeDefEntry>) -> Seq<DefInfo> {
    tab.map_values(|e: TypeDefEntry| e.info())
}

fn copy_names(v: &Vec<NameNodeId>) -> (r: Vec<NameNodeId>)
    ensures
        param_names(r@) == param_names(v@),
{
    let mut out: Vec<NameNodeId> = Vec::new();
    let mut i: usize = 0;
    while i < v.len()
        invariant
            i <= v@.len(),
            out@.len() == i,
            forall|j: int| 0 <= j < i ==> (#[trigger] out@[j]).name == v@[j].name && out@[j].id == v@[j].id,
        decreases v@.len() - i,
    {
        out.push(v[i].copy());
        i = i + 1;
    }
    assert(param_names(out@) =~= param_names(v@));
    out
}

fn field_entries(fields: &Vec<FieldDef>) -> (r: Vec<(String, SlangType)>)
    ensures
        named_tys(r@) == field_infos(fields@),
{
    let mut out: Vec<(String, SlangType)> = Vec::new();
    let mut i: usize = 0;
    while i < fields.len()
        invariant
            i <= fields@.len(),
            out@.len() == i,
            forall|j: int| 0 <= j < i ==> (#[trigger] out@[j]).0 == fields@[j].name && out@[j].1.ty() == fields@[j].typ.ty(),
        decreases fields@.len() - i,
    {
        out.push((fields[i].name.clone(), fields[i].typ.copy()));
        i = i + 1;
    }
    assert(named_tys(out@) =~= field_infos(fields@));
    out
}

/// The type of a function with the given signature.
pub fn signature_type(sig: &FunctionSignature) -> (r: SlangType)
    ensures
        r.ty() == signature_ty(*sig),
{
    let c = sig.copy();
    let r = SlangType::User(UserType::Function(Box::new(c)));
    assert(r.ty() == signature_ty(*sig));
    r
}

fn method_entries(methods: &Vec<FunctionDef>) -> (r: Vec<(String, SlangType)>)
    ensures
        named_tys(r@) == method_infos(methods@),
{
    let mut out: Vec<(String, SlangType)> = Vec::new();
    let mut i: usize = 0;
    while i < methods.len()
        invariant
            i <= methods@.len(),
            out@.len() == i,
            forall|j: int| 0 <= j < i ==> (#[trigger] out@[j]).0 == methods@[j].name.name && out@[j].1.ty() == signature_ty(methods@[j].signature),
        decreases methods@.len() - i,
    {
        out.push((methods[i].name.name.clone(), signature_type(&methods[i].signature)));
        i = i + 1;
    }
    assert(named_tys(out@) =~= method_infos(methods@));
    out
}

fn variant_entries(variants: &Vec<EnumVariant>) -> (r: Vec<(String, Vec<SlangType>)>)
    ensures
        variant_tys(r@) == variant_infos(variants@),
{
    let mut out: Vec<(String, Vec<SlangType>)> = Vec::new();
    let mut i: usize = 0;
    while i < variants.len()
        invariant
            i <= variants@.len(),
            out@.len() == i,
            forall|j: int| 0 <= j < i ==> (#[trigger] out@[j]).0 == variants@[j].name && tys(out@[j].1@) == tys(variants@[j].data@),
        decreases variants@.len() - i,
    {
        out.push((variants[i].name.clone(), copy_types(&variants[i].data)));
        i = i + 1;
    }
    assert(variant_tys(out@) =~= variant_infos(variants@));
    out
}

/// The entry for a definition, if it defines a type.
fn type_def_entry(d: &Definition) -> (r: Option<TypeDefEntry>)
    ensures
        match r {
            Some(e) => def_info(*d) == Some(e.info()),
            None => def_info(*d) is None,
        },
{
    assert(named_tys(Seq::<(String, SlangType)>::empty()) =~= Seq::empty());
    assert(variant_tys(Seq::<(String, Vec<SlangType>)>::empty()) =~= Seq::empty());
    assert(param_names(Seq::<NameNodeId>::empty()) =~= Seq::empty());
    match d {
        Definition::Struct(sd) => Some(TypeDefEntry {
            kind: DefKind::Struct,
            name: sd.name.copy(),
            type_parameters: copy_names(&sd.type_parameters),
            fields: field_entries(&sd.fields),
            methods: Vec::new(),
            variants: Vec::new(),
        }),
        Definition::Union(sd) => Some(TypeDefEntry {
            kind: DefKind::Union,
            name: sd.name.copy(),
            type_parameters: copy_names(&sd.type_parameters),
            fields: field_entries(&sd.fields),
            methods: Vec::new(),
            variants: Vec::new(),
        }),
        Definition::Class(cd) => Some(TypeDefEntry {
            kind: DefKind::Class,
            name: cd.name.copy(),
            type_parameters: copy_names(&cd.type_parameters),
            fields: field_entries(&cd.fields),
            methods: method_entries(&cd.methods),
            variants: Vec::new(),
        }),
        Definition::Enum(ed) => Some(TypeDefEntry {
            kind: DefKind::Enum,
            name: ed.name.copy(),
            type_parameters: copy_names(&ed.type_parameters),
            fields: Vec::new(),
            methods: Vec::new(),
            variants: variant_entries(&ed.variants),
        }),
        Definition::Function(_) => None,
    }
}

/// The table of the type definitions among the definitions.
pub fn type_table(defs: &Vec<Definition>) -> (tab: Vec<TypeDefEntry>)
    ensures
        infos(tab@) == def_infos(defs@),
{
    let mut tab: Vec<TypeDefEntry> = Vec::new();
    let mut i: usize = 0;
    while i < defs.len()
        invariant
            i <= defs@.len(),
            infos(tab@) == def_infos(defs@.take(i as int)),
        decreases defs@.len() - i,
    {
        assert(defs@.take(i as int + 1).drop_last() =~= defs@.take(i as int));
        assert(defs@.take(i as int + 1).last() == defs@[i as int]);
        match type_def_entry(&defs[i]) {
            Some(e) => {
                let ghost before = tab@;
                tab.push(e);
                assert(infos(tab@) =~= infos(before).push(e.info()));
            },
            None => {},
        }
        i = i + 1;
    }
    assert(defs@.take(i as int) =~= defs@);
    tab
}


/// Each field and method type of the definition is well formed, and the type
/// variables in field types are parameters of the definition.
pub open spec fn info_wf(tab: Seq<DefInfo>, d: DefInfo) -> bool {
    &&& forall|j: int| 0 <= j < d.fields.len() ==> ty_wf(tab, (#[trigger] d.fields[j]).1) && subst_ok(d.params, d.fields[j].1)
    &&& forall|j: int| 0 <= j < d.methods.len() ==> ty_wf(tab, (#[trigger] d.methods[j]).1)
    &&& forall|j: int, k: int| 0 <= j < d.variants.len() && 0 <= k < d.variants[j].1.len() ==> ty_wf(tab, #[trigger] d.variants[j].1[k])
        && subst_ok(d.params, d.variants[j].1[k])
}

pub open spec fn table_wf(tab: Seq<DefInfo>) -> bool {
    forall|k: int| 0 <= k < tab.len() ==> info_wf(tab, #[trigger] tab[k])
}

/// The type of the first entry named `name`.
pub open spec fn first_named(s: Seq<(Seq<char>, Ty)>, name: Seq<char>) -> Option<Ty>
    decreases s.len(),
{
    if s.len() == 0 {
        None
    } else if s[0].0 == name {
        Some(s[0].1)
    } else {
        first_named(s.drop_first(), name)
    }
}

pub proof fn lemma_first_named(s: Seq<(Seq<char>, Ty)>, name: Seq<char>)
    ensures
        first_named(s, name) matches Some(t) ==> exists|j: int| 0 <= j < s.len() && #[trigger] s[j] == (name, t),
    decreases s.len(),
{
    if s.len() > 0 && s[0].0 != name {
        lemma_first_named(s.drop_first(), name);
        if first_named(s, name) is Some {
            let j = choose|j: int| 0 <= j < s.drop_first().len() && #[trigger] s.drop_first()[j] == (name, first_named(s, name)->0);
            assert(s[j + 1] == s.drop_first()[j]);
        }
    } else if s.len() > 0 {
        assert(s[0] == (name, s[0].1));
    }
}

/// The type of attribute `attr` of a value of type `t`: a field of a struct or
/// union, with the type arguments put in; a field, else a method, of a class.
pub open spec fn attr_ty(tab: Seq<DefInfo>, t: Ty, attr: Seq<char>) -> Option<Ty> {
    match t {
        Ty::Struct(id, args) => match info_of(tab, id, DefKind::Struct) {
            Some(d) => match first_named(d.fields, attr) {
                Some(f) => Some(subst(d.params, args, f)),
                None => None,
            },
            None => None,
        },
        Ty::Union(id) => match info_of(tab, id, DefKind::Union) {
            Some(d) => match first_named(d.fields, attr) {
                Some(f) => Some(subst(d.params, Seq::empty(), f)),
                None => None,
            },
            None => None,
        },
        Ty::Class(id, _) => match info_of(tab, id, DefKind::Class) {
            Some(d) => match first_named(d.fields, attr) {
                Some(f) => Some(f),
                None => first_named(d.methods, attr),
            },
            None => None,
        },
        _ => None,
    }
}

/// The attribute types of well-formed types are well formed.
pub proof fn lemma_attr_wf(tab: Seq<DefInfo>, t: Ty, attr: Seq<char>)
    requires
        table_wf(tab),
        ty_wf(tab, t),
    ensures
        attr_ty(tab, t, attr) matches Some(a) ==> ty_wf(tab, a),
{
    match t {
        Ty::Struct(id, args) => {
            lemma_find_info(tab, id);
            if let Some(d) = info_of(tab, id, DefKind::Struct) {
                let k = find_info(tab, id)->0;
                assert(info_wf(tab, tab[k]));
                lemma_first_named(d.fields, attr);
                if let Some(f) = first_named(d.fields, attr) {
                    let j = choose|j: int| 0 <= j < d.fields.len() && #[trigger] d.fields[j] == (attr, f);
                    assert(ty_wf(tab, d.fields[j].1));
                    lemma_subst_wf(tab, d.params, args, f);
                }
            }
        },
        Ty::Union(id) => {
            lemma_find_info(tab, id);
            if let Some(d) = info_of(tab, id, DefKind::Union) {
                let k = find_info(tab, id)->0;
                assert(info_wf(tab, tab[k]));
                lemma_first_named(d.fields, attr);
                if let Some(f) = first_named(d.fields, attr) {
                    let j = choose|j: int| 0 <= j < d.fields.len() && #[trigger] d.fields[j] == (attr, f);
                    assert(ty_wf(tab, d.fields[j].1));
                    lemma_subst_wf(tab, d.params, Seq::empty(), f);
                }
            }
        },
        Ty::Class(id, _) => {
            lemma_find_info(tab, id);
            if let Some(d) = info_of(tab, id, DefKind::Class) {
                let k = find_info(tab, id)->0;
                assert(info_wf(tab, tab[k]));
                lemma_first_named(d.fields, attr);
                lemma_first_named(d.methods, attr);
                if let Some(f) = first_named(d.fields, attr) {
                    let j = choose|j: int| 0 <= j < d.fields.len() && #[trigger] d.fields[j] == (attr, f);
                    assert(ty_wf(tab, d.fields[j].1));
                } else if let Some(f) = first_named(d.methods, attr) {
                    let j = choose|j: int| 0 <= j < d.methods.len() && #[trigger] d.methods[j] == (attr, f);
                    assert(ty_wf(tab, d.methods[j].1));
                }
            }
        },
        _ => {},
    }
}

/// The position of the first definition with node id `id`.
pub fn find_entry(tab: &Vec<TypeDefEntry>, id: usize) -> (r: Option<usize>)
    ensures
        match r {
            Some(k) => find_info(infos(tab@), id as nat) == Some(k as int) && k < tab@.len(),
            None => find_info(infos(tab@), id as nat) is None,
        },
{
    let ghost t = infos(tab@);
    let mut i: usize = 0;
    assert(t.skip(0) =~= t);
    while i < tab.len()
        invariant
            i <= tab@.len(),
            t == infos(tab@),
            t.len() == tab@.len(),
            find_info(t, id as nat) == match find_info(t.skip(i as int), id as nat) {
                Some(k) => Some(k + i),
                None => None::<int>,
            },
        decreases tab@.len() - i,
    {
        assert(t.skip(i as int).drop_first() =~= t.skip(i as int + 1));
        assert(t[i as int] == tab@[i as int].info());
        if tab[i].name.id == id {
            return Some(i);
        }
        i = i + 1;
    }
    None
}

/// The position of the first entry named `name`.
fn find_named(v: &Vec<(String, SlangType)>, name: &str) -> (r: Option<usize>)
    ensures
        match r {
            Some(j) => j < v@.len() && first_named(named_tys(v@), name@) == Some(v@[j as int].1.ty()),
            None => first_named(named_tys(v@), name@) is None,
        },
{
    let ghost s = named_tys(v@);
    let mut i: usize = 0;
    assert(s.skip(0) =~= s);
    while i < v.len()
        invariant
            i <= v@.len(),
            s == named_tys(v@),
            s.len() == v@.len(),
            first_named(s, name@) == first_named(s.skip(i as int), name@),
        decreases v@.len() - i,
    {
        assert(s.skip(i as int).drop_first() =~= s.skip(i as int + 1));
        assert(s[i as int] == (v@[i as int].0@, v@[i as int].1.ty()));
        if crate::text::str_eq(v[i].0.as_str(), name) {
            return Some(i);
        }
        i = i + 1;
    }
    None
}

/// The type of attribute `attr` of a value of type `t`, if it has one.
pub fn get_attr_type(tab: &Vec<TypeDefEntry>, t: &SlangType, attr: &str) -> (r: Option<SlangType>)
    requires
        table_wf(infos(tab@)),
        ty_wf(infos(tab@), t.ty()),
    ensures
        match r {
            Some(x) => attr_ty(infos(tab@), t.ty(), attr@) == Some(x.ty()),
            None => attr_ty(infos(tab@), t.ty(), attr@) is None,
        },
{
    let ghost it = infos(tab@);
    match t {
        SlangType::User(UserType::Struct(st)) => {
            proof {
                lemma_find_info(it, st.struct_id as nat);
                lemma_tys(st.type_arguments@);
            }
            match find_entry(tab, st.struct_id) {
                Some(k) => {
                    let e = &tab[k];
                    assert(it[k as int] == e.info());
                    match find_named(&e.fields, attr) {
                        Some(j) => {
                            proof {
                                assert(info_wf(it, it[k as int]));
                                assert(it[k as int].fields[j as int] == (e.fields@[j as int].0@, e.fields@[j as int].1.ty()));
                            }
                            Some(replace_type_vars(&e.type_parameters, &st.type_arguments, &e.fields[j].1))
                        },
                        None => None,
                    }
                },
                None => None,
            }
        },
        SlangType::User(UserType::Union(id)) => {
            proof {
                lemma_find_info(it, *id as nat);
            }
            match find_entry(tab, *id) {
                Some(k) => {
                    let e = &tab[k];
                    assert(it[k as int] == e.info());
                    match find_named(&e.fields, attr) {
                        Some(j) => {
                            proof {
                                assert(info_wf(it, it[k as int]));
                                assert(it[k as int].fields[j as int] == (e.fields@[j as int].0@, e.fields@[j as int].1.ty()));
                            }
                            let no_args: Vec<SlangType> = Vec::new();
                            assert(tys(no_args@) =~= Seq::<Ty>::empty());
                            Some(replace_type_vars(&e.type_parameters, &no_args, &e.fields[j].1))
                        },
                        None => None,
                    }
                },
                None => None,
            }
        },
        SlangType::User(UserType::Class(ct)) => {
            proof {
                lemma_find_info(it, ct.class_id as nat);
            }
            match find_entry(tab, ct.class_id) {
                Some(k) => {
                    let e = &tab[k];
                    assert(it[k as int] == e.info());
                    match find_named(&e.fields, attr) {
                        Some(j) => Some(e.fields[j].1.copy()),
                        None => match find_named(&e.methods, attr) {
                            Some(j) => Some(e.methods[j].1.copy()),
                            None => None,
                        },
                    }
                },
                None => None,
            }
        },
        _ => None,
    }
}


/// The types of the fields of a struct type, with its type arguments put in.
pub open spec fn struct_field_tys(tab: Seq<DefInfo>, t: Ty) -> Seq<Ty> {
    match t {
        Ty::Struct(id, args) => {
            let d = info_of(tab, id, DefKind::Struct)->0;
            d.fields.map_values(|f: (Seq<char>, Ty)| subst(d.params, args, f.1))
        },
        _ => Seq::empty(),
    }
}

/// The types of the fields of a struct type, with its type arguments put in.
pub fn struct_field_types(tab: &Vec<TypeDefEntry>, t: &SlangType) -> (r: Vec<SlangType>)
    requires
        table_wf(infos(tab@)),
        ty_wf(infos(tab@), t.ty()),
        t.ty() is Struct,
    ensures
        r@.len() == struct_field_tys(infos(tab@), t.ty()).len(),
        forall|j: int| 0 <= j < r@.len() ==> (#[trigger] r@[j]).ty() == struct_field_tys(infos(tab@), t.ty())[j],
        forall|j: int| 0 <= j < r@.len() ==> ty_wf(infos(tab@), (#[trigger] r@[j]).ty()),
{
    let ghost it = infos(tab@);
    match t {
        SlangType::User(UserType::Struct(st)) => {
            proof {
                lemma_find_info(it, st.struct_id as nat);
                lemma_tys(st.type_arguments@);
            }
            let k = find_entry(tab, st.struct_id).unwrap();
            let e = &tab[k];
            assert(it[k as int] == e.info());
            let ghost d = it[k as int];
            proof {
                assert(info_wf(it, d));
                lemma_all_wf(it, tys(st.type_arguments@));
            }
            let mut out: Vec<SlangType> = Vec::new();
            let mut j: usize = 0;
            while j < e.fields.len()
                invariant
                    j <= e.fields@.len(),
                    d == e.info(),
                    info_wf(it, d),
                    it == infos(tab@),
                    e.type_parameters@.len() == st.type_arguments@.len(),
                    tys(st.type_arguments@).len() == st.type_arguments@.len(),
                    all_wf(it, tys(st.type_arguments@)),
                    out@.len() == j,
                    forall|i: int| 0 <= i < j ==> (#[trigger] out@[i]).ty() == subst(d.params, tys(st.type_arguments@), d.fields[i].1),
                    forall|i: int| 0 <= i < j ==> ty_wf(it, (#[trigger] out@[i]).ty()),
                decreases e.fields@.len() - j,
            {
                assert(d.fields[j as int] == (e.fields@[j as int].0@, e.fields@[j as int].1.ty()));
                let f = replace_type_vars(&e.type_parameters, &st.type_arguments, &e.fields[j].1);
                proof {
                    lemma_subst_wf(it, d.params, tys(st.type_arguments@), d.fields[j as int].1);
                }
                out.push(f);
                j = j + 1;
            }
            out
        },
        _ => Vec::new(),
    }
}


/// The types of the payload of variant `v` of an enum, with the type arguments put in.
pub fn enum_variant_types(tab: &Vec<TypeDefEntry>, et: &EnumType, v: usize) -> (r: Vec<SlangType>)
    requires
        table_wf(infos(tab@)),
        ty_wf(infos(tab@), Ty::Enum(et.enum_id as nat, tys(et.type_arguments@))),
        v < info_of(infos(tab@), et.enum_id as nat, DefKind::Enum)->0.variants.len(),
    ensures
        ({
            let d = info_of(infos(tab@), et.enum_id as nat, DefKind::Enum)->0;
            &&& tys(r@) == subst_all(d.params, tys(et.type_arguments@), d.variants[v as int].1)
            &&& forall|j: int| 0 <= j < r@.len() ==> ty_wf(infos(tab@), (#[trigger] r@[j]).ty())
        }),
{
    let ghost it = infos(tab@);
    proof {
        lemma_find_info(it, et.enum_id as nat);
        lemma_tys(et.type_arguments@);
        lemma_all_wf(it, tys(et.type_arguments@));
    }
    let k = find_entry(tab, et.enum_id).unwrap();
    let e = &tab[k];
    assert(it[k as int] == e.info());
    let ghost d = it[k as int];
    proof {
        assert(info_wf(it, d));
        assert(d.variants[v as int] == (e.variants@[v as int].0@, tys(e.variants@[v as int].1@)));
        lemma_tys(e.variants@[v as int].1@);
        lemma_all_subst_ok(d.params, d.variants[v as int].1);
    }
    let r = replace_all_type_vars(&e.type_parameters, &et.type_arguments, &e.variants[v].1);
    proof {
        lemma_tys(r@);
        lemma_subst_all(d.params, tys(et.type_arguments@), d.variants[v as int].1);
        assert forall|j: int| 0 <= j < r@.len() implies ty_wf(it, (#[trigger] r@[j]).ty()) by {
            assert(tys(r@)[j] == r@[j].ty());
            assert(ty_wf(it, d.variants[v as int].1[j]));
            assert(subst_ok(d.params, d.variants[v as int].1[j]));
            lemma_subst_wf(it, d.params, tys(et.type_arguments@), d.variants[v as int].1[j]);
        }
    }
    r
}

} // verus!
