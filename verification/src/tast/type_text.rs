//! The text of a type, as error messages show it.

use super::type_system::{
    find_entry, find_info, infos, lemma_all_wf, lemma_find_info, lemma_param_tys, lemma_tys, param_tys, ty_wf,
    tys, DefInfo, Ty, TypeDefEntry,
};
use super::{name_node_text, BasicType, NameNodeId, SlangType, UserType};
use crate::text::{nat_text, push_u64};
use vstd::prelude::*;

verus! {

pub open spec fn basic_text(b: BasicType) -> Seq<char> {
    match b {
        BasicType::Int => "int"@,
        BasicType::Bool => "bool"@,
        BasicType::Float => "float"@,
        BasicType::String => "str"@,
    }
}

/// The text of a definition's name.
pub open spec fn info_name(d: DefInfo) -> Seq<char> {
    name_node_text(d.name, d.id)
}

/// The text of a type: `int`, `array(3 x float)`, `struct-Point(id=4)[]`,
/// `function(int, str) -> bool`, ...
pub open spec fn ty_text(tab: Seq<DefInfo>, t: Ty) -> Seq<char>
    decreases t,
{
    match t {
        Ty::Undefined => "undefined"@,
        Ty::Basic(b) => basic_text(b),
        Ty::TypeCon(b) => "type-con("@ + ty_text(tab, *b) + ")"@,
        Ty::Opaque => "opaque"@,
        Ty::Var(name, id) => "type-var-"@ + name_node_text(name, id),
        Ty::Array(b, size) => "array("@ + nat_text(size) + " x "@ + ty_text(tab, *b) + ")"@,
        Ty::Struct(id, args) => match find_info(tab, id) {
            Some(k) => "struct-"@ + info_name(tab[k]) + "["@ + binding_text(tab, tab[k].params, args) + "]"@,
            None => Seq::empty(),
        },
        Ty::Union(id) => match find_info(tab, id) {
            Some(k) => "union-"@ + info_name(tab[k]) + "[]"@,
            None => Seq::empty(),
        },
        Ty::Enum(id, _) => match find_info(tab, id) {
            Some(k) => "enum("@ + info_name(tab[k]) + ")["@ + names_text(tab[k].params) + "]"@,
            None => Seq::empty(),
        },
        Ty::Class(id, args) => match find_info(tab, id) {
            Some(k) => "user-class("@ + info_name(tab[k]) + ")["@ + binding_text(tab, tab[k].params, args) + "]"@,
            None => Seq::empty(),
        },
        Ty::Function(ps, r) => "function("@ + list_text(tab, ps) + ")"@ + match r {
            Some(b) => " -> "@ + ty_text(tab, *b),
            None => Seq::empty(),
        },
        Ty::Void => "void"@,
        Ty::Unresolved => "unresolved-expr"@,
    }
}

/// The names of the type parameters, joined by `, `.
pub open spec fn names_text(params: Seq<(Seq<char>, nat)>) -> Seq<char>
    decreases params.len(),
{
    if params.len() == 0 {
        Seq::empty()
    } else if params.len() == 1 {
        params[0].0
    } else {
        names_text(params.drop_last()) + ", "@ + params.last().0
    }
}

/// Each type parameter bound to its argument: `T(id=3)=int, U(id=5)=str`.
pub open spec fn binding_text(tab: Seq<DefInfo>, params: Seq<(Seq<char>, nat)>, args: Seq<Ty>) -> Seq<char>
    decreases args,
{
    if args.len() == 0 {
        Seq::empty()
    } else {
        let p = params[args.len() - 1];
        let last = name_node_text(p.0, p.1) + "="@ + ty_text(tab, args.last());
        if args.len() == 1 {
            last
        } else {
            binding_text(tab, params, args.drop_last()) + ", "@ + last
        }
    }
}

/// The texts of the types, joined by `, `.
pub open spec fn list_text(tab: Seq<DefInfo>, s: Seq<Ty>) -> Seq<char>
    decreases s,
{
    if s.len() == 0 {
        Seq::empty()
    } else if s.len() == 1 {
        ty_text(tab, s[0])
    } else {
        list_text(tab, s.drop_last()) + ", "@ + ty_text(tab, s.last())
    }
}

/// The type can be written out: every definition it names exists, and a
/// struct or class type has as many type arguments as its definition has
/// type parameters.
pub open spec fn ty_printable(tab: Seq<DefInfo>, t: Ty) -> bool
    decreases t,
{
    match t {
        Ty::TypeCon(b) => ty_printable(tab, *b),
        Ty::Array(b, _) => ty_printable(tab, *b),
        Ty::Struct(id, args) => {
            &&& find_info(tab, id) matches Some(k)
            &&& tab[k].params.len() == args.len()
            &&& forall|i: int| 0 <= i < args.len() ==> ty_printable(tab, #[trigger] args[i])
        },
        Ty::Union(id) => find_info(tab, id) is Some,
        Ty::Enum(id, _) => find_info(tab, id) is Some,
        Ty::Class(id, args) => {
            &&& find_info(tab, id) matches Some(k)
            &&& tab[k].params.len() == args.len()
            &&& forall|i: int| 0 <= i < args.len() ==> ty_printable(tab, #[trigger] args[i])
        },
        Ty::Function(ps, r) => (forall|i: int| 0 <= i < ps.len() ==> ty_printable(tab, #[trigger] ps[i])) && match r {
            Some(b) => ty_printable(tab, *b),
            None => true,
        },
        _ => true,
    }
}

/// A well-formed type can be written out.
pub proof fn lemma_wf_printable(tab: Seq<DefInfo>, t: Ty)
    requires
        ty_wf(tab, t),
    ensures
        ty_printable(tab, t),
    decreases t,
{
    match t {
        Ty::Array(b, _) => lemma_wf_printable(tab, *b),
        Ty::Struct(id, args) => {
            lemma_all_wf(tab, args);
            assert forall|i: int| 0 <= i < args.len() implies ty_printable(tab, #[trigger] args[i]) by {
                lemma_wf_printable(tab, args[i]);
            }
        },
        Ty::Class(id, args) => {
            lemma_all_wf(tab, args);
            assert forall|i: int| 0 <= i < args.len() implies ty_printable(tab, #[trigger] args[i]) by {
                lemma_wf_printable(tab, args[i]);
            }
        },
        Ty::Function(ps, r) => {
            lemma_all_wf(tab, ps);
            assert forall|i: int| 0 <= i < ps.len() implies ty_printable(tab, #[trigger] ps[i]) by {
                lemma_wf_printable(tab, ps[i]);
            }
            match r {
                Some(b) => lemma_wf_printable(tab, *b),
                None => {},
            }
        },
        _ => {},
    }
}

fn push_name(out: &mut String, name: &NameNodeId)
    ensures
        final(out)@ == old(out)@ + name_node_text(name.name@, name.id as nat),
{
    let t = name.text();
    out.append(t.as_str());
}

/// Appends the text of the type.
pub fn push_type_text(tab: &Vec<TypeDefEntry>, t: &SlangType, out: &mut String)
    requires
        ty_printable(infos(tab@), t.ty()),
    ensures
        final(out)@ == old(out)@ + ty_text(infos(tab@), t.ty()),
    decreases t,
{
    let ghost it = infos(tab@);
    match t {
        SlangType::Undefined => out.append("undefined"),
        SlangType::Basic(b) => match b {
            BasicType::Int => out.append("int"),
            BasicType::Bool => out.append("bool"),
            BasicType::Float => out.append("float"),
            BasicType::String => out.append("str"),
        },
        SlangType::TypeConstructor(b) => {
            out.append("type-con(");
            push_type_text(tab, &**b, out);
            out.append(")");
        },
        SlangType::Opaque => out.append("opaque"),
        SlangType::TypeVar(n) => {
            out.append("type-var-");
            push_name(out, n);
        },
        SlangType::Array(a) => {
            out.append("array(");
            push_u64(out, a.size as u64);
            out.append(" x ");
            push_type_text(tab, &*a.element_type, out);
            out.append(")");
        },
        SlangType::User(u) => match u {
            UserType::Struct(st) => {
                proof {
                    lemma_find_info(it, st.struct_id as nat);
                    lemma_tys(st.type_arguments@);
                }
                let k = find_entry(tab, st.struct_id).unwrap();
                assert(it[k as int] == tab@[k as int].info());
                out.append("struct-");
                push_name(out, &tab[k].name);
                out.append("[");
                push_binding_text(tab, &tab[k].type_parameters, &st.type_arguments, out);
                out.append("]");
            },
            UserType::Union(id) => {
                proof {
                    lemma_find_info(it, *id as nat);
                }
                let k = find_entry(tab, *id).unwrap();
                assert(it[k as int] == tab@[k as int].info());
                out.append("union-");
                push_name(out, &tab[k].name);
                out.append("[]");
            },
            UserType::Enum(et) => {
                proof {
                    lemma_find_info(it, et.enum_id as nat);
                }
                let k = find_entry(tab, et.enum_id).unwrap();
                assert(it[k as int] == tab@[k as int].info());
                out.append("enum(");
                push_name(out, &tab[k].name);
                out.append(")[");
                push_names_text(&tab[k].type_parameters, out);
                out.append("]");
            },
            UserType::Class(ct) => {
                proof {
                    lemma_find_info(it, ct.class_id as nat);
                    lemma_tys(ct.type_arguments@);
                }
                let k = find_entry(tab, ct.class_id).unwrap();
                assert(it[k as int] == tab@[k as int].info());
                out.append("user-class(");
                push_name(out, &tab[k].name);
                out.append(")[");
                push_binding_text(tab, &tab[k].type_parameters, &ct.type_arguments, out);
                out.append("]");
            },
            UserType::Function(sig) => {
                proof {
                    lemma_param_tys(sig.parameters@);
                    let ps = param_tys(sig.parameters@);
                    assert(t.ty() matches Ty::Function(p2, _) && p2 == ps);
                    assert forall|i: int| 0 <= i < sig.parameters@.len() implies ty_printable(it, #[trigger] ps[i]) by {
                        assert(0 <= i < ps.len());
                    }
                }
                out.append("function(");
                push_param_list_text(tab, &sig.parameters, out);
                out.append(")");
                match &sig.return_type {
                    Some(r) => {
                        out.append(" -> ");
                        push_type_text(tab, r, out);
                    },
                    None => {},
                }
            },
        },
        SlangType::Void => out.append("void"),
        SlangType::Unresolved => out.append("unresolved-expr"),
    }
}

/// Appends the names of the type parameters, joined by `, `.
pub(crate) fn push_names_text(params: &Vec<NameNodeId>, out: &mut String)
    ensures
        final(out)@ == old(out)@ + names_text(super::type_system::param_names(params@)),
{
    let ghost ps = super::type_system::param_names(params@);
    let mut i: usize = 0;
    while i < params.len()
        invariant
            i <= params@.len(),
            ps == super::type_system::param_names(params@),
            out@ == old(out)@ + names_text(ps.take(i as int)),
        decreases params@.len() - i,
    {
        let ghost before = out@;
        let ghost next = ps.take(i as int + 1);
        assert(next.drop_last() =~= ps.take(i as int));
        assert(next.last() == ps[i as int]);
        assert(ps[i as int].0 == params@[i as int].name@);
        if i > 0 {
            out.append(", ");
        }
        out.append(params[i].name.as_str());
        proof {
            if i == 0 {
                assert(next[0] == ps[0]);
                assert(out@ =~= before + ps[0].0);
            } else {
                assert(out@ =~= before + ", "@ + ps[i as int].0);
            }
        }
        i = i + 1;
    }
    assert(ps.take(i as int) =~= ps);
}

/// Appends the binding of the type parameters to the type arguments.
fn push_binding_text(tab: &Vec<TypeDefEntry>, params: &Vec<NameNodeId>, args: &Vec<SlangType>, out: &mut String)
    requires
        params@.len() == args@.len(),
        forall|i: int| 0 <= i < args@.len() ==> ty_printable(infos(tab@), #[trigger] tys(args@)[i]),
    ensures
        final(out)@ == old(out)@ + binding_text(
            infos(tab@),
            super::type_system::param_names(params@),
            tys(args@),
        ),
    decreases args,
{
    let ghost ps = super::type_system::param_names(params@);
    let ghost a = tys(args@);
    proof {
        lemma_tys(args@);
    }
    let mut i: usize = 0;
    while i < args.len()
        invariant
            i <= args@.len(),
            params@.len() == args@.len(),
            ps == super::type_system::param_names(params@),
            a == tys(args@),
            a.len() == args@.len(),
            forall|j: int| 0 <= j < args@.len() ==> #[trigger] a[j] == args@[j].ty(),
            forall|j: int| 0 <= j < args@.len() ==> ty_printable(infos(tab@), #[trigger] a[j]),
            out@ == old(out)@ + binding_text(infos(tab@), ps, a.take(i as int)),
        decreases args@.len() - i,
    {
        let ghost before = out@;
        let ghost next = a.take(i as int + 1);
        assert(next.drop_last() =~= a.take(i as int));
        assert(next.last() == a[i as int]);
        assert(next.len() == i + 1);
        assert(ps[i as int] == (params@[i as int].name@, params@[i as int].id as nat));
        assert(ty_printable(infos(tab@), a[i as int]));
        if i > 0 {
            out.append(", ");
        }
        push_name(out, &params[i]);
        out.append("=");
        push_type_text(tab, &args[i], out);
        proof {
            let p = ps[i as int];
            let last = name_node_text(p.0, p.1) + "="@ + ty_text(infos(tab@), a[i as int]);
            if i == 0 {
                assert(binding_text(infos(tab@), ps, next) == last);
                assert(out@ =~= before + last);
            } else {
                assert(binding_text(infos(tab@), ps, next) == binding_text(infos(tab@), ps, a.take(i as int)) + ", "@ + last);
                assert(out@ =~= before + ", "@ + last);
            }
        }
        i = i + 1;
    }
    assert(a.take(i as int) =~= a);
}

/// Appends the texts of the parameter types, joined by `, `.
fn push_param_list_text(tab: &Vec<TypeDefEntry>, params: &Vec<super::Parameter>, out: &mut String)
    requires
        forall|i: int| 0 <= i < params@.len() ==> ty_printable(infos(tab@), #[trigger] param_tys(params@)[i]),
    ensures
        final(out)@ == old(out)@ + list_text(infos(tab@), param_tys(params@)),
    decreases params,
{
    let ghost a = param_tys(params@);
    proof {
        lemma_param_tys(params@);
    }
    let mut i: usize = 0;
    while i < params.len()
        invariant
            i <= params@.len(),
            a == param_tys(params@),
            a.len() == params@.len(),
            forall|j: int| 0 <= j < params@.len() ==> #[trigger] a[j] == params@[j].typ.ty(),
            forall|j: int| 0 <= j < params@.len() ==> ty_printable(infos(tab@), #[trigger] a[j]),
            out@ == old(out)@ + list_text(infos(tab@), a.take(i as int)),
        decreases params@.len() - i,
    {
        let ghost before = out@;
        let ghost next = a.take(i as int + 1);
        assert(next.drop_last() =~= a.take(i as int));
        assert(next.last() == a[i as int]);
        assert(next.len() == i + 1);
        assert(ty_printable(infos(tab@), a[i as int]));
        if i > 0 {
            out.append(", ");
        }
        push_type_text(tab, &params[i].typ, out);
        proof {
            if i == 0 {
                assert(next[0] == a[0]);
                assert(list_text(infos(tab@), next) == ty_text(infos(tab@), a[0]));
                assert(out@ =~= before + ty_text(infos(tab@), a[0]));
            } else {
                assert(list_text(infos(tab@), next) == list_text(infos(tab@), a.take(i as int)) + ", "@ + ty_text(infos(tab@), a[i as int]));
                assert(out@ =~= before + ", "@ + ty_text(infos(tab@), a[i as int]));
            }
        }
        i = i + 1;
    }
    assert(a.take(i as int) =~= a);
}

/// The text of the type.
pub fn type_text(tab: &Vec<TypeDefEntry>, t: &SlangType) -> (s: String)
    requires
        ty_printable(infos(tab@), t.ty()),
    ensures
        s@ == ty_text(infos(tab@), t.ty()),
{
    let mut s = String::new();
    push_type_text(tab, t, &mut s);
    assert(s@ =~= ty_text(infos(tab@), t.ty()));
    s
}

} // verus!
