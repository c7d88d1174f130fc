use compiler2::ast;
use compiler2::compilation::determine_dependecy_order;
use compiler2::errors::CompilationError;
use compiler2::location::Location;
use compiler2::semantics::diagnostics::Diagnostics;
use compiler2::semantics::id_generator::IdGenerator;
use compiler2::tast::generics::{get_type_vars_text, TypeVar, TypeVarRef};
use compiler2::tast::NameNodeId;
use std::rc::Rc;

#[test]
fn location_text() {
    assert_eq!(Location::new(3, 7).text(), "[3:7]");
    assert_eq!(Location::new(-1, 12).text(), "[-1:12]");
}

#[test]
fn name_node_text() {
    let n = NameNodeId { name: "foo".to_string(), id: 42 };
    assert_eq!(n.text(), "foo(id=42)");
    let c = n.copy();
    assert_eq!(c.name, "foo");
    assert_eq!(c.id, 42);
}

#[test]
fn type_vars_text_is_comma_separated() {
    let a = Rc::new(TypeVar { location: Location::new(1, 1), name: NameNodeId { name: "T".to_string(), id: 1 } });
    let b = Rc::new(TypeVar { location: Location::new(1, 4), name: NameNodeId { name: "U".to_string(), id: 2 } });
    assert_eq!(get_type_vars_text(&[a.clone(), b.clone()]), "T(id=1),U(id=2)");
    assert_eq!(get_type_vars_text(&[]), "");
    let r = TypeVarRef::new(&a);
    assert_eq!(r.get_type_var().name.name, "T");
    assert!(r.same(&TypeVarRef::new(&a)));
    assert!(!r.same(&TypeVarRef::new(&b)));
}

#[test]
fn ids_are_handed_out_in_order() {
    let mut g = IdGenerator::new();
    let a = g.gimme();
    let b = g.gimme();
    let c = g.gimme();
    assert_eq!((a, b, c), (1, 2, 3));
}

#[test]
fn diagnostics_without_errors_give_the_value() {
    let d = Diagnostics::new("x.slang");
    assert!(matches!(d.value_or_error(5), Ok(5)));
}

#[test]
fn diagnostics_collect_all_errors() {
    let mut d = Diagnostics::new("x.slang");
    d.error(Location::new(1, 2), "first".to_string());
    d.error(Location::new(3, 4), "second".to_string());
    match d.value_or_error(()) {
        Err(CompilationError::MultiError(errors)) => {
            assert_eq!(errors.len(), 2);
            match &errors[1] {
                CompilationError::SingleError { path, location, message } => {
                    assert_eq!(path, "x.slang");
                    assert_eq!(*location, Location::new(3, 4));
                    assert_eq!(message, "second");
                }
                _ => panic!("expected a single error"),
            }
        }
        _ => panic!("expected errors"),
    }
}

#[test]
fn compilation_error_constructors() {
    assert!(matches!(CompilationError::simple("m".to_string()), CompilationError::Simple(m) if m == "m"));
    let e = CompilationError::new("p".to_string(), Location::new(1, 1), "msg".to_string());
    assert!(matches!(e, CompilationError::SingleError { .. }));
    assert!(matches!(CompilationError::multi(vec![]), CompilationError::MultiError(v) if v.is_empty()));
}

fn module(name: &str, imports: &[&str]) -> ast::Program {
    ast::Program {
        docstring: None,
        name: name.to_string(),
        path: format!("{}.slang", name),
        imports: imports
            .iter()
            .map(|m| ast::Import::Import { location: Location::new(1, 1), modname: m.to_string() })
            .collect(),
        definitions: vec![],
    }
}

#[test]
fn imported_modules_come_first() {
    let progs = vec![module("a", &["b"]), module("b", &[]), module("c", &["a", "b"])];
    let sorted = determine_dependecy_order(progs).ok().unwrap();
    let names: Vec<&str> = sorted.iter().map(|p| p.name.as_str()).collect();
    assert_eq!(names.len(), 3);
    let pos = |n: &str| names.iter().position(|x| *x == n).unwrap();
    assert!(pos("b") < pos("a"));
    assert!(pos("a") < pos("c"));
}

#[test]
fn dependency_order_of_two_modules() {
    let progs = vec![module("a", &["b"]), module("b", &[])];
    let sorted = determine_dependecy_order(progs).ok().unwrap();
    assert_eq!(sorted[0].name, "b");
    assert_eq!(sorted[1].name, "a");
}

#[test]
fn imports_of_unknown_modules_are_skipped() {
    let progs = vec![module("main", &["std"])];
    let sorted = determine_dependecy_order(progs).ok().unwrap();
    assert_eq!(sorted.len(), 1);
    assert_eq!(sorted[0].name, "main");
}

#[test]
fn dependency_cycle_is_an_error() {
    let progs = vec![module("a", &["b"]), module("b", &["a"])];
    match determine_dependecy_order(progs) {
        Err(CompilationError::Simple(m)) => assert_eq!(m, "Module dependency cycles : Cycle(\"b\")"),
        _ => panic!("expected a cycle error"),
    }
}

#[test]
fn self_import_is_a_cycle() {
    let progs = vec![module("a", &["a"])];
    assert!(determine_dependecy_order(progs).is_err());
}
