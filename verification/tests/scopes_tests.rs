use mcfrs::datapack::Datapack;
use mcfrs::namespace::Namespace;
use mcfrs::scope::Scope;
use mcfrs::scopes_compiler::ScopesCompiler;

fn test_namespace() -> Namespace {
    let datapack = Datapack::try_new(String::from("test")).unwrap();
    Namespace::try_new(&datapack, String::from("ns")).unwrap()
}

fn scope_with(name: &str, content: &str) -> Scope {
    let ns = test_namespace();
    let mut scope = Scope::new(String::from(name), &ns);
    scope.content = String::from(content);
    scope
}

#[test]
fn flat_content_stays_flat() {
    let mut sc = ScopesCompiler::new();
    let out = sc.process(scope_with("f", "say a\nsay b")).unwrap();
    assert_eq!(out.len(), 1);
    assert_eq!(out[0].content, "say a\nsay b");
    assert_eq!(out[0].name, "f");
}

#[test]
fn three_levels_lower_into_three_scopes() {
    let mut sc = ScopesCompiler::new();
    let out = sc.process(scope_with("f", "a\n\tb\n\t\tc\n\t\t\td")).unwrap();
    assert_eq!(out.len(), 4);
    assert_eq!(out[0].name, "f");
    assert_eq!(out[0].content, "a function ns:_/00/00/00/00\n");
    assert_eq!(out[1].name, "_/00/00/00/00");
    assert_eq!(out[1].content, "b function ns:_/00/00/00/01\n");
    assert_eq!(out[2].name, "_/00/00/00/01");
    assert_eq!(out[2].content, "c function ns:_/00/00/00/02\n");
    assert_eq!(out[3].name, "_/00/00/00/02");
    assert_eq!(out[3].content, "d");
}

#[test]
fn two_blocks_get_two_scopes() {
    let mut sc = ScopesCompiler::new();
    let out = sc.process(scope_with("f", "a\n\tx\nb\n\ty")).unwrap();
    assert_eq!(out.len(), 3);
    assert_eq!(out[0].content, "a function ns:_/00/00/00/00\nb function ns:_/00/00/00/01\n");
    let names: Vec<&str> = out.iter().map(|s| s.name.as_str()).collect();
    assert!(names.contains(&"_/00/00/00/00"));
    assert!(names.contains(&"_/00/00/00/01"));
    let x = out.iter().find(|s| s.name == "_/00/00/00/00").unwrap();
    assert_eq!(x.content, "x");
    let y = out.iter().find(|s| s.name == "_/00/00/00/01").unwrap();
    assert_eq!(y.content, "y");
}

#[test]
fn counter_never_reuses_names_across_scopes() {
    let mut sc = ScopesCompiler::new();
    let first = sc.process(scope_with("f", "a\n\tx")).unwrap();
    let second = sc.process(scope_with("g", "b\n\ty")).unwrap();
    let mut names: Vec<String> = Vec::new();
    for s in first.iter().chain(second.iter()) {
        names.push(s.name.clone());
    }
    for i in 0..names.len() {
        for j in 0..names.len() {
            if i != j {
                assert_ne!(names[i], names[j]);
            }
        }
    }
    assert_eq!(second[0].content, "b function ns:_/00/00/00/01\n");
}

#[test]
fn identical_blocks_stay_distinct() {
    // Two syntactically identical nested blocks compile to two artifacts.
    let mut sc = ScopesCompiler::new();
    let out = sc.process(scope_with("f", "a\n\tx\nb\n\tx")).unwrap();
    assert_eq!(out.len(), 3);
    let x_scopes: Vec<&Scope> = out.iter().filter(|s| s.content == "x").collect();
    assert_eq!(x_scopes.len(), 2);
    assert_ne!(x_scopes[0].name, x_scopes[1].name);
}
