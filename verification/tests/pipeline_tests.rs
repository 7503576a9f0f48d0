use mcfrs::datapack::Datapack;
use mcfrs::namespace::Namespace;
use mcfrs::scope::Scope;
use mcfrs::pipeline::compile;
use mcfrs::CompileError;

const BUDGET: u64 = 10_000;

fn test_namespace() -> Namespace {
    let datapack = Datapack::try_new(String::from("test")).unwrap();
    Namespace::try_new(&datapack, String::from("ns")).unwrap()
}

fn scope_with(name: &str, content: &str) -> Scope {
    let ns = test_namespace();
    let mut scope = Scope::new(String::from(name), &ns);
    scope.content = String::from(content);
    scope
}

#[test]
fn pipeline_compiles_a_full_source() {
    let source = "# greeting\ngenerate function greet p\n\tsay p\ncall greet $this\nrun\n\tnested cmd\nsay done\nback and more";
    let out = compile(vec![scope_with("main", source)], BUDGET).unwrap();
    assert_eq!(out.len(), 2);
    assert_eq!(out[0].name, "main");
    assert_eq!(
        out[0].content,
        "say ns:main\nrun function ns:_/00/00/00/00\nsay done and more"
    );
    assert_eq!(out[1].name, "_/00/00/00/00");
    assert_eq!(out[1].content, "nested cmd");
}

#[test]
fn repeated_runs_are_byte_identical() {
    let source = "generate function mk x\n\twith scope\n\tsay x@obj\ncall mk a\ncall mk a\nouter\n\tinner #[abc]\nsay $namespace";
    let first = compile(vec![scope_with("main", source)], BUDGET).unwrap();
    let second = compile(vec![scope_with("main", source)], BUDGET).unwrap();
    assert_eq!(first.len(), second.len());
    for (a, b) in first.iter().zip(second.iter()) {
        assert_eq!(a.name, b.name);
        assert_eq!(a.content, b.content);
    }
    assert!(first.len() >= 3);
}

#[test]
fn no_two_generated_scopes_share_a_name() {
    let source = "a\n\tx\nb\n\ty\nc\n\tz\n\t\tdeep";
    let out = compile(vec![scope_with("main", source)], BUDGET).unwrap();
    for i in 0..out.len() {
        for j in 0..out.len() {
            if i != j {
                assert_ne!(out[i].name, out[j].name);
            }
        }
    }
    assert_eq!(out.len(), 5);
}

#[test]
fn pipeline_reports_missing_macro() {
    let r = compile(vec![scope_with("main", "call ghost_macro x")], BUDGET);
    match r {
        Err(CompileError::MissingMacro(name)) => assert_eq!(name, "ghost_macro"),
        _ => panic!("an undefined macro must abort the whole pipeline"),
    }
}
