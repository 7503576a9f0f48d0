use mcfrs::datapack::Datapack;
use mcfrs::namespace::Namespace;
use mcfrs::scope::Scope;
use mcfrs::macro_compiler::MacroCompiler;
use mcfrs::macro_compiler::MacroDefinition;
use mcfrs::macro_compiler::MacroCall;
use mcfrs::CompileError;

const BUDGET: u64 = 10_000;

fn test_namespace() -> Namespace {
    let datapack = Datapack::try_new(String::from("test")).unwrap();
    Namespace::try_new(&datapack, String::from("ns")).unwrap()
}

fn scope_with(name: &str, content: &str) -> Scope {
    let ns = test_namespace();
    let mut scope = Scope::new(String::from(name), &ns);
    scope.content = String::from(content);
    scope
}

fn chars_of(s: &str) -> Vec<char> {
    let mut v = Vec::new();
    for c in s.chars() {
        v.push(c);
    }
    v
}

fn lines_of(s: &str) -> Vec<Vec<char>> {
    let mut out = Vec::new();
    for line in s.lines() {
        out.push(chars_of(line));
    }
    out
}

#[test]
fn inline_macro_splices_body() {
    let mut mc = MacroCompiler::new();
    let out = mc
        .run(
            vec![scope_with("f", "generate function greet p\n\tsay p\ncall greet hello")],
            BUDGET,
        )
        .unwrap();
    assert_eq!(out.len(), 1);
    assert_eq!(out[0].content, "say hello");
}

#[test]
fn two_level_inline_leaves_no_call_token() {
    let mut mc = MacroCompiler::new();
    let source = "generate function inner p\n\tsay p\ngenerate function outer q\n\tcall inner q\ncall outer hello";
    let out = mc.run(vec![scope_with("f", source)], BUDGET).unwrap();
    assert_eq!(out.len(), 1);
    assert_eq!(out[0].content, "say hello");
    for scope in &out {
        assert!(!scope.content.contains("call"));
    }
}

#[test]
fn separate_scope_macro_generates_artifact() {
    let mut mc = MacroCompiler::new();
    let source = "generate function mk x\n\twith scope\n\tsay x\ncall mk a";
    let out = mc.run(vec![scope_with("f", source)], BUDGET).unwrap();
    assert_eq!(out.len(), 2);
    assert_eq!(out[0].content, "function ns:_/ff/ff/ff/ff");
    let generated: Vec<&Scope> = out.iter().filter(|s| s.name == "_/ff/ff/ff/ff").collect();
    assert_eq!(generated.len(), 1);
    assert_eq!(generated[0].content, "say a");
}

#[test]
fn identical_calls_share_one_artifact() {
    let mut mc = MacroCompiler::new();
    let source = "generate function mk x\n\twith scope\n\tsay x\ncall mk a\ncall mk a\ncall mk b";
    let out = mc.run(vec![scope_with("f", source)], BUDGET).unwrap();
    let root = out.iter().find(|s| s.name == "f").unwrap();
    assert_eq!(
        root.content,
        "function ns:_/ff/ff/ff/ff\nfunction ns:_/ff/ff/ff/ff\nfunction ns:_/ff/ff/ff/fe"
    );
    let say_a: Vec<&Scope> = out.iter().filter(|s| s.content == "say a").collect();
    assert_eq!(say_a.len(), 1);
    let say_b: Vec<&Scope> = out.iter().filter(|s| s.content == "say b").collect();
    assert_eq!(say_b.len(), 1);
    assert_eq!(out.len(), 3);
}

#[test]
fn forward_call_resolves_through_generated_scope() {
    // The macro is defined in a later scope, so the call site can only be
    // memoized to a fresh reference; the closing pass materializes it.
    let mut mc = MacroCompiler::new();
    let caller = scope_with("f", "call greet hello");
    let definer = scope_with("g", "generate function greet p\n\tsay p");
    let out = mc.run(vec![caller, definer], BUDGET).unwrap();
    let root = out.iter().find(|s| s.name == "f").unwrap();
    assert_eq!(root.content, "function ns:_/ff/ff/ff/ff");
    let generated = out.iter().find(|s| s.name == "_/ff/ff/ff/ff").unwrap();
    assert_eq!(generated.content, "say hello");
}

#[test]
fn definition_order_is_symmetric_within_a_scope() {
    let forward = "call mac arg\ngenerate function mac p\n\tsay p";
    let backward = "generate function mac p\n\tsay p\ncall mac arg";
    let mut mc1 = MacroCompiler::new();
    let out1 = mc1.run(vec![scope_with("f", forward)], BUDGET).unwrap();
    let mut mc2 = MacroCompiler::new();
    let out2 = mc2.run(vec![scope_with("f", backward)], BUDGET).unwrap();
    assert_eq!(out1.len(), out2.len());
    for (a, b) in out1.iter().zip(out2.iter()) {
        assert_eq!(a.name, b.name);
        assert_eq!(a.content, b.content);
    }
    assert_eq!(out1[0].content, "say arg");
}

#[test]
fn missing_macro_is_fatal() {
    let mut mc = MacroCompiler::new();
    let r = mc.run(vec![scope_with("f", "call nothing here")], BUDGET);
    match r {
        Err(CompileError::MissingMacro(name)) => assert_eq!(name, "nothing"),
        _ => panic!("a call without a definition must abort the run"),
    }
}

#[test]
fn prefix_before_call_is_kept() {
    let mut mc = MacroCompiler::new();
    let source = "generate function mk x\n\twith scope\n\tsay x\nexecute as @a run call mk a";
    let out = mc.run(vec![scope_with("f", source)], BUDGET).unwrap();
    let root = out.iter().find(|s| s.name == "f").unwrap();
    assert_eq!(root.content, "execute as @a run function ns:_/ff/ff/ff/ff");
}

#[test]
fn self_inlining_macro_exhausts_the_budget() {
    // A macro that splices itself never settles; the budget reports it.
    let mut mc = MacroCompiler::new();
    let source = "generate function mac\n\tsay hi\n\tcall mac\ncall mac";
    let r = mc.run(vec![scope_with("f", source)], 5);
    assert!(matches!(r, Err(CompileError::ExpansionLimitReached)));
}

#[test]
fn definition_swallows_its_indented_lines() {
    let mut mc = MacroCompiler::new();
    let source = "generate function mac\n\tsay hi\n\tcall mac other";
    // The call stands one tab deep inside the definition's body, so the
    // definition swallows it; only top-level text remains.
    let out = mc.run(vec![scope_with("f", source)], BUDGET).unwrap();
    assert_eq!(out.len(), 1);
    assert_eq!(out[0].content, "");
}

#[test]
fn substitution_replaces_whole_tokens_only() {
    let ns = test_namespace();
    let lines = lines_of("generate function mac p\n\tsay p pp");
    let (def, consumed) = MacroDefinition::new(&ns, &lines);
    assert_eq!(consumed, 2);
    assert_eq!(def.name, "mac");
    assert_eq!(def.parameters, vec![String::from("p")]);
    assert_eq!(def.body, "say p pp");
    assert!(!def.has_separate_scope);
    let call = MacroCall::new(7, vec![String::from("X")]);
    assert_eq!(call.get_content(&def), "say X pp");
}

#[test]
fn with_scope_line_sets_flag_and_is_dropped() {
    let ns = test_namespace();
    let lines = lines_of("generate function mac a b\n\twith scope\n\tsay a\n\tsay b");
    let (def, consumed) = MacroDefinition::new(&ns, &lines);
    assert_eq!(consumed, 4);
    assert!(def.has_separate_scope);
    assert_eq!(def.body, "say a\nsay b");
}

#[test]
fn call_into_string_zips_and_truncates() {
    let ns = test_namespace();
    let lines = lines_of("generate function mac a b\n\tsay a b");
    let (def, _) = MacroDefinition::new(&ns, &lines);
    // An extra argument is ignored; a missing one leaves the parameter.
    assert_eq!(
        def.call_into_string(&vec![String::from("x"), String::from("y"), String::from("z")]),
        "say x y\n"
    );
    assert_eq!(def.call_into_string(&vec![String::from("x")]), "say x b\n");
}

#[test]
fn call_into_code_prefixes_tabs() {
    let ns = test_namespace();
    let lines = lines_of("generate function mac\n\tsay a\n\tsay b");
    let (def, _) = MacroDefinition::new(&ns, &lines);
    let mut out: Vec<String> = vec![String::from("keep")];
    def.call_into_code(&Vec::new(), &mut out, 2);
    assert_eq!(out, vec![
        String::from("keep"),
        String::from("\t\tsay a\n"),
        String::from("\t\tsay b\n"),
    ]);
}
