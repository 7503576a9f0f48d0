use mcfrs::datapack::Datapack;
use mcfrs::namespace::Namespace;
use mcfrs::scope::Scope;
use mcfrs::util::get_indent;
use mcfrs::util::scope_name_of_path;
use mcfrs::comment_remover::CommentRemover;
use mcfrs::back_compiler::BackCompiler;
use mcfrs::substitutions_compiler::SubstitutionsCompiler;
use mcfrs::CompileError;

fn test_namespace() -> Namespace {
    let datapack = Datapack::try_new(String::from("test")).unwrap();
    Namespace::try_new(&datapack, String::from("ns")).unwrap()
}

fn scope_with(name: &str, content: &str) -> Scope {
    let ns = test_namespace();
    let mut scope = Scope::new(String::from(name), &ns);
    scope.content = String::from(content);
    scope
}

#[test]
fn datapack_accepts_valid_names() {
    assert!(Datapack::is_name_valid("my_pack-2"));
    assert!(Datapack::try_new(String::from("my_pack-2")).is_ok());
}

#[test]
fn datapack_rejects_invalid_names() {
    assert!(!Datapack::is_name_valid("My Pack"));
    assert!(!Datapack::is_char_valid('!'));
    assert!(matches!(
        Datapack::try_new(String::from("bad name!")),
        Err(CompileError::InvalidName)
    ));
}

#[test]
fn namespace_rejects_invalid_names() {
    let datapack = Datapack::try_new(String::from("test")).unwrap();
    assert!(matches!(
        Namespace::try_new(&datapack, String::from("Bad")),
        Err(CompileError::InvalidName)
    ));
    assert!(Namespace::is_name_valid("good-name_0"));
    assert!(!Namespace::is_char_valid('/'));
}

#[test]
fn namespace_rejects_the_empty_name() {
    // An identifier is one or more accepted characters: "" is no namespace.
    let datapack = Datapack::try_new(String::from("test")).unwrap();
    assert!(matches!(
        Namespace::try_new(&datapack, String::new()),
        Err(CompileError::InvalidName)
    ));
}

#[test]
fn datapack_accepts_the_empty_name() {
    // Every character of "" is vacuously valid; only the namespace, the
    // validated identifier of the addressing scheme, demands a character.
    assert!(Datapack::try_new(String::new()).is_ok());
}

#[test]
fn namespace_functions_path() {
    let ns = test_namespace();
    assert_eq!(ns.get_functions_path(), "./test/data/ns/functions");
}

#[test]
fn scope_reference_name() {
    let scope = scope_with("greet", "");
    assert_eq!(scope.get_reference_name(), "ns:greet");
}

#[test]
fn anonymous_names_render_in_hex() {
    let ns = test_namespace();
    assert_eq!(Scope::new_unnamed(1, &ns).name, "_/00/00/00/01");
    assert_eq!(Scope::new_unnamed(0x0a0b0c0d, &ns).name, "_/0a/0b/0c/0d");
    assert_eq!(Scope::new_unnamed(u32::MAX, &ns).name, "_/ff/ff/ff/ff");
}

#[test]
fn set_reference_id_renames() {
    let ns = test_namespace();
    let mut scope = Scope::new(String::from("named"), &ns);
    scope.set_reference_id(258);
    assert_eq!(scope.name, "_/00/00/01/02");
}

#[test]
fn get_indent_measures_tabs() {
    assert_eq!(get_indent("say hi"), 1);
    assert_eq!(get_indent("\tsay hi"), 2);
    assert_eq!(get_indent("\t\tsay hi"), 3);
    assert_eq!(get_indent(""), 0);
    assert_eq!(get_indent("\t\t"), 0);
}

#[test]
fn scope_name_drops_extension() {
    assert_eq!(scope_name_of_path("dir/file.mcf"), "dir/file");
    assert_eq!(scope_name_of_path("a.b.mcf"), "a.b");
    assert_eq!(scope_name_of_path("noext"), "");
}

#[test]
fn comments_and_blank_lines_vanish() {
    let remover = CommentRemover::new();
    let out = remover.process(scope_with("f", "# note\nsay hi\n\n  # indented note\nsay yo"));
    assert_eq!(out.content, "say hi\nsay yo");
}

#[test]
fn carriage_returns_are_stripped_with_their_newlines() {
    // CRLF sources decompose as `str::lines` does: the `\r` goes with the
    // line break and never survives into rejoined content.
    let remover = CommentRemover::new();
    let out = remover.process(scope_with("f", "say hi\r\nsay yo\r\n"));
    assert_eq!(out.content, "say hi\nsay yo");
}

#[test]
fn continuation_joins_one_line() {
    let back = BackCompiler::new();
    let out = back.process(scope_with("f", "say hi\nback there"));
    assert_eq!(out.content, "say hi there");
}

#[test]
fn continuation_keeps_text_after_back_verbatim() {
    let back = BackCompiler::new();
    let out = back.process(scope_with("f", "say hi\nback  there"));
    assert_eq!(out.content, "say hi  there");
}

#[test]
fn continuation_chain_joins_fully() {
    let back = BackCompiler::new();
    let out = back.process(scope_with("f", "say a\nback b\nback c\nsay d"));
    assert_eq!(out.content, "say a b c\nsay d");
}

#[test]
fn substitutes_this_reference() {
    let subs = SubstitutionsCompiler::new();
    let out = subs.process(scope_with("greet", "$this says hi"));
    assert_eq!(out.content, "ns:greet says hi");
}

#[test]
fn substitutes_namespace_name() {
    let subs = SubstitutionsCompiler::new();
    let out = subs.process(scope_with("greet", "made by $namespace"));
    assert_eq!(out.content, "made by ns");
}

#[test]
fn substitutes_hash_form() {
    let subs = SubstitutionsCompiler::new();
    let out = subs.process(scope_with("f", "#[abc]"));
    assert_eq!(out.content, "xj4bnp4pahh6uqkb");
}

#[test]
fn substitutes_hash_with_dots() {
    let subs = SubstitutionsCompiler::new();
    let out = subs.process(scope_with("f", "tag #[obj-1.x] end"));
    assert_eq!(out.content, "tag qof3vt5vr3dmqlcr end");
}

#[test]
fn hash_without_closing_bracket_stands() {
    let subs = SubstitutionsCompiler::new();
    let out = subs.process(scope_with("f", "#[abc end"));
    assert_eq!(out.content, "#[abc end");
}

#[test]
fn substitutes_score_form() {
    let subs = SubstitutionsCompiler::new();
    let out = subs.process(scope_with("f", "score@obj"));
    assert_eq!(out.content, "score obj");
}

#[test]
fn score_form_inside_command() {
    let subs = SubstitutionsCompiler::new();
    let out = subs.process(scope_with("f", "scoreboard set my-score@my_obj 1"));
    assert_eq!(out.content, "scoreboard set my-score my_obj 1");
}

#[test]
fn score_form_leaves_trailing_at() {
    let subs = SubstitutionsCompiler::new();
    let out = subs.process(scope_with("f", "a@b@c"));
    assert_eq!(out.content, "a b@c");
}
