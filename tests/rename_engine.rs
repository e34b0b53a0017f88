use template_init::content::{is_opaque, opens_for_rewrite, rewritten_content, same_chars};
use template_init::identity::{class_name_of, IdentityTriple, Substitution};
use template_init::plan::{build_plan, copy_path, rename_of, Rename};
use template_init::replace::{occurs_at_exec, substitute_all};

fn chars(s: &str) -> Vec<char> {
    s.chars().collect()
}

fn text(v: &[char]) -> String {
    v.iter().collect()
}

fn path(s: &str) -> Vec<Vec<char>> {
    s.split('/').map(chars).collect()
}

fn show(p: &[Vec<char>]) -> String {
    p.iter().map(|s| text(s)).collect::<Vec<String>>().join("/")
}

fn steps(plan: &[Rename]) -> Vec<(String, String)> {
    plan.iter().map(|r| (show(&r.from), show(&r.to))).collect()
}

fn foo_bar() -> IdentityTriple {
    IdentityTriple::from_template(chars("FooBar"), chars("foobar"), chars("Foo Bar"))
}

fn rewrite(s: &str, t: &IdentityTriple) -> String {
    text(&substitute_all(&chars(s), t))
}

#[test]
fn scenario_single_java_file() {
    let t = foo_bar();
    let content = "class TemplateMod { String name = \"Template Mod\"; String id = \"templatemod\"; }";
    let new_content = rewritten_content(&chars(content), &t).expect("content changes");
    let new_text = text(&new_content);
    assert_eq!(new_text, "class FooBar { String name = \"Foo Bar\"; String id = \"foobar\"; }");
    assert!(!new_text.contains("TemplateMod"));
    assert!(!new_text.contains("templatemod"));
    assert!(!new_text.contains("Template Mod"));

    let entries = vec![path("/work/Foo Bar"), path("/work/Foo Bar/TemplateMod.java")];
    let plan = build_plan(&entries, &t);
    assert_eq!(
        steps(&plan),
        vec![("/work/Foo Bar/TemplateMod.java".to_string(), "/work/Foo Bar/FooBar.java".to_string())]
    );
}

#[test]
fn scenario_directory_renamed_after_contents() {
    let t = foo_bar();
    let content = "package templatemod;\nclass Main {}\n";
    let new_content = rewritten_content(&chars(content), &t).expect("content changes");
    assert_eq!(text(&new_content), "package foobar;\nclass Main {}\n");

    let entries = vec![
        path("/work/proj"),
        path("/work/proj/templatemod"),
        path("/work/proj/templatemod/Main.java"),
    ];
    let plan = build_plan(&entries, &t);
    assert_eq!(
        steps(&plan),
        vec![("/work/proj/templatemod".to_string(), "/work/proj/foobar".to_string())]
    );
}

#[test]
fn scenario_opaque_file() {
    let t = foo_bar();
    let jar = path("/work/proj/libs/TemplateMod.jar");
    assert!(!opens_for_rewrite(&jar, true));
    assert!(opens_for_rewrite(&path("/work/proj/TemplateMod.java"), true));
    let plan = build_plan(&vec![jar], &t);
    assert_eq!(
        steps(&plan),
        vec![("/work/proj/libs/TemplateMod.jar".to_string(), "/work/proj/libs/FooBar.jar".to_string())]
    );
}

#[test]
fn nested_plan_is_deepest_first() {
    let t = foo_bar();
    let entries = vec![
        path("r"),
        path("r/templatemod"),
        path("r/templatemod/TemplateMod.java"),
        path("r/templatemod/sub"),
        path("r/templatemod/sub/templatemod.json"),
        path("r/Template Mod.txt"),
        path("r/other.txt"),
    ];
    let plan = build_plan(&entries, &t);
    assert_eq!(
        steps(&plan),
        vec![
            ("r/templatemod/sub/templatemod.json".to_string(), "r/templatemod/sub/foobar.json".to_string()),
            ("r/templatemod/TemplateMod.java".to_string(), "r/templatemod/FooBar.java".to_string()),
            ("r/templatemod".to_string(), "r/foobar".to_string()),
            ("r/Template Mod.txt".to_string(), "r/Foo Bar.txt".to_string()),
        ]
    );
}

#[test]
fn plan_is_the_same_twice() {
    let t = foo_bar();
    let entries = vec![path("a/templatemod"), path("a/templatemod/x/TemplateMod.cfg"), path("a/b")];
    assert_eq!(steps(&build_plan(&entries, &t)), steps(&build_plan(&entries, &t)));
}

#[test]
fn untouched_tree_has_empty_plan_and_unchanged_content() {
    let t = foo_bar();
    let entries = vec![path("/w/p"), path("/w/p/src"), path("/w/p/src/Main.java"), path("/w/p/lib.jar")];
    assert!(build_plan(&entries, &t).is_empty());
    assert!(rewritten_content(&chars("nothing to see here, Template_Mod"), &t).is_none());
    assert!(rewritten_content(&chars(""), &t).is_none());
}

#[test]
fn root_entry_is_renamed_too() {
    let t = foo_bar();
    let plan = build_plan(&vec![path("/home/TemplateMod")], &t);
    assert_eq!(steps(&plan), vec![("/home/TemplateMod".to_string(), "/home/FooBar".to_string())]);
    assert!(build_plan(&vec![vec![]], &t).is_empty());
    assert!(rename_of(&vec![], &t).is_none());
}

#[test]
fn single_pass_does_not_rescan_replacements() {
    let t = IdentityTriple::from_template(chars("templatemodX"), chars("TemplateMod"), chars("Template Mod 2"));
    assert_eq!(rewrite("TemplateMod templatemod Template Mod", &t), "templatemodX TemplateMod Template Mod 2");
}

#[test]
fn earlier_placeholder_wins_at_one_position() {
    let t = IdentityTriple::new(
        Substitution::new(chars("ab"), chars("1")),
        Substitution::new(chars("abc"), chars("2")),
        Substitution::new(chars("b"), chars("3")),
    );
    assert_eq!(rewrite("abcab b", &t), "1c1 3");
}

#[test]
fn empty_placeholder_never_matches() {
    let t = IdentityTriple::new(
        Substitution::new(chars(""), chars("x")),
        Substitution::new(chars("q"), chars("Q")),
        Substitution::new(chars(""), chars("y")),
    );
    assert_eq!(rewrite("aqa", &t), "aQa");
    assert!(!occurs_at_exec(&chars("abc"), 1, &chars("")));
    assert!(occurs_at_exec(&chars("abc"), 1, &chars("bc")));
    assert!(!occurs_at_exec(&chars("abc"), 2, &chars("cd")));
}

#[test]
fn repeated_and_adjacent_placeholders() {
    let t = foo_bar();
    assert_eq!(rewrite("TemplateModTemplateMod", &t), "FooBarFooBar");
    assert_eq!(rewrite("templatemod.templatemod", &t), "foobar.foobar");
    assert_eq!(rewrite("Template Mod!", &t), "Foo Bar!");
    assert_eq!(rewrite("TemplateMo", &t), "TemplateMo");
}

#[test]
fn single_occurrence_is_replaced_once() {
    let t = foo_bar();
    let out = rewrite("id: templatemod;", &t);
    assert_eq!(out, "id: foobar;");
    assert_eq!(out.matches("foobar").count(), 1);
}

#[test]
fn opaque_names() {
    assert!(is_opaque(&chars("a.jar")));
    assert!(is_opaque(&chars("TemplateMod-1.0.jar")));
    assert!(is_opaque(&chars("..jar")));
    assert!(!is_opaque(&chars(".jar")));
    assert!(!is_opaque(&chars("jar")));
    assert!(!is_opaque(&chars("a.jars")));
    assert!(!is_opaque(&chars("a.JAR")));
    assert!(!is_opaque(&chars("")));
    assert!(!opens_for_rewrite(&path("/p/src"), false));
    assert!(opens_for_rewrite(&vec![], true));
}

#[test]
fn identity_from_display_name() {
    let t = IdentityTriple::for_display_name(chars("My Cool Mod"));
    assert_eq!(text(&t.class_name.replacement), "MyCoolMod");
    assert_eq!(text(&t.namespace.replacement), "mycoolmod");
    assert_eq!(text(&t.display_name.replacement), "My Cool Mod");
    assert_eq!(text(&t.class_name.placeholder), "TemplateMod");
    assert_eq!(text(&t.namespace.placeholder), "templatemod");
    assert_eq!(text(&t.display_name.placeholder), "Template Mod");
    assert_eq!(text(&class_name_of(&chars(" a b  c "))), "abc");
    assert_eq!(text(&class_name_of(&chars(""))), "");
}

#[test]
fn helpers_copy_and_compare() {
    assert!(same_chars(&chars("abc"), &chars("abc")));
    assert!(!same_chars(&chars("abc"), &chars("abd")));
    assert!(!same_chars(&chars("abc"), &chars("ab")));
    let p = path("x/y z/w");
    assert_eq!(copy_path(&p), p);
}

#[test]
fn occurrence_past_the_end() {
    assert!(!occurs_at_exec(&chars("abc"), 4, &chars("a")));
    assert!(!occurs_at_exec(&chars("abc"), 3, &chars("a")));
    assert!(occurs_at_exec(&chars("abc"), 0, &chars("abc")));
}
