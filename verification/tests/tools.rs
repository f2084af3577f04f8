use gitflex::password::{generate, WORD_COUNT};
use gitflex::tools::{
    alias_exists, build_outcome, package_name, plan_aliases, summary_lines, Outcome, ToolResult,
};

#[test]
fn package_names_come_from_the_package_section() {
    let manifest = "[workspace]\nname = \"not-this\"\n\n  [package]\n  version = \"1\"\n  name = \"tool\"\n";
    assert_eq!(package_name(manifest), Some("tool".to_string()));
    assert_eq!(package_name("[package]\nname='single'\n"), Some("single".to_string()));
    assert_eq!(package_name("[package]\nname = \"\"\nname = \"second\"\n"), Some("second".to_string()));
    assert_eq!(package_name("[dependencies]\nname = \"dep\"\n"), None);
    assert_eq!(package_name("[package]\nnames = \"x\"\n"), None);
    assert_eq!(package_name(""), None);
}

#[test]
fn aliases_are_found_with_leading_white_space() {
    let zshrc = "export A=1\n   alias tool=\"/bin/tool\"\n";
    assert!(alias_exists(zshrc, "tool"));
    assert!(!alias_exists(zshrc, "other"));
    assert!(!alias_exists("alias toolbox=1\n", "tool"));
}

#[test]
fn builds_are_judged_by_the_binary_hash() {
    assert_eq!(build_outcome(None, Some(1)), Outcome::NewlyInstalled);
    assert_eq!(build_outcome(Some(1), Some(2)), Outcome::Updated);
    assert_eq!(build_outcome(Some(1), Some(1)), Outcome::Unchanged);
    assert_eq!(
        build_outcome(Some(1), None),
        Outcome::Failed("build succeeded but binary not found".to_string())
    );
}

fn result(name: &str, outcome: Outcome, binary: Option<&str>) -> ToolResult {
    ToolResult {
        name: name.to_string(),
        outcome,
        binary: binary.map(str::to_string),
    }
}

#[test]
fn aliases_are_planned_for_built_tools_without_one() {
    let results = vec![
        result("new", Outcome::NewlyInstalled, Some("/t/new")),
        result("broken", Outcome::Failed("x".to_string()), Some("/t/broken")),
        result("known", Outcome::Updated, Some("/t/known")),
        result("nobinary", Outcome::Unchanged, None),
        result("same", Outcome::Unchanged, Some("/t/same")),
    ];
    let plan = plan_aliases("alias known=\"/t/known\"", &results);
    assert_eq!(plan.created, ["new", "same"]);
    assert_eq!(
        plan.block,
        "\n\n# toolinstall managed aliases\nalias new=\"/t/new\"\nalias same=\"/t/same\"\n"
    );
    let plan = plan_aliases("", &results);
    assert_eq!(plan.created, ["new", "known", "same"]);
    assert!(plan.block.starts_with("\n# toolinstall managed aliases\n"));
    let none = plan_aliases("", &vec![result("broken", Outcome::Failed("x".to_string()), None)]);
    assert!(none.created.is_empty() && none.block.is_empty());
}

#[test]
fn the_summary_groups_tools_by_outcome() {
    let results = vec![
        result("a", Outcome::NewlyInstalled, Some("/a")),
        result("b", Outcome::Unchanged, Some("/b")),
        result("c", Outcome::Failed("cargo build exited with 1".to_string()), Some("/c")),
        result("d", Outcome::NewlyInstalled, Some("/d")),
    ];
    assert_eq!(
        summary_lines(&results, &vec!["a".to_string(), "d".to_string()]),
        [
            "==================== Summary ====================",
            "Newly installed: a, d",
            "Updated: none",
            "Unchanged: b",
            "Failed:",
            "  - c: cargo build exited with 1",
            "Aliases created: a, d",
            "  Run `source ~/.zshrc` (or open a new shell) to use them.",
        ]
    );
    assert_eq!(
        summary_lines(&vec![], &vec![]),
        [
            "==================== Summary ====================",
            "Newly installed: none",
            "Updated: none",
            "Unchanged: none",
            "Aliases created: none",
        ]
    );
}

#[test]
fn produces_six_words_of_at_least_five_letters() {
    let words = ["correct", "battery", "staple", "pasture", "rebuild"];
    let mut rng = rand::rng();
    let password = generate(&words, WORD_COUNT, &mut rng);

    let parts: Vec<&str> = password.split('-').collect();
    assert_eq!(parts.len(), WORD_COUNT);
    for part in parts {
        assert!(part.chars().count() >= 5, "word too short: {part}");
        assert!(
            part.chars().all(|c| c.is_ascii_lowercase()),
            "unexpected characters in: {part}"
        );
        assert!(words.iter().any(|word| *word == part))
    }
}

#[test]
fn no_words_make_an_empty_passphrase() {
    let mut rng = rand::rng();
    assert_eq!(generate(&[], 0, &mut rng), "");
    assert_eq!(generate(&["only"], 3, &mut rng), "only-only-only");
}
