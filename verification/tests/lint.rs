use mimic_ai::fragment::{Category, Source};
use mimic_ai::lint::{
    build_context, walk_builtin, CategoryConflict, FragmentContext, HasDescription, HasTags,
    LintRule, Linter, NonEmptyBody, PersonaHasLevel, PersonaHasSkillGroups, RootFileHasCategory,
    Severity, SkillHasGroup, UnknownFields, ValidYaml,
};

fn make_ctx(content: &str, category: Category) -> FragmentContext {
    build_context(content, "test.md", "test", category, Source::BuiltIn, false)
}

#[test]
fn valid_yaml_passes() {
    let ctx = make_ctx("---\ndescription: Hello\ntags: [a]\n---\nBody.", Category::Skill);
    let diags = ValidYaml.check(&ctx);
    assert!(diags.is_empty());
}

#[test]
fn valid_yaml_fails_on_bad_yaml() {
    let ctx = FragmentContext {
        file_path: "test.md".to_string(),
        filename_stem: "test".to_string(),
        category: Category::Skill,
        source: Source::BuiltIn,
        raw_content: String::new(),
        frontmatter: None,
        yaml_error: Some("bad yaml".to_string()),
        unknown_fields: vec![],
        body: String::new(),
        is_root_level: false,
    };
    let diags = ValidYaml.check(&ctx);
    assert_eq!(diags.len(), 1);
    assert_eq!(diags[0].severity, Severity::Error);
}

#[test]
fn non_empty_body_passes() {
    let ctx = make_ctx("---\ndescription: x\n---\nSome body.", Category::Skill);
    let diags = NonEmptyBody.check(&ctx);
    assert!(diags.is_empty());
}

#[test]
fn non_empty_body_fails_on_empty() {
    let ctx = make_ctx("---\ndescription: x\n---\n  \n", Category::Skill);
    let diags = NonEmptyBody.check(&ctx);
    assert_eq!(diags.len(), 1);
    assert_eq!(diags[0].severity, Severity::Error);
}

#[test]
fn has_description_warns_when_missing() {
    let ctx = make_ctx("---\ntags: [a]\n---\nBody.", Category::Skill);
    let diags = HasDescription.check(&ctx);
    assert_eq!(diags.len(), 1);
    assert_eq!(diags[0].severity, Severity::Warning);
}

#[test]
fn has_tags_warns_when_empty() {
    let ctx = make_ctx("---\ndescription: x\n---\nBody.", Category::Skill);
    let diags = HasTags.check(&ctx);
    assert_eq!(diags.len(), 1);
    assert_eq!(diags[0].severity, Severity::Warning);
}

#[test]
fn unknown_fields_detects_typos() {
    let ctx = make_ctx("---\ndescrption: typo\ntags: [a]\n---\nBody.", Category::Skill);
    let diags = UnknownFields.check(&ctx);
    assert_eq!(diags.len(), 1);
    assert!(diags[0].message.contains("descrption"));
}

#[test]
fn skill_has_group_warns_when_missing() {
    let ctx = make_ctx("---\ndescription: x\ntags: [a]\n---\nBody.", Category::Skill);
    let diags = SkillHasGroup.check(&ctx);
    assert_eq!(diags.len(), 1);
    assert_eq!(diags[0].severity, Severity::Warning);
}

#[test]
fn skill_has_group_skips_non_skills() {
    let ctx = make_ctx("---\ndescription: x\n---\nBody.", Category::Persona);
    let diags = SkillHasGroup.check(&ctx);
    assert!(diags.is_empty());
}

#[test]
fn persona_has_level_warns_when_missing() {
    let ctx = make_ctx("---\ndescription: x\ntags: [a]\n---\nBody.", Category::Persona);
    let diags = PersonaHasLevel.check(&ctx);
    assert_eq!(diags.len(), 1);
    assert_eq!(diags[0].severity, Severity::Warning);
}

#[test]
fn persona_has_skill_groups_warns_when_missing() {
    let ctx = make_ctx("---\ndescription: x\ntags: [a]\n---\nBody.", Category::Persona);
    let diags = PersonaHasSkillGroups.check(&ctx);
    assert_eq!(diags.len(), 1);
    assert_eq!(diags[0].severity, Severity::Warning);
}

#[test]
fn linter_runs_all_rules() {
    let linter = Linter::new();
    let ctx = make_ctx("---\ndescription: x\ntags: [a]\n---\nBody.", Category::Skill);
    let diags = linter.check(&ctx);
    assert!(diags.iter().all(|d| d.severity == Severity::Warning));
    assert!(diags.iter().any(|d| d.rule == "skill-has-group"));
}

#[test]
fn linter_catches_errors_and_warnings() {
    let linter = Linter::new();
    let ctx = FragmentContext {
        file_path: "test.md".to_string(),
        filename_stem: "test".to_string(),
        category: Category::Skill,
        source: Source::BuiltIn,
        raw_content: String::new(),
        frontmatter: None,
        yaml_error: Some("parse error".to_string()),
        unknown_fields: vec![],
        body: String::new(),
        is_root_level: false,
    };
    let diags = linter.check(&ctx);
    let errors: Vec<_> = diags
        .iter()
        .filter(|d| d.severity == Severity::Error)
        .collect();
    assert!(errors.len() >= 2);
}

#[test]
fn builtin_fragments_lint_clean() {
    let linter = Linter::new();
    let mut diagnostics = Vec::new();
    walk_builtin(&linter, &mut diagnostics);
    assert!(!diagnostics.iter().any(|d| d.severity == Severity::Error));
}

#[test]
fn root_file_without_category_is_an_error() {
    let ctx = build_context(
        "---\ndescription: x\ntags: [a]\n---\nBody.",
        "root.md",
        "root",
        Category::Skill,
        Source::Project,
        true,
    );
    let diags = RootFileHasCategory.check(&ctx);
    assert_eq!(diags.len(), 1);
    assert_eq!(diags[0].severity, Severity::Error);
}

#[test]
fn root_file_with_unknown_category_is_an_error() {
    let ctx = build_context(
        "---\ncategory: gizmo\ndescription: x\ntags: [a]\n---\nBody.",
        "root.md",
        "root",
        Category::Skill,
        Source::Project,
        true,
    );
    let diags = RootFileHasCategory.check(&ctx);
    assert_eq!(diags.len(), 1);
    assert!(diags[0].message.contains("gizmo"));
}

#[test]
fn category_conflict_warns_on_mismatch() {
    let ctx = make_ctx(
        "---\ncategory: tone\ndescription: x\ntags: [a]\ngroup: g\n---\nBody.",
        Category::Skill,
    );
    let diags = CategoryConflict.check(&ctx);
    assert_eq!(diags.len(), 1);
    assert_eq!(diags[0].severity, Severity::Warning);
    assert!(diags[0].message.contains("skills"));
}

#[test]
fn count_diagnostics_counts_by_severity() {
    let linter = Linter::new();
    let ctx = FragmentContext {
        file_path: "test.md".to_string(),
        filename_stem: "test".to_string(),
        category: Category::Persona,
        source: Source::BuiltIn,
        raw_content: String::new(),
        frontmatter: None,
        yaml_error: Some("parse error".to_string()),
        unknown_fields: vec![],
        body: String::new(),
        is_root_level: false,
    };
    let diags = linter.check(&ctx);
    let (errors, warnings) = mimic_ai::lint::count_diagnostics(&diags);
    assert_eq!(
        errors,
        diags.iter().filter(|d| d.severity == Severity::Error).count()
    );
    assert_eq!(
        warnings,
        diags
            .iter()
            .filter(|d| d.severity == Severity::Warning)
            .count()
    );
}
