use mimic_ai::fragment::{Category, Source};
use mimic_ai::registry::{RawDoc, Registry};

fn registry() -> Registry {
    Registry::new(Vec::new(), Vec::new())
}

fn doc(file_name: &str, category: Option<Category>, text: &str) -> RawDoc {
    RawDoc {
        file_name: file_name.to_string(),
        category,
        text: text.to_string(),
    }
}

#[test]
fn builtin_defaults_load() {
    let registry = registry();
    let personas = registry.names_for_category(Category::Persona);
    assert!(!personas.is_empty(), "Should have built-in personas");
    assert!(
        registry
            .get(Category::Persona, "backend-engineer")
            .is_some(),
        "Should have backend-engineer persona"
    );
}

#[test]
fn list_with_category_filter() {
    let registry = registry();
    let skills = registry.list(Some(Category::Skill), None, None);
    assert!(skills.iter().all(|f| f.category == Category::Skill));
}

#[test]
fn list_with_group_filter() {
    let registry = registry();
    let backend_skills = registry.list(Some(Category::Skill), None, Some("backend"));
    assert!(
        !backend_skills.is_empty(),
        "Should have backend-grouped skills"
    );
    assert!(backend_skills
        .iter()
        .all(|f| f.group.as_deref() == Some("backend")));
}

#[test]
fn get_nonexistent_fragment() {
    let registry = registry();
    assert!(registry.get(Category::Persona, "nonexistent").is_none());
}

#[test]
fn list_with_tag_filter() {
    let registry = registry();
    let tagged = registry.list(None, Some("security"), None);
    assert!(
        tagged
            .iter()
            .all(|f| f.tags.contains(&"security".to_string())),
        "All fragments should have the 'security' tag"
    );
}

#[test]
fn list_with_nonexistent_group() {
    let registry = registry();
    let results = registry.list(None, None, Some("nonexistent-group"));
    assert!(results.is_empty());
}

#[test]
fn names_for_category_sorted() {
    let registry = registry();
    let names = registry.names_for_category(Category::Persona);
    let mut sorted = names.to_vec();
    sorted.sort();
    assert_eq!(
        names,
        &sorted[..],
        "names_for_category should return sorted names"
    );
}

#[test]
fn all_tags_deduplicated() {
    let registry = registry();
    let tags = registry.all_tags();
    let unique: std::collections::BTreeSet<&String> = tags.iter().collect();
    assert_eq!(
        tags.len(),
        unique.len(),
        "all_tags should have no duplicates"
    );
}

#[test]
fn all_groups_deduplicated() {
    let registry = registry();
    let groups = registry.all_groups();
    let unique: std::collections::BTreeSet<&String> = groups.iter().collect();
    assert_eq!(
        groups.len(),
        unique.len(),
        "all_groups should have no duplicates"
    );
}

#[test]
fn all_tags_sorted() {
    let registry = registry();
    let tags = registry.all_tags();
    let mut sorted = tags.to_vec();
    sorted.sort();
    assert_eq!(tags, &sorted[..]);
}

#[test]
fn project_fragments_override_builtin() {
    let project = vec![doc(
        "backend-engineer.md",
        Some(Category::Persona),
        "---\ndescription: Custom backend engineer\n---\nCustom body.",
    )];
    let registry = Registry::new(Vec::new(), project);
    let frag = registry.get(Category::Persona, "backend-engineer").unwrap();
    assert_eq!(frag.description, "Custom backend engineer");
    assert_eq!(frag.source, Source::Project);
}

#[test]
fn project_overrides_global_overrides_builtin() {
    let global = vec![doc(
        "shared.md",
        Some(Category::Skill),
        "---\ndescription: from the global tier\ngroup: a\n---\nGlobal text.",
    )];
    let project = vec![doc(
        "shared.md",
        Some(Category::Skill),
        "---\ndescription: from the project tier\ngroup: b\n---\nProject text.",
    )];
    let registry = Registry::new(global, project);
    let frag = registry.get(Category::Skill, "shared").unwrap();
    assert_eq!(frag.description, "from the project tier");
    assert_eq!(frag.source, Source::Project);

    let only_global = Registry::new(
        vec![doc(
            "shared.md",
            Some(Category::Skill),
            "---\ndescription: from the global tier\ngroup: a\n---\nGlobal text.",
        )],
        Vec::new(),
    );
    let g = only_global.get(Category::Skill, "shared").unwrap();
    assert_eq!(g.source, Source::Global);
}

#[test]
fn builtin_duplicates_keep_first() {
    let builtin = vec![
        doc(
            "twin.md",
            Some(Category::Tone),
            "---\ndescription: first writer\n---\nFirst.",
        ),
        doc(
            "twin.md",
            Some(Category::Tone),
            "---\ndescription: second writer\n---\nSecond.",
        ),
    ];
    let registry = Registry::from_docs(builtin, Vec::new(), Vec::new());
    let frag = registry.get(Category::Tone, "twin").unwrap();
    assert_eq!(frag.description, "first writer");
    assert_eq!(frag.source, Source::BuiltIn);
}

#[test]
fn later_docs_win_within_global_tier() {
    let global = vec![
        doc(
            "twin.md",
            Some(Category::Tone),
            "---\ndescription: first writer\n---\nFirst.",
        ),
        doc(
            "twin.md",
            Some(Category::Tone),
            "---\ndescription: second writer\n---\nSecond.",
        ),
    ];
    let registry = Registry::new(global, Vec::new());
    let frag = registry.get(Category::Tone, "twin").unwrap();
    assert_eq!(frag.description, "second writer");
}

#[test]
fn non_md_files_are_ignored() {
    let project = vec![
        doc(
            "valid.md",
            Some(Category::Skill),
            "---\ndescription: A skill\ntags: [test]\ngroup: backend\n---\nSkill body.",
        ),
        doc("ignored.txt", Some(Category::Skill), "Not a fragment."),
        doc("ignored.yaml", Some(Category::Skill), "also: ignored"),
    ];
    let registry = Registry::new(Vec::new(), project);
    assert!(registry.get(Category::Skill, "valid").is_some());
    assert!(registry.get(Category::Skill, "ignored").is_none());
}

#[test]
fn dotted_file_names_keep_their_dots() {
    let project = vec![doc(
        "my.dotted.name.md",
        Some(Category::Context),
        "Dotted name body.",
    )];
    let registry = Registry::new(Vec::new(), project);
    assert!(registry.get(Category::Context, "my.dotted.name").is_some());
}

#[test]
fn root_level_doc_with_category_loads() {
    let project = vec![doc(
        "vue.md",
        None,
        "---\ncategory: skill\ndescription: Vue expertise\ntags: [frontend]\ngroup: frontend\n---\nYou are an expert in Vue.",
    )];
    let registry = Registry::new(Vec::new(), project);
    let frag = registry.get(Category::Skill, "vue").unwrap();
    assert_eq!(frag.category, Category::Skill);
    assert_eq!(frag.description, "Vue expertise");
}

#[test]
fn root_level_doc_without_category_is_skipped() {
    let project = vec![doc(
        "orphan.md",
        None,
        "---\ndescription: No category\n---\nBody here.",
    )];
    let registry = Registry::new(Vec::new(), project);
    for cat in Category::all() {
        assert!(registry.get(cat, "orphan").is_none());
    }
}

#[test]
fn root_level_doc_with_unknown_category_is_skipped() {
    let project = vec![doc(
        "odd.md",
        None,
        "---\ncategory: gizmo\ndescription: Unknown\n---\nBody here.",
    )];
    let registry = Registry::new(Vec::new(), project);
    for cat in Category::all() {
        assert!(registry.get(cat, "odd").is_none());
    }
}

#[test]
fn root_level_doc_overrides_builtin() {
    let project = vec![doc(
        "backend-engineer.md",
        None,
        "---\ncategory: persona\ndescription: Custom backend from root\n---\nCustom root body.",
    )];
    let registry = Registry::new(Vec::new(), project);
    let frag = registry.get(Category::Persona, "backend-engineer").unwrap();
    assert_eq!(frag.description, "Custom backend from root");
    assert_eq!(frag.source, Source::Project);
}

#[test]
fn list_sorts_by_category_directory_then_name() {
    let registry = registry();
    let all = registry.list(None, None, None);
    let keys: Vec<(String, String)> = all
        .iter()
        .map(|f| (f.category.dir_name().to_string(), f.name.clone()))
        .collect();
    let mut sorted = keys.clone();
    sorted.sort();
    assert_eq!(keys, sorted, "list() should sort by (directory, name)");
    let unique: std::collections::BTreeSet<&(String, String)> = keys.iter().collect();
    assert_eq!(keys.len(), unique.len(), "list() should have no duplicates");
}
