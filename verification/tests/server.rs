use mimic_ai::fragment::Category;
use mimic_ai::query::{filter_prefix, parse_category, parse_resource_uri, recommend, split_and_trim};
use mimic_ai::registry::Registry;

fn registry() -> Registry {
    Registry::new(Vec::new(), Vec::new())
}

#[test]
fn parse_category_persona() {
    assert_eq!(parse_category("persona"), Some(Category::Persona));
}

#[test]
fn parse_category_skill() {
    assert_eq!(parse_category("skill"), Some(Category::Skill));
}

#[test]
fn parse_category_context() {
    assert_eq!(parse_category("context"), Some(Category::Context));
}

#[test]
fn parse_category_tone() {
    assert_eq!(parse_category("tone"), Some(Category::Tone));
}

#[test]
fn parse_category_constraint() {
    assert_eq!(parse_category("constraint"), Some(Category::Constraint));
}

#[test]
fn parse_category_invalid() {
    assert_eq!(parse_category("unknown"), None);
    assert_eq!(parse_category(""), None);
    assert_eq!(parse_category("Persona"), None);
}

#[test]
fn parse_resource_uri_valid() {
    let (cat, name) = parse_resource_uri("mimic://fragments/personas/backend-engineer").unwrap();
    assert_eq!(cat, Category::Persona);
    assert_eq!(name, "backend-engineer");
}

#[test]
fn parse_resource_uri_valid_skill() {
    let (cat, name) = parse_resource_uri("mimic://fragments/skills/go").unwrap();
    assert_eq!(cat, Category::Skill);
    assert_eq!(name, "go");
}

#[test]
fn parse_resource_uri_wrong_prefix() {
    assert!(parse_resource_uri("other://fragments/personas/test").is_none());
}

#[test]
fn parse_resource_uri_missing_parts() {
    assert!(parse_resource_uri("mimic://fragments/").is_none());
    assert!(parse_resource_uri("mimic://fragments/personas").is_none());
}

#[test]
fn parse_resource_uri_invalid_category() {
    assert!(parse_resource_uri("mimic://fragments/unknown/test").is_none());
}

#[test]
fn parse_resource_uri_all_categories() {
    for cat in Category::all() {
        let uri = format!("mimic://fragments/{}/test-name", cat.dir_name());
        let (parsed_cat, parsed_name) =
            parse_resource_uri(&uri).unwrap_or_else(|| panic!("Failed to parse URI: {}", uri));
        assert_eq!(parsed_cat, cat);
        assert_eq!(parsed_name, "test-name");
    }
}

#[test]
fn recommend_returns_skills_for_persona() {
    let registry = registry();
    let result = recommend(&registry, "backend-engineer", &vec![], &vec![]).unwrap();
    assert_eq!(result.persona.name, "backend-engineer");
    assert!(!result.skills.is_empty(), "should have skills");
    let persona = registry.get(Category::Persona, "backend-engineer").unwrap();
    if !persona.skill_groups.is_empty() {
        for skill in &result.skills {
            assert!(
                skill
                    .group
                    .as_ref()
                    .is_some_and(|g| persona.skill_groups.contains(g)),
                "skill {} should belong to persona's skill_groups",
                skill.name
            );
        }
    }
}

#[test]
fn recommend_groups_override() {
    let registry = registry();
    let result = recommend(
        &registry,
        "backend-engineer",
        &vec!["frontend".to_string()],
        &vec![],
    )
    .unwrap();
    for skill in &result.skills {
        assert_eq!(
            skill.group.as_deref(),
            Some("frontend"),
            "skill {} should be in frontend group",
            skill.name
        );
    }
}

#[test]
fn recommend_tag_filter() {
    let registry = registry();
    let result = recommend(
        &registry,
        "backend-engineer",
        &vec![],
        &vec!["security".to_string()],
    )
    .unwrap();
    assert!(!result.tones.is_empty(), "tones should always be included");
    for skill in &result.skills {
        let frag = registry.get(Category::Skill, &skill.name).unwrap();
        assert!(
            frag.tags.contains(&"security".to_string()),
            "skill {} should have security tag",
            skill.name
        );
    }
}

#[test]
fn recommend_unknown_persona_errors() {
    let registry = registry();
    let result = recommend(&registry, "nonexistent-persona", &vec![], &vec![]);
    assert!(result.is_err());
    assert!(result.unwrap_err().contains("not found"));
}

#[test]
fn recommend_includes_all_categories() {
    let registry = registry();
    let result = recommend(&registry, "backend-engineer", &vec![], &vec![]).unwrap();
    assert!(!result.tones.is_empty(), "should have tones");
    assert!(!result.contexts.is_empty(), "should have contexts");
}

#[test]
fn filter_prefix_keeps_matching_names() {
    let names = vec![
        "backend-engineer".to_string(),
        "frontend-engineer".to_string(),
        "back-office".to_string(),
    ];
    let filtered = filter_prefix(&names, "back");
    assert_eq!(filtered, vec!["backend-engineer", "back-office"]);
    let all = filter_prefix(&names, "");
    assert_eq!(all.len(), 3);
}

#[test]
fn split_and_trim_splits_on_commas() {
    assert_eq!(split_and_trim("go, postgresql"), vec!["go", "postgresql"]);
    assert_eq!(split_and_trim(" one "), vec!["one"]);
    assert_eq!(split_and_trim("a,,b"), vec!["a", "", "b"]);
}
