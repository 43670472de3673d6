use mimic_ai::fragment::{Category, Fragment, Source};

#[test]
fn parse_with_frontmatter() {
    let content = "---\ndescription: A senior backend engineer\ntags: [backend, apis]\n---\nYou are a senior backend engineer.";
    let frag = Fragment::parse(
        content,
        "backend-engineer",
        Category::Persona,
        Source::BuiltIn,
    );
    assert_eq!(frag.name, "backend-engineer");
    assert_eq!(frag.description, "A senior backend engineer");
    assert_eq!(frag.tags, vec!["backend", "apis"]);
    assert_eq!(frag.body, "You are a senior backend engineer.");
}

#[test]
fn parse_without_frontmatter() {
    let content = "You are a senior backend engineer.\nYou love Rust.";
    let frag = Fragment::parse(
        content,
        "backend-engineer",
        Category::Persona,
        Source::BuiltIn,
    );
    assert_eq!(frag.description, "You are a senior backend engineer.");
    assert!(frag.tags.is_empty());
    assert_eq!(frag.body, content);
}

#[test]
fn parse_empty_frontmatter() {
    let content = "---\n---\nJust a body.";
    let frag = Fragment::parse(content, "test", Category::Skill, Source::Global);
    assert_eq!(frag.description, "Just a body.");
    assert!(frag.tags.is_empty());
}

#[test]
fn parse_with_group_and_level() {
    let content = "---\ndescription: Go expertise\ntags: [go]\ngroup: backend\n---\nYou write idiomatic Go.";
    let frag = Fragment::parse(content, "go", Category::Skill, Source::BuiltIn);
    assert_eq!(frag.group.as_deref(), Some("backend"));
    assert_eq!(frag.level, None);
    assert!(frag.skill_groups.is_empty());
}

#[test]
fn parse_with_skill_groups_and_level() {
    let content = "---\ndescription: Senior backend engineer\ntags: [backend]\nlevel: senior\nskill_groups: [backend, data, general]\n---\nYou are a senior backend engineer.";
    let frag = Fragment::parse(
        content,
        "backend-engineer",
        Category::Persona,
        Source::BuiltIn,
    );
    assert_eq!(frag.level.as_deref(), Some("senior"));
    assert_eq!(frag.skill_groups, vec!["backend", "data", "general"]);
    assert_eq!(frag.group, None);
}

#[test]
fn category_dir_roundtrip() {
    for cat in Category::all() {
        let dir = cat.dir_name();
        assert_eq!(Category::from_dir_name(dir), Some(cat));
    }
}

#[test]
fn from_name_singular_and_plural() {
    assert_eq!(Category::from_name("skill"), Some(Category::Skill));
    assert_eq!(Category::from_name("skills"), Some(Category::Skill));
    assert_eq!(Category::from_name("persona"), Some(Category::Persona));
    assert_eq!(Category::from_name("personas"), Some(Category::Persona));
    assert_eq!(Category::from_name("context"), Some(Category::Context));
    assert_eq!(Category::from_name("contexts"), Some(Category::Context));
    assert_eq!(Category::from_name("tone"), Some(Category::Tone));
    assert_eq!(Category::from_name("tones"), Some(Category::Tone));
    assert_eq!(Category::from_name("constraint"), Some(Category::Constraint));
    assert_eq!(Category::from_name("constraints"), Some(Category::Constraint));
    assert_eq!(Category::from_name("invalid"), None);
}

#[test]
fn parse_unclosed_fence_is_body() {
    let content = "---\ndescription: never closed\nBody-ish text.";
    let frag = Fragment::parse(content, "odd", Category::Context, Source::Project);
    assert!(frag.tags.is_empty());
    assert_eq!(frag.body, content.trim());
    assert_eq!(frag.description, "---");
}

#[test]
fn parse_strict_reports_unknown_fields() {
    let content = "---\ndescrption: typo\ntags: [a]\n---\nBody.";
    let (fm, unknown, body) =
        mimic_ai::fragment::parse_frontmatter_strict(content).unwrap();
    assert_eq!(unknown, vec!["descrption"]);
    assert!(fm.description.is_none());
    assert_eq!(fm.tags, vec!["a"]);
    assert_eq!(body, "\nBody.");
}

#[test]
fn parse_strict_reports_decode_errors() {
    let content = "---\ntags: [unclosed\n---\nBody.";
    let result = mimic_ai::fragment::parse_frontmatter_strict(content);
    assert!(result.is_err());
}

#[test]
fn parse_strict_without_fences_keeps_body() {
    let content = "Just text, no metadata.";
    let (fm, unknown, body) =
        mimic_ai::fragment::parse_frontmatter_strict(content).unwrap();
    assert!(fm.description.is_none());
    assert!(unknown.is_empty());
    assert_eq!(body, content);
}

#[test]
fn parse_wrong_field_shape_is_empty_metadata() {
    // a scalar where a list is required fails the decode; the lenient
    // parser then treats the metadata as absent
    let content = "---\ntags: single\ndescription: kept?\n---\nThe body.";
    let frag = Fragment::parse(content, "x", Category::Skill, Source::BuiltIn);
    assert!(frag.tags.is_empty());
    assert_eq!(frag.description, "The body.");
}

#[test]
fn parse_explicit_null_field_is_absent() {
    let content = "---\ndescription:\ntags: [a]\n---\nThe body.";
    let frag = Fragment::parse(content, "x", Category::Tone, Source::Global);
    assert_eq!(frag.description, "The body.");
    assert_eq!(frag.tags, vec!["a"]);
}
