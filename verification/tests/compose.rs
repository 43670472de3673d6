use mimic_ai::compose::{compose, ComposeRequest};
use mimic_ai::fragment::Category;
use mimic_ai::registry::{RawDoc, Registry};

fn registry() -> Registry {
    Registry::new(Vec::new(), Vec::new())
}

fn request(
    persona: &str,
    skills: Vec<&str>,
    contexts: Vec<&str>,
    tones: Vec<&str>,
    constraints: Vec<&str>,
) -> ComposeRequest {
    ComposeRequest {
        persona: persona.to_string(),
        skills: skills.into_iter().map(|s| s.to_string()).collect(),
        contexts: contexts.into_iter().map(|s| s.to_string()).collect(),
        tones: tones.into_iter().map(|s| s.to_string()).collect(),
        constraints: constraints.into_iter().map(|s| s.to_string()).collect(),
    }
}

#[test]
fn compose_compose_persona_only() {
    let registry = registry();
    let req = request("backend-engineer", vec![], vec![], vec![], vec![]);
    let result = compose(&registry, &req).unwrap();
    assert!(!result.is_empty());
    assert!(!result.contains("## Expertise"));
}

#[test]
fn compose_full() {
    let registry = registry();
    let req = request(
        "backend-engineer",
        vec!["go", "postgresql"],
        vec!["code-review"],
        vec!["concise"],
        vec!["no-frameworks"],
    );
    let result = compose(&registry, &req).unwrap();
    assert!(result.contains("## Expertise"));
    assert!(result.contains("## Context"));
    assert!(result.contains("## Communication Style"));
    assert!(result.contains("## Constraints"));
}

#[test]
fn compose_missing_persona() {
    let registry = registry();
    let req = request("nonexistent", vec![], vec![], vec![], vec![]);
    let result = compose(&registry, &req);
    assert!(result.is_err());
    assert!(result.unwrap_err().contains("not found"));
}

#[test]
fn compose_missing_skill() {
    let registry = registry();
    let req = request(
        "backend-engineer",
        vec!["nonexistent-skill"],
        vec![],
        vec![],
        vec![],
    );
    let result = compose(&registry, &req);
    assert!(result.is_err());
}

#[test]
fn compose_missing_context() {
    let registry = registry();
    let req = request(
        "backend-engineer",
        vec![],
        vec!["nonexistent-context"],
        vec![],
        vec![],
    );
    let result = compose(&registry, &req);
    assert!(result.is_err());
    assert!(result.unwrap_err().contains("Context"));
}

#[test]
fn compose_missing_tone() {
    let registry = registry();
    let req = request(
        "backend-engineer",
        vec![],
        vec![],
        vec!["nonexistent-tone"],
        vec![],
    );
    let result = compose(&registry, &req);
    assert!(result.is_err());
    assert!(result.unwrap_err().contains("Tone"));
}

#[test]
fn compose_multiple_contexts() {
    let registry = registry();
    let req = request(
        "backend-engineer",
        vec![],
        vec!["code-review", "greenfield-project"],
        vec![],
        vec![],
    );
    let result = compose(&registry, &req).unwrap();
    assert!(result.contains("## Context"));
    let context_section = result.split("## Context").nth(1).unwrap();
    assert!(context_section.len() > 10);
}

#[test]
fn compose_multiple_tones() {
    let registry = registry();
    let req = request(
        "backend-engineer",
        vec![],
        vec![],
        vec!["concise", "pedagogical"],
        vec![],
    );
    let result = compose(&registry, &req).unwrap();
    assert!(result.contains("## Communication Style"));
    let style_section = result.split("## Communication Style").nth(1).unwrap();
    assert!(style_section.len() > 10);
}

#[test]
fn compose_missing_constraint() {
    let registry = registry();
    let req = request(
        "backend-engineer",
        vec![],
        vec![],
        vec![],
        vec!["nonexistent-constraint"],
    );
    let result = compose(&registry, &req);
    assert!(result.is_err());
    assert!(result.unwrap_err().contains("Constraint"));
}

#[test]
fn compose_exact_layout() {
    let project = vec![
        RawDoc {
            file_name: "p.md".to_string(),
            category: Some(Category::Persona),
            text: "P body.".to_string(),
        },
        RawDoc {
            file_name: "s1.md".to_string(),
            category: Some(Category::Skill),
            text: "S1 body.".to_string(),
        },
        RawDoc {
            file_name: "s2.md".to_string(),
            category: Some(Category::Skill),
            text: "S2 body.".to_string(),
        },
    ];
    let registry = Registry::from_docs(Vec::new(), Vec::new(), project);
    let req = request("p", vec!["s1", "s2"], vec![], vec![], vec![]);
    let result = compose(&registry, &req).unwrap();
    assert_eq!(result, "P body.\n\n## Expertise\n\nS1 body.\n\nS2 body.");
}

#[test]
fn compose_error_names_first_missing_skill() {
    let registry = registry();
    let req = request(
        "backend-engineer",
        vec!["go", "missing-one", "missing-two"],
        vec![],
        vec![],
        vec![],
    );
    let err = compose(&registry, &req).unwrap_err();
    assert_eq!(err, "Skill 'missing-one' not found");
}
