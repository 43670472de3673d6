use mimic_ai::fragment::Category;
use mimic_ai::registry::{RawDoc, Registry};
use mimic_ai::resolve::{build_edges, fragment_to_node, resolve, Edge, Node, ResolveParams};

fn registry() -> Registry {
    Registry::new(Vec::new(), Vec::new())
}

fn params(
    persona: Option<&str>,
    tags: Vec<&str>,
    groups: Vec<&str>,
    include_edges: Option<bool>,
) -> ResolveParams {
    ResolveParams {
        persona: persona.map(|p| p.to_string()),
        tags: tags.into_iter().map(|t| t.to_string()).collect(),
        groups: groups.into_iter().map(|g| g.to_string()).collect(),
        include_edges,
    }
}

#[test]
fn persona_seeded_resolve() {
    let reg = registry();
    let result = resolve(&reg, &params(Some("backend-engineer"), vec![], vec![], Some(true)))
        .unwrap();

    assert!(result
        .nodes
        .iter()
        .any(|n| n.id == "persona:backend-engineer"));
    assert!(result.nodes.iter().any(|n| n.category == "skill"));
    assert!(result.nodes.iter().any(|n| n.category == "tone"));
    assert!(result.nodes.iter().any(|n| n.category == "context"));
    assert!(result.nodes.iter().any(|n| n.category == "constraint"));
    assert_eq!(
        result.meta.seed,
        Some("persona:backend-engineer".to_string())
    );
}

#[test]
fn skill_group_edges_from_persona() {
    let reg = registry();
    let result = resolve(&reg, &params(Some("backend-engineer"), vec![], vec![], Some(true)))
        .unwrap();

    let skill_group_edges: Vec<&Edge> = result
        .edges
        .iter()
        .filter(|e| e.relation == "skill_group")
        .collect();
    assert!(
        !skill_group_edges.is_empty(),
        "Should have skill_group edges"
    );
    for e in &skill_group_edges {
        assert_eq!(e.from, "persona:backend-engineer");
    }
}

#[test]
fn tag_edges_connect_fragments() {
    let reg = registry();
    let result = resolve(&reg, &params(None, vec![], vec![], Some(true))).unwrap();

    let tag_edges: Vec<&Edge> = result
        .edges
        .iter()
        .filter(|e| e.relation == "tag")
        .collect();
    for e in &tag_edges {
        assert!(result.nodes.iter().any(|n| n.id == e.from));
        assert!(result.nodes.iter().any(|n| n.id == e.to));
    }
}

#[test]
fn group_edges_connect_skills() {
    let reg = registry();
    let result = resolve(&reg, &params(None, vec![], vec!["backend"], Some(true))).unwrap();

    let group_edges: Vec<&Edge> = result
        .edges
        .iter()
        .filter(|e| e.relation == "group")
        .collect();
    for e in &group_edges {
        assert_eq!(e.label, "backend");
    }
}

#[test]
fn tag_filter_narrows_nodes() {
    let reg = registry();
    let all = resolve(&reg, &params(None, vec![], vec![], Some(false))).unwrap();
    let filtered = resolve(&reg, &params(None, vec!["security"], vec![], Some(false))).unwrap();

    assert!(
        filtered.meta.node_count < all.meta.node_count,
        "Tag filter should narrow node set: filtered={} all={}",
        filtered.meta.node_count,
        all.meta.node_count
    );
    for node in &filtered.nodes {
        if node.category != "tone" {
            assert!(
                node.tags.contains(&"security".to_string()),
                "Node {} should have 'security' tag",
                node.id
            );
        }
    }
}

#[test]
fn group_override_replaces_persona_skill_groups() {
    let reg = registry();
    let result = resolve(
        &reg,
        &params(Some("backend-engineer"), vec![], vec!["frontend"], Some(false)),
    )
    .unwrap();

    assert_eq!(result.meta.resolved_groups, vec!["frontend"]);
    for node in &result.nodes {
        if node.category == "skill" {
            assert_eq!(
                node.group.as_deref(),
                Some("frontend"),
                "Skill {} should be in frontend group",
                node.id
            );
        }
    }
}

#[test]
fn no_persona_resolve() {
    let reg = registry();
    let result = resolve(&reg, &params(None, vec![], vec![], Some(true))).unwrap();

    assert!(!result.nodes.iter().any(|n| n.category == "persona"));
    assert!(result.meta.seed.is_none());
    assert!(!result.edges.iter().any(|e| e.relation == "skill_group"));
    assert!(!result.edges.is_empty());
}

#[test]
fn nonexistent_persona_errors() {
    let reg = registry();
    let result = resolve(
        &reg,
        &params(Some("nonexistent-persona"), vec![], vec![], Some(true)),
    );
    assert!(result.is_err());
    assert!(result.unwrap_err().contains("not found"));
}

#[test]
fn include_edges_false_returns_empty_edges() {
    let reg = registry();
    let result = resolve(&reg, &params(Some("backend-engineer"), vec![], vec![], Some(false)))
        .unwrap();

    assert!(result.edges.is_empty());
    assert_eq!(result.meta.edge_count, 0);
    assert!(!result.nodes.is_empty());
}

#[test]
fn fragment_to_node_maps_all_fields() {
    let frag = mimic_ai::fragment::Fragment {
        name: "test-skill".to_string(),
        category: Category::Skill,
        description: "A test skill".to_string(),
        tags: vec!["rust".to_string(), "backend".to_string()],
        group: Some("backend".to_string()),
        level: Some("senior".to_string()),
        skill_groups: vec!["backend".to_string(), "general".to_string()],
        body: "Test body.".to_string(),
        source: mimic_ai::fragment::Source::Project,
    };

    let node = fragment_to_node(&frag);
    assert_eq!(node.id, "skill:test-skill");
    assert_eq!(node.category, "skill");
    assert_eq!(node.name, "test-skill");
    assert_eq!(node.description, "A test skill");
    assert_eq!(node.tags, vec!["rust", "backend"]);
    assert_eq!(node.group.as_deref(), Some("backend"));
    assert_eq!(node.level.as_deref(), Some("senior"));
    assert_eq!(node.skill_groups, vec!["backend", "general"]);
    assert_eq!(node.source, "project");
}

#[test]
fn tag_filter_always_includes_tones() {
    let reg = registry();
    let result = resolve(
        &reg,
        &params(None, vec!["nonexistent-tag-xyz"], vec![], Some(false)),
    )
    .unwrap();

    assert!(
        result.nodes.iter().any(|n| n.category == "tone"),
        "Tones should always be included regardless of tag filter"
    );
    assert!(
        !result.nodes.iter().any(|n| n.category == "skill"),
        "No skills should match a nonsense tag"
    );
}

#[test]
fn empty_groups_includes_all_skills() {
    let reg = registry();
    let all = resolve(&reg, &params(None, vec![], vec![], Some(false))).unwrap();
    let one_group = resolve(&reg, &params(None, vec![], vec!["backend"], Some(false))).unwrap();

    let all_skills: Vec<_> = all.nodes.iter().filter(|n| n.category == "skill").collect();
    let group_skills: Vec<_> = one_group
        .nodes
        .iter()
        .filter(|n| n.category == "skill")
        .collect();
    assert!(
        all_skills.len() > group_skills.len(),
        "Empty groups should include more skills ({}) than filtering to one group ({})",
        all_skills.len(),
        group_skills.len()
    );
}

fn plain_node(id: &str, name: &str, tags: Vec<&str>) -> Node {
    Node {
        id: id.to_string(),
        category: "skill".to_string(),
        name: name.to_string(),
        description: String::new(),
        tags: tags.into_iter().map(|t| t.to_string()).collect(),
        level: None,
        skill_groups: vec![],
        group: Some("test".to_string()),
        source: "builtin".to_string(),
    }
}

#[test]
fn common_tag_exclusion() {
    // one tag appears on all three nodes (more than half), so it must
    // produce no tag edges
    let nodes = vec![
        plain_node("skill:a", "a", vec!["common", "unique-a"]),
        plain_node("skill:b", "b", vec!["common", "unique-b"]),
        plain_node("skill:c", "c", vec!["common"]),
    ];

    let edges = build_edges(&nodes);
    let common_tag_edges: Vec<&Edge> = edges
        .iter()
        .filter(|e| e.relation == "tag" && e.label == "common")
        .collect();
    assert!(
        common_tag_edges.is_empty(),
        "Common tags (>50%) should not generate edges"
    );
}

#[test]
fn group_edges_once_per_pair() {
    let nodes = vec![
        plain_node("skill:a", "a", vec![]),
        plain_node("skill:b", "b", vec![]),
        plain_node("skill:c", "c", vec![]),
    ];
    let edges = build_edges(&nodes);
    let group_edges: Vec<&Edge> = edges.iter().filter(|e| e.relation == "group").collect();
    // three nodes in one group: exactly the three unordered pairs
    assert_eq!(group_edges.len(), 3);
    assert!(group_edges
        .iter()
        .all(|e| e.label == "test" && e.from < e.to));
}

#[test]
fn include_edges_defaults_to_true() {
    let reg = registry();
    let result = resolve(&reg, &params(None, vec![], vec![], None)).unwrap();
    assert!(!result.edges.is_empty());
    assert_eq!(result.meta.edge_count, result.edges.len());
}

#[test]
fn persona_affinity_selects_and_links_only_matching_groups() {
    // a persona affiliated with one group gets an affinity edge to the
    // matching skill and none to the other; overriding the groups flips
    // the selected skill set
    let project = vec![
        RawDoc {
            file_name: "p.md".to_string(),
            category: Some(Category::Persona),
            text: "---\ndescription: P\nskill_groups: [backend]\n---\nP body.".to_string(),
        },
        RawDoc {
            file_name: "go.md".to_string(),
            category: Some(Category::Skill),
            text: "---\ndescription: Go\ngroup: backend\n---\nGo body.".to_string(),
        },
        RawDoc {
            file_name: "react.md".to_string(),
            category: Some(Category::Skill),
            text: "---\ndescription: React\ngroup: frontend\n---\nReact body.".to_string(),
        },
    ];
    let reg = Registry::from_docs(Vec::new(), Vec::new(), project);

    let result = resolve(&reg, &params(Some("p"), vec![], vec![], Some(true))).unwrap();
    assert!(result
        .edges
        .iter()
        .any(|e| e.relation == "skill_group" && e.from == "persona:p" && e.to == "skill:go"));
    assert!(!result.edges.iter().any(|e| e.to == "skill:react"));
    assert!(result.nodes.iter().any(|n| n.id == "skill:go"));
    assert!(!result.nodes.iter().any(|n| n.id == "skill:react"));

    let flipped = resolve(&reg, &params(Some("p"), vec![], vec!["frontend"], Some(true)))
        .unwrap();
    assert_eq!(flipped.meta.resolved_groups, vec!["frontend"]);
    let skills: Vec<&Node> = flipped
        .nodes
        .iter()
        .filter(|n| n.category == "skill")
        .collect();
    assert_eq!(skills.len(), 1);
    assert_eq!(skills[0].id, "skill:react");
}

#[test]
fn resolve_without_seed_or_filters_reports_empty_meta() {
    let reg = registry();
    let result = resolve(&reg, &params(None, vec![], vec![], Some(false))).unwrap();
    assert!(result.meta.seed.is_none());
    assert!(result.meta.resolved_groups.is_empty());
    assert!(result.meta.resolved_tags.is_empty());
    assert_eq!(result.meta.node_count, result.nodes.len());
}
