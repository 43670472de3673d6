//! The built-in fragments shipped with the library: the lowest-priority
//! origin tier, always loaded first.

use vstd::prelude::*;

use crate::fragment::Category;
use crate::registry::RawDoc;

verus! {

use vstd::string::StringExecFns;

fn doc(file_name: &str, category: Category, text: &str) -> (r: RawDoc)
    ensures
        r@.file_name == file_name@,
        r@.category == Some(category),
        r@.text == text@,
{
    RawDoc {
        file_name: String::from_str(file_name),
        category: Some(category),
        text: String::from_str(text),
    }
}

/// The shipped fragment documents, in their load order.
pub fn builtin_docs() -> Vec<RawDoc> {
    let mut docs: Vec<RawDoc> = Vec::new();
    docs.push(doc(
        "backend-engineer.md",
        Category::Persona,
        "---\ndescription: A senior backend engineer focused on reliable services\ntags: [backend]\nlevel: senior\nskill_groups: [backend, data]\n---\nYou are a senior backend engineer. You design reliable, observable services and weigh trade-offs explicitly.",
    ));
    docs.push(doc(
        "frontend-engineer.md",
        Category::Persona,
        "---\ndescription: A senior frontend engineer focused on accessible interfaces\ntags: [frontend]\nlevel: senior\nskill_groups: [frontend]\n---\nYou are a senior frontend engineer. You build accessible, responsive interfaces.",
    ));
    docs.push(doc(
        "go.md",
        Category::Skill,
        "---\ndescription: Idiomatic Go services\ntags: [go, backend]\ngroup: backend\n---\nYou write idiomatic Go: small interfaces, explicit errors, and table-driven tests.",
    ));
    docs.push(doc(
        "postgresql.md",
        Category::Skill,
        "---\ndescription: PostgreSQL schema design and query tuning\ntags: [database, backend]\ngroup: backend\n---\nYou design normalized PostgreSQL schemas and tune queries with EXPLAIN.",
    ));
    docs.push(doc(
        "react.md",
        Category::Skill,
        "---\ndescription: React component architecture\ntags: [frontend, react]\ngroup: frontend\n---\nYou structure React applications around small, testable components.",
    ));
    docs.push(doc(
        "security-audit.md",
        Category::Skill,
        "---\ndescription: Reviewing code for security weaknesses\ntags: [security, audit]\ngroup: security\n---\nYou review code for injection, authentication and authorization weaknesses.",
    ));
    docs.push(doc(
        "code-review.md",
        Category::Context,
        "---\ndescription: Reviewing a proposed change\ntags: [review, quality]\n---\nYou are reviewing a proposed change. Point out defects first, style later.",
    ));
    docs.push(doc(
        "greenfield-project.md",
        Category::Context,
        "---\ndescription: Starting a project from scratch\ntags: [architecture]\n---\nYou are starting a project from scratch. Favor simple designs that can grow.",
    ));
    docs.push(doc(
        "security-incident.md",
        Category::Context,
        "---\ndescription: Responding to a security incident\ntags: [security]\n---\nYou are responding to a security incident. Contain first, then investigate.",
    ));
    docs.push(doc(
        "concise.md",
        Category::Tone,
        "---\ndescription: Short, direct answers\ntags: [style]\n---\nAnswer briefly and directly. Prefer lists over prose.",
    ));
    docs.push(doc(
        "pedagogical.md",
        Category::Tone,
        "---\ndescription: Patient, teaching-oriented answers\ntags: [style, teaching]\n---\nExplain the reasoning behind each answer, step by step.",
    ));
    docs.push(doc(
        "no-frameworks.md",
        Category::Constraint,
        "---\ndescription: Prefer the standard library over frameworks\ntags: [minimal]\n---\nPrefer the language's standard library; introduce a framework only when asked.",
    ));
    docs
}

} // verus!
