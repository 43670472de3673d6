//! Fragment document textual assembly: concatenates the bodies of a
//! persona and the requested skills, contexts, tones and constraints
//! into one prompt text, under fixed section headers.

use vstd::prelude::*;

use crate::fragment::{Category, FragmentV};
use crate::registry::Registry;

verus! {

use vstd::string::StringExecFns;

/// Which fragments to assemble: one persona and any number of named
/// skills, contexts, tones and constraints.
#[derive(Debug, Clone)]
pub struct ComposeRequest {
    pub persona: String,
    pub skills: Vec<String>,
    pub contexts: Vec<String>,
    pub tones: Vec<String>,
    pub constraints: Vec<String>,
}

/// Mathematical image of a request.
pub struct ComposeRequestV {
    pub persona: Seq<char>,
    pub skills: Seq<Seq<char>>,
    pub contexts: Seq<Seq<char>>,
    pub tones: Seq<Seq<char>>,
    pub constraints: Seq<Seq<char>>,
}

impl View for ComposeRequest {
    type V = ComposeRequestV;

    open spec fn view(&self) -> ComposeRequestV {
        ComposeRequestV {
            persona: self.persona@,
            skills: self.skills.deep_view(),
            contexts: self.contexts.deep_view(),
            tones: self.tones.deep_view(),
            constraints: self.constraints.deep_view(),
        }
    }
}

/// The message for a fragment that does not exist.
pub open spec fn not_found_msg(kind: Seq<char>, name: Seq<char>) -> Seq<char> {
    kind + " '"@ + name + "' not found"@
}

fn build_not_found(kind: &str, name: &str) -> (r: String)
    ensures
        r@ == not_found_msg(kind@, name@),
{
    let mut m = String::from_str(kind);
    m.append(" '");
    m.append(name);
    m.append("' not found");
    m
}

/// The named fragments of one category, their bodies joined by blank
/// lines (meaningful when all names are present).
pub open spec fn section_bodies(
    m: Map<(Category, Seq<char>), FragmentV>,
    c: Category,
    names: Seq<Seq<char>>,
) -> Seq<char>
    decreases names.len(),
{
    if names.len() == 0 {
        Seq::empty()
    } else if names.len() == 1 {
        m[(c, names[0])].body
    } else {
        section_bodies(m, c, names.drop_last()) + "\n\n"@ + m[(c, names.last())].body
    }
}

/// All names of one category are present.
pub open spec fn all_present(
    m: Map<(Category, Seq<char>), FragmentV>,
    c: Category,
    names: Seq<Seq<char>>,
) -> bool {
    forall|i: int| 0 <= i < names.len() ==> m.contains_key((c, #[trigger] names[i]))
}

/// A whole section: nothing for an empty name list, else the header
/// between blank lines, then the joined bodies.
pub open spec fn section_text(
    m: Map<(Category, Seq<char>), FragmentV>,
    c: Category,
    names: Seq<Seq<char>>,
    header: Seq<char>,
) -> Seq<char> {
    if names.len() == 0 {
        Seq::empty()
    } else {
        "\n\n"@ + header + "\n\n"@ + section_bodies(m, c, names)
    }
}

/// The assembled prompt: the persona body, then one section per
/// non-empty request list.
pub open spec fn compose_text(
    m: Map<(Category, Seq<char>), FragmentV>,
    rv: ComposeRequestV,
) -> Seq<char> {
    m[(Category::Persona, rv.persona)].body + section_text(
        m,
        Category::Skill,
        rv.skills,
        "## Expertise"@,
    ) + section_text(m, Category::Context, rv.contexts, "## Context"@) + section_text(
        m,
        Category::Tone,
        rv.tones,
        "## Communication Style"@,
    ) + section_text(m, Category::Constraint, rv.constraints, "## Constraints"@)
}

/// Everything the request names exists in the snapshot.
pub open spec fn compose_ok(m: Map<(Category, Seq<char>), FragmentV>, rv: ComposeRequestV) -> bool {
    &&& m.contains_key((Category::Persona, rv.persona))
    &&& all_present(m, Category::Skill, rv.skills)
    &&& all_present(m, Category::Context, rv.contexts)
    &&& all_present(m, Category::Tone, rv.tones)
    &&& all_present(m, Category::Constraint, rv.constraints)
}

/// The first name of `names` that is missing carries the message.
pub open spec fn section_failure(
    m: Map<(Category, Seq<char>), FragmentV>,
    c: Category,
    names: Seq<Seq<char>>,
    kind: Seq<char>,
    msg: Seq<char>,
) -> bool {
    exists|i: int|
        0 <= i < names.len() && !m.contains_key((c, #[trigger] names[i])) && (forall|j: int|
            0 <= j < i ==> m.contains_key((c, #[trigger] names[j]))) && msg == not_found_msg(
            kind,
            names[i],
        )
}

/// Appends one section to the output, stopping at the first missing
/// name.
fn append_section(
    registry: &Registry,
    out: &mut String,
    c: Category,
    names: &Vec<String>,
    header: &str,
    kind: &str,
) -> (r: Result<(), String>)
    ensures
        match r {
            Ok(_) => all_present(registry@, c, names.deep_view()) && final(out)@ == old(out)@
                + section_text(registry@, c, names.deep_view(), header@),
            Err(msg) => section_failure(registry@, c, names.deep_view(), kind@, msg@),
        },
{
    let ghost m = registry@;
    let ghost ns = names.deep_view();
    if names.len() == 0 {
        proof {
            assert(old(out)@ + section_text(m, c, ns, header@) =~= old(out)@);
        }
        return Ok(());
    }
    out.append("\n\n");
    out.append(header);
    out.append("\n\n");
    let ghost head = old(out)@ + "\n\n"@ + header@ + "\n\n"@;
    let mut i: usize = 0;
    while i < names.len()
        invariant
            0 <= i <= names.len(),
            ns == names.deep_view(),
            ns.len() == names@.len(),
            forall|z: int| 0 <= z < ns.len() ==> ns[z] == names@[z]@,
            m == registry@,
            head == old(out)@ + "\n\n"@ + header@ + "\n\n"@,
            forall|j: int| 0 <= j < i ==> m.contains_key((c, #[trigger] ns[j])),
            out@ == head + section_bodies(m, c, ns.take(i as int)),
        decreases names.len() - i,
    {
        match registry.get(c, names[i].as_str()) {
            None => {
                proof {
                    assert(!m.contains_key((c, ns[i as int])));
                }
                return Err(build_not_found(kind, names[i].as_str()));
            }
            Some(f) => {
                if i > 0 {
                    out.append("\n\n");
                }
                out.append(f.body.as_str());
                proof {
                    assert(ns.take(i + 1).drop_last() =~= ns.take(i as int));
                    assert(ns.take(i + 1).last() == ns[i as int]);
                    assert(f@.body == m[(c, ns[i as int])].body);
                    if i == 0 {
                        assert(section_bodies(m, c, ns.take(1)) == m[(c, ns.take(1)[0])].body);
                        assert(ns.take(1)[0] == ns[0]);
                        assert(head + section_bodies(m, c, ns.take(0)) =~= head);
                        assert(out@ =~= head + section_bodies(m, c, ns.take(1)));
                    } else {
                        assert(out@ =~= head + section_bodies(m, c, ns.take(i + 1)));
                    }
                }
            }
        }
        i = i + 1;
    }
    proof {
        assert(ns.take(ns.len() as int) =~= ns);
        assert(out@ =~= old(out)@ + section_text(m, c, ns, header@));
    }
    Ok(())
}

/// Assembles the prompt for a request; fails with a not-found message
/// for the first name (in persona, skills, contexts, tones, constraints
/// order) that does not exist.
pub fn compose(registry: &Registry, req: &ComposeRequest) -> (r: Result<String, String>)
    ensures
        match r {
            Ok(out) => compose_ok(registry@, req@) && out@ == compose_text(registry@, req@),
            Err(msg) => ({
                let m = registry@;
                let rv = req@;
                &&& !compose_ok(m, rv)
                &&& {
                    ||| (!m.contains_key((Category::Persona, rv.persona)) && msg@ == not_found_msg(
                        "Persona"@,
                        rv.persona,
                    ))
                    ||| (m.contains_key((Category::Persona, rv.persona)) && section_failure(
                        m,
                        Category::Skill,
                        rv.skills,
                        "Skill"@,
                        msg@,
                    ))
                    ||| (m.contains_key((Category::Persona, rv.persona)) && all_present(
                        m,
                        Category::Skill,
                        rv.skills,
                    ) && section_failure(m, Category::Context, rv.contexts, "Context"@, msg@))
                    ||| (m.contains_key((Category::Persona, rv.persona)) && all_present(
                        m,
                        Category::Skill,
                        rv.skills,
                    ) && all_present(m, Category::Context, rv.contexts) && section_failure(
                        m,
                        Category::Tone,
                        rv.tones,
                        "Tone"@,
                        msg@,
                    ))
                    ||| (m.contains_key((Category::Persona, rv.persona)) && all_present(
                        m,
                        Category::Skill,
                        rv.skills,
                    ) && all_present(m, Category::Context, rv.contexts) && all_present(
                        m,
                        Category::Tone,
                        rv.tones,
                    ) && section_failure(
                        m,
                        Category::Constraint,
                        rv.constraints,
                        "Constraint"@,
                        msg@,
                    ))
                }
            }),
        },
{
    let ghost m = registry@;
    let persona = match registry.get(Category::Persona, req.persona.as_str()) {
        Some(f) => f,
        None => {
            return Err(build_not_found("Persona", req.persona.as_str()));
        }
    };
    let mut output = persona.body.clone();
    proof {
        assert(output@ == m[(Category::Persona, req@.persona)].body);
    }
    match append_section(registry, &mut output, Category::Skill, &req.skills, "## Expertise", "Skill") {
        Ok(_) => {}
        Err(msg) => {
            proof {
                let i = choose|i: int|
                    0 <= i < req@.skills.len() && !m.contains_key(
                        (Category::Skill, #[trigger] req@.skills[i]),
                    ) && (forall|j: int|
                        0 <= j < i ==> m.contains_key((Category::Skill, #[trigger] req@.skills[j])))
                        && msg@ == not_found_msg("Skill"@, req@.skills[i]);
            }
            return Err(msg);
        }
    }
    match append_section(
        registry,
        &mut output,
        Category::Context,
        &req.contexts,
        "## Context",
        "Context",
    ) {
        Ok(_) => {}
        Err(msg) => {
            proof {
                let i = choose|i: int|
                    0 <= i < req@.contexts.len() && !m.contains_key(
                        (Category::Context, #[trigger] req@.contexts[i]),
                    ) && (forall|j: int|
                        0 <= j < i ==> m.contains_key(
                            (Category::Context, #[trigger] req@.contexts[j]),
                        )) && msg@ == not_found_msg("Context"@, req@.contexts[i]);
            }
            return Err(msg);
        }
    }
    match append_section(
        registry,
        &mut output,
        Category::Tone,
        &req.tones,
        "## Communication Style",
        "Tone",
    ) {
        Ok(_) => {}
        Err(msg) => {
            proof {
                let i = choose|i: int|
                    0 <= i < req@.tones.len() && !m.contains_key(
                        (Category::Tone, #[trigger] req@.tones[i]),
                    ) && (forall|j: int|
                        0 <= j < i ==> m.contains_key((Category::Tone, #[trigger] req@.tones[j])))
                        && msg@ == not_found_msg("Tone"@, req@.tones[i]);
            }
            return Err(msg);
        }
    }
    match append_section(
        registry,
        &mut output,
        Category::Constraint,
        &req.constraints,
        "## Constraints",
        "Constraint",
    ) {
        Ok(_) => {}
        Err(msg) => {
            proof {
                let i = choose|i: int|
                    0 <= i < req@.constraints.len() && !m.contains_key(
                        (Category::Constraint, #[trigger] req@.constraints[i]),
                    ) && (forall|j: int|
                        0 <= j < i ==> m.contains_key(
                            (Category::Constraint, #[trigger] req@.constraints[j]),
                        )) && msg@ == not_found_msg("Constraint"@, req@.constraints[i]);
            }
            return Err(msg);
        }
    }
    proof {
        assert(output@ =~= compose_text(m, req@));
    }
    Ok(output)
}

} // verus!
