//! Pure helpers behind the tool surface: category and resource-uri
//! parsing, recommendation listing, prefix completion, and argument
//! splitting.

use vstd::prelude::*;

use crate::compose::not_found_msg;
use crate::fragment::{spec_from_dir_name, Category, Fragment, FragmentV};
use crate::registry::{frag_key, list_sel, opt_str_view, Registry};
use crate::resolve::{block_sel, effective_groups, opt_strs_view, ResolveParamsV};
use crate::strutil::{
    clone_opt_string, clone_strings, find_char, idx_of, is_prefix, lemma_idx_of, starts_with_exec,
    str_eq_exec, trim_exec, trim_spec,
};

verus! {

use vstd::string::StringExecFns;
use vstd::string::StrSliceExecFns;

/// The category named by its singular form only.
pub open spec fn spec_parse_category(s: Seq<char>) -> Option<Category> {
    if s == "persona"@ {
        Some(Category::Persona)
    } else if s == "skill"@ {
        Some(Category::Skill)
    } else if s == "context"@ {
        Some(Category::Context)
    } else if s == "tone"@ {
        Some(Category::Tone)
    } else if s == "constraint"@ {
        Some(Category::Constraint)
    } else {
        None
    }
}

/// Parses a singular category name.
pub fn parse_category(s: &str) -> (r: Option<Category>)
    ensures
        r == spec_parse_category(s@),
{
    if str_eq_exec(s, "persona") {
        Some(Category::Persona)
    } else if str_eq_exec(s, "skill") {
        Some(Category::Skill)
    } else if str_eq_exec(s, "context") {
        Some(Category::Context)
    } else if str_eq_exec(s, "tone") {
        Some(Category::Tone)
    } else if str_eq_exec(s, "constraint") {
        Some(Category::Constraint)
    } else {
        None
    }
}

/// What a fragment resource uri denotes: the category (by directory
/// name) and fragment name under the fixed scheme prefix.
pub open spec fn spec_parse_resource_uri(u: Seq<char>) -> Option<(Category, Seq<char>)> {
    if is_prefix("mimic://fragments/"@, u) {
        if idx_of(u.skip("mimic://fragments/"@.len() as int), '/') < u.skip(
            "mimic://fragments/"@.len() as int,
        ).len() {
            match spec_from_dir_name(
                u.skip("mimic://fragments/"@.len() as int).take(
                    idx_of(u.skip("mimic://fragments/"@.len() as int), '/') as int,
                ),
            ) {
                Some(c) => Some(
                    (
                        c,
                        u.skip("mimic://fragments/"@.len() as int).skip(
                            idx_of(u.skip("mimic://fragments/"@.len() as int), '/') as int + 1,
                        ),
                    ),
                ),
                None => None,
            }
        } else {
            None
        }
    } else {
        None
    }
}

/// Parses a `mimic://fragments/<dir>/<name>` resource uri.
pub fn parse_resource_uri<'a>(uri: &'a str) -> (r: Option<(Category, &'a str)>)
    ensures
        match r {
            Some(p) => spec_parse_resource_uri(uri@) == Some((p.0, p.1@)),
            None => spec_parse_resource_uri(uri@) is None,
        },
{
    proof {
        reveal_strlit("mimic://fragments/");
    }
    if !starts_with_exec(uri, "mimic://fragments/") {
        return None;
    }
    let lu: usize = uri.unicode_len();
    let rest = uri.substring_char(18, lu);
    proof {
        assert("mimic://fragments/"@.len() == 18);
        assert(rest@ =~= uri@.skip(18));
        lemma_idx_of(rest@, '/');
    }
    let lr: usize = lu - 18;
    let slash = find_char(rest, '/');
    if slash == lr {
        return None;
    }
    let cat_dir = rest.substring_char(0, slash);
    proof {
        assert(cat_dir@ =~= rest@.take(slash as int));
    }
    let category = match Category::from_dir_name(cat_dir) {
        Some(c) => c,
        None => {
            return None;
        }
    };
    let name = rest.substring_char(slash + 1, lr);
    proof {
        assert(name@ =~= rest@.skip(slash as int + 1));
    }
    Some((category, name))
}

// ---------------------------------------------------------------------------
// Recommendations
// ---------------------------------------------------------------------------

/// The persona header of a recommendation.
#[derive(Debug, Clone)]
pub struct RecommendPersona {
    pub name: String,
    pub description: String,
    pub level: Option<String>,
    pub skill_groups: Vec<String>,
}

/// Mathematical image of the persona header.
pub struct RecommendPersonaV {
    pub name: Seq<char>,
    pub description: Seq<char>,
    pub level: Option<Seq<char>>,
    pub skill_groups: Seq<Seq<char>>,
}

impl View for RecommendPersona {
    type V = RecommendPersonaV;

    open spec fn view(&self) -> RecommendPersonaV {
        RecommendPersonaV {
            name: self.name@,
            description: self.description@,
            level: self.level.deep_view(),
            skill_groups: self.skill_groups.deep_view(),
        }
    }
}

/// One recommended fragment.
#[derive(Debug, Clone)]
pub struct RecommendFragment {
    pub name: String,
    pub description: String,
    pub group: Option<String>,
}

/// Mathematical image of one recommendation entry.
pub struct RecommendFragmentV {
    pub name: Seq<char>,
    pub description: Seq<char>,
    pub group: Option<Seq<char>>,
}

impl View for RecommendFragment {
    type V = RecommendFragmentV;

    open spec fn view(&self) -> RecommendFragmentV {
        RecommendFragmentV {
            name: self.name@,
            description: self.description@,
            group: self.group.deep_view(),
        }
    }
}

impl DeepView for RecommendFragment {
    type V = RecommendFragmentV;

    open spec fn deep_view(&self) -> RecommendFragmentV {
        self.view()
    }
}

/// The flat, categorized recommendation listing.
#[derive(Debug)]
pub struct RecommendResult {
    pub persona: RecommendPersona,
    pub skills: Vec<RecommendFragment>,
    pub contexts: Vec<RecommendFragment>,
    pub tones: Vec<RecommendFragment>,
    pub constraints: Vec<RecommendFragment>,
}

/// The group filter a recommendation uses: the given groups, else the
/// persona's affinities.
pub open spec fn rec_effective(
    m: Map<(Category, Seq<char>), FragmentV>,
    p: Seq<char>,
    groups: Seq<Seq<char>>,
) -> Seq<Seq<char>> {
    effective_groups(
        m,
        ResolveParamsV { persona: Some(p), tags: Seq::empty(), groups, include_edges: None },
    )
}

/// The recommendation projection of a fragment; only skills carry their
/// group.
pub open spec fn rec_of(f: FragmentV, with_group: bool) -> RecommendFragmentV {
    RecommendFragmentV {
        name: f.name,
        description: f.description,
        group: if with_group {
            f.group
        } else {
            None
        },
    }
}

/// `rv` is the projection of some fragment of category `c` in the map
/// passing the filters.
pub open spec fn rec_from_map(
    m: Map<(Category, Seq<char>), FragmentV>,
    c: Category,
    og: Option<Seq<Seq<char>>>,
    ot: Option<Seq<Seq<char>>>,
    wg: bool,
    rv: RecommendFragmentV,
) -> bool {
    exists|k: (Category, Seq<char>)|
        #[trigger] m.contains_key(k) && k.0 == c && block_sel(m[k], og, ot) && rv == rec_of(
            m[k],
            wg,
        )
}

/// `rv` is the projection of a block fragment passing the filters.
pub open spec fn rec_of_block(
    fdv: Seq<FragmentV>,
    og: Option<Seq<Seq<char>>>,
    ot: Option<Seq<Seq<char>>>,
    with_group: bool,
    rv: RecommendFragmentV,
) -> bool {
    exists|q: int|
        0 <= q < fdv.len() && block_sel(#[trigger] fdv[q], og, ot) && rv == rec_of(
            fdv[q],
            with_group,
        )
}

/// Projects one category's filtered fragments into recommendations.
fn recommend_block(
    frags: &Vec<&Fragment>,
    groups: Option<&Vec<String>>,
    tags: Option<&Vec<String>>,
    with_group: bool,
) -> (r: Vec<RecommendFragment>)
    ensures
        forall|i: int|
            0 <= i < r.deep_view().len() ==> rec_of_block(
                frags.deep_view(),
                opt_strs_view(groups),
                opt_strs_view(tags),
                with_group,
                #[trigger] r.deep_view()[i],
            ),
        forall|q: int|
            0 <= q < frags.deep_view().len() && block_sel(
                #[trigger] frags.deep_view()[q],
                opt_strs_view(groups),
                opt_strs_view(tags),
            ) ==> r.deep_view().contains(rec_of(frags.deep_view()[q], with_group)),
{
    let ghost fdv = frags.deep_view();
    let mut r: Vec<RecommendFragment> = Vec::new();
    let mut q: usize = 0;
    while q < frags.len()
        invariant
            0 <= q <= frags.len(),
            fdv == frags.deep_view(),
            fdv.len() == frags@.len(),
            forall|z: int| 0 <= z < fdv.len() ==> fdv[z] == frags@[z]@,
            forall|i: int|
                0 <= i < r.deep_view().len() ==> rec_of_block(
                    fdv.take(q as int),
                    opt_strs_view(groups),
                    opt_strs_view(tags),
                    with_group,
                    #[trigger] r.deep_view()[i],
                ),
            forall|z: int|
                0 <= z < q && block_sel(
                    #[trigger] fdv[z],
                    opt_strs_view(groups),
                    opt_strs_view(tags),
                ) ==> r.deep_view().contains(rec_of(fdv[z], with_group)),
        decreases frags.len() - q,
    {
        let f: &Fragment = frags[q];
        let g_ok = match groups {
            Some(eff) => {
                if eff.len() == 0 {
                    true
                } else {
                    match &f.group {
                        Some(g) => crate::registry::str_vec_contains(eff, g.as_str()),
                        None => false,
                    }
                }
            }
            None => true,
        };
        let t_ok = match tags {
            Some(ts) => {
                if ts.len() == 0 {
                    true
                } else {
                    crate::resolve::shares_tag_exec(&f.tags, ts)
                }
            }
            None => true,
        };
        let ghost before = r.deep_view();
        let ghost pre = r@;
        if g_ok && t_ok {
            proof {
                assert(block_sel(fdv[q as int], opt_strs_view(groups), opt_strs_view(tags)));
            }
            let entry = RecommendFragment {
                name: f.name.clone(),
                description: f.description.clone(),
                group: if with_group {
                    clone_opt_string(&f.group)
                } else {
                    None
                },
            };
            proof {
                assert(entry@ == rec_of(fdv[q as int], with_group));
            }
            r.push(entry);
        }
        proof {
            let ndv = r.deep_view();
            assert forall|i: int|
                0 <= i < ndv.len() implies rec_of_block(
                fdv.take(q + 1),
                opt_strs_view(groups),
                opt_strs_view(tags),
                with_group,
                #[trigger] ndv[i],
            ) by {
                if i < before.len() {
                    assert(r@[i] == pre[i]);
                    assert(ndv[i] == before[i]);
                    assert(rec_of_block(
                        fdv.take(q as int),
                        opt_strs_view(groups),
                        opt_strs_view(tags),
                        with_group,
                        before[i],
                    ));
                    let z = choose|z: int|
                        0 <= z < q && block_sel(
                            #[trigger] fdv.take(q as int)[z],
                            opt_strs_view(groups),
                            opt_strs_view(tags),
                        ) && before[i] == rec_of(fdv.take(q as int)[z], with_group);
                    assert(fdv.take(q + 1)[z] == fdv[z]);
                    assert(block_sel(fdv.take(q + 1)[z], opt_strs_view(groups), opt_strs_view(tags))
                        && ndv[i] == rec_of(fdv.take(q + 1)[z], with_group));
                } else {
                    assert(fdv.take(q + 1)[q as int] == fdv[q as int]);
                    assert(block_sel(
                        fdv.take(q + 1)[q as int],
                        opt_strs_view(groups),
                        opt_strs_view(tags),
                    ) && ndv[i] == rec_of(fdv.take(q + 1)[q as int], with_group));
                }
            }
            assert forall|z: int|
                0 <= z < q + 1 && block_sel(
                    #[trigger] fdv[z],
                    opt_strs_view(groups),
                    opt_strs_view(tags),
                ) implies r.deep_view().contains(rec_of(fdv[z], with_group)) by {
                if z < q {
                    let i = choose|i: int|
                        0 <= i < before.len() && before[i] == rec_of(fdv[z], with_group);
                    assert(r.deep_view()[i] == rec_of(fdv[z], with_group));
                } else {
                    assert(r.deep_view()[r.deep_view().len() - 1] == rec_of(
                        fdv[q as int],
                        with_group,
                    ));
                }
            }
        }
        q = q + 1;
    }
    proof {
        assert(fdv.take(fdv.len() as int) =~= fdv);
    }
    r
}

/// Recommends fragments for a persona: skills filtered by the effective
/// groups (the given ones, else the persona's affinities) and the tag
/// filter; contexts and constraints by the tag filter; every tone. The
/// only failure is an unknown persona name.
pub fn recommend(
    registry: &Registry,
    persona: &str,
    groups: &Vec<String>,
    tags: &Vec<String>,
) -> (r: Result<RecommendResult, String>)
    ensures
        ({
            let m = registry@;
            match r {
                Ok(res) => {
                    &&& m.contains_key((Category::Persona, persona@))
                    &&& res.persona@.name == m[(Category::Persona, persona@)].name
                    &&& res.persona@.description == m[(
                        Category::Persona,
                        persona@,
                    )].description
                    &&& res.persona@.level == m[(Category::Persona, persona@)].level
                    &&& res.persona@.skill_groups == m[(
                        Category::Persona,
                        persona@,
                    )].skill_groups
                    &&& forall|k: (Category, Seq<char>)| #![auto]
                        m.contains_key(k) && k.0 == Category::Skill && block_sel(
                            m[k],
                            Some(rec_effective(m, persona@, groups.deep_view())),
                            Some(tags.deep_view()),
                        ) ==> res.skills.deep_view().contains(rec_of(m[k], true))
                    &&& forall|i: int|
                        0 <= i < res.skills.deep_view().len() ==> rec_from_map(
                            m,
                            Category::Skill,
                            Some(rec_effective(m, persona@, groups.deep_view())),
                            Some(tags.deep_view()),
                            true,
                            #[trigger] res.skills.deep_view()[i],
                        )
                    &&& forall|i: int|
                        0 <= i < res.contexts.deep_view().len() ==> rec_from_map(
                            m,
                            Category::Context,
                            None,
                            Some(tags.deep_view()),
                            false,
                            #[trigger] res.contexts.deep_view()[i],
                        )
                    &&& forall|i: int|
                        0 <= i < res.tones.deep_view().len() ==> rec_from_map(
                            m,
                            Category::Tone,
                            None,
                            None,
                            false,
                            #[trigger] res.tones.deep_view()[i],
                        )
                    &&& forall|i: int|
                        0 <= i < res.constraints.deep_view().len() ==> rec_from_map(
                            m,
                            Category::Constraint,
                            None,
                            Some(tags.deep_view()),
                            false,
                            #[trigger] res.constraints.deep_view()[i],
                        )
                    &&& forall|k: (Category, Seq<char>)| #![auto]
                        m.contains_key(k) && k.0 == Category::Context && block_sel(
                            m[k],
                            None,
                            Some(tags.deep_view()),
                        ) ==> res.contexts.deep_view().contains(rec_of(m[k], false))
                    &&& forall|k: (Category, Seq<char>)| #![auto]
                        m.contains_key(k) && k.0 == Category::Tone ==> res.tones.deep_view()
                            .contains(rec_of(m[k], false))
                    &&& forall|k: (Category, Seq<char>)| #![auto]
                        m.contains_key(k) && k.0 == Category::Constraint && block_sel(
                            m[k],
                            None,
                            Some(tags.deep_view()),
                        ) ==> res.constraints.deep_view().contains(rec_of(m[k], false))
                }
                Err(msg) => !m.contains_key((Category::Persona, persona@)) && msg@
                    == not_found_msg("Persona"@, persona@),
            }
        }),
{
    let ghost m = registry@;
    proof {
        registry.lemma_key_fields();
    }
    let pf = match registry.get(Category::Persona, persona) {
        Some(f) => f,
        None => {
            let mut msg = String::from_str("Persona");
            msg.append(" '");
            msg.append(persona);
            msg.append("' not found");
            return Err(msg);
        }
    };
    let effective: Vec<String> = if groups.len() > 0 {
        clone_strings(groups)
    } else {
        clone_strings(&pf.skill_groups)
    };
    proof {
        assert(effective.deep_view() == rec_effective(m, persona@, groups.deep_view()));
    }
    let skills_list = registry.list(Some(Category::Skill), None, None);
    let skills = recommend_block(&skills_list, Some(&effective), Some(tags), true);
    let contexts_list = registry.list(Some(Category::Context), None, None);
    let contexts = recommend_block(&contexts_list, None, Some(tags), false);
    let tones_list = registry.list(Some(Category::Tone), None, None);
    let tones = recommend_block(&tones_list, None, None, false);
    let constraints_list = registry.list(Some(Category::Constraint), None, None);
    let constraints = recommend_block(&constraints_list, None, Some(tags), false);
    proof {
        assert forall|k: (Category, Seq<char>)| #![auto]
            m.contains_key(k) && k.0 == Category::Skill && block_sel(
                m[k],
                Some(rec_effective(m, persona@, groups.deep_view())),
                Some(tags.deep_view()),
            ) implies skills.deep_view().contains(rec_of(m[k], true)) by {
            assert(block_sel(m[k], Some(effective.deep_view()), Some(tags.deep_view())));
            assert(list_sel(m[k], Some(Category::Skill), opt_str_view(None), opt_str_view(None)));
            assert(skills_list.deep_view().contains(m[k]));
            let q = choose|q: int|
                0 <= q < skills_list.deep_view().len() && skills_list.deep_view()[q] == m[k];
        }
        assert forall|i: int|
            0 <= i < skills.deep_view().len() implies rec_from_map(
            m,
            Category::Skill,
            Some(rec_effective(m, persona@, groups.deep_view())),
            Some(tags.deep_view()),
            true,
            #[trigger] skills.deep_view()[i],
        ) by {
            let q = choose|q: int|
                0 <= q < skills_list.deep_view().len() && block_sel(
                    #[trigger] skills_list.deep_view()[q],
                    Some(effective.deep_view()),
                    Some(tags.deep_view()),
                ) && skills.deep_view()[i] == rec_of(skills_list.deep_view()[q], true);
            let f = skills_list.deep_view()[q];
            assert(m.contains_key(frag_key(f)) && m[frag_key(f)] == f);
            assert(frag_key(f).0 == Category::Skill);
            assert(block_sel(
                m[frag_key(f)],
                Some(rec_effective(m, persona@, groups.deep_view())),
                Some(tags.deep_view()),
            ));
        }
        assert forall|i: int|
            0 <= i < contexts.deep_view().len() implies rec_from_map(
            m,
            Category::Context,
            None,
            Some(tags.deep_view()),
            false,
            #[trigger] contexts.deep_view()[i],
        ) by {
            let q = choose|q: int|
                0 <= q < contexts_list.deep_view().len() && block_sel(
                    #[trigger] contexts_list.deep_view()[q],
                    opt_strs_view(None),
                    Some(tags.deep_view()),
                ) && contexts.deep_view()[i] == rec_of(contexts_list.deep_view()[q], false);
            let f = contexts_list.deep_view()[q];
            assert(m.contains_key(frag_key(f)) && m[frag_key(f)] == f);
            assert(frag_key(f).0 == Category::Context);
        }
        assert forall|i: int|
            0 <= i < tones.deep_view().len() implies rec_from_map(
            m,
            Category::Tone,
            None,
            None,
            false,
            #[trigger] tones.deep_view()[i],
        ) by {
            let q = choose|q: int|
                0 <= q < tones_list.deep_view().len() && block_sel(
                    #[trigger] tones_list.deep_view()[q],
                    opt_strs_view(None),
                    opt_strs_view(None),
                ) && tones.deep_view()[i] == rec_of(tones_list.deep_view()[q], false);
            let f = tones_list.deep_view()[q];
            assert(m.contains_key(frag_key(f)) && m[frag_key(f)] == f);
            assert(frag_key(f).0 == Category::Tone);
        }
        assert forall|i: int|
            0 <= i < constraints.deep_view().len() implies rec_from_map(
            m,
            Category::Constraint,
            None,
            Some(tags.deep_view()),
            false,
            #[trigger] constraints.deep_view()[i],
        ) by {
            let q = choose|q: int|
                0 <= q < constraints_list.deep_view().len() && block_sel(
                    #[trigger] constraints_list.deep_view()[q],
                    opt_strs_view(None),
                    Some(tags.deep_view()),
                ) && constraints.deep_view()[i] == rec_of(constraints_list.deep_view()[q], false);
            let f = constraints_list.deep_view()[q];
            assert(m.contains_key(frag_key(f)) && m[frag_key(f)] == f);
            assert(frag_key(f).0 == Category::Constraint);
        }
        assert forall|k: (Category, Seq<char>)| #![auto]
            m.contains_key(k) && k.0 == Category::Context && block_sel(
                m[k],
                None,
                Some(tags.deep_view()),
            ) implies contexts.deep_view().contains(rec_of(m[k], false)) by {
            assert(list_sel(m[k], Some(Category::Context), opt_str_view(None), opt_str_view(None)));
            assert(contexts_list.deep_view().contains(m[k]));
            let q = choose|q: int|
                0 <= q < contexts_list.deep_view().len() && contexts_list.deep_view()[q] == m[k];
        }
        assert forall|k: (Category, Seq<char>)| #![auto]
            m.contains_key(k) && k.0 == Category::Tone implies tones.deep_view().contains(
            rec_of(m[k], false),
        ) by {
            assert(list_sel(m[k], Some(Category::Tone), opt_str_view(None), opt_str_view(None)));
            assert(tones_list.deep_view().contains(m[k]));
            let q = choose|q: int|
                0 <= q < tones_list.deep_view().len() && tones_list.deep_view()[q] == m[k];
            assert(block_sel(tones_list.deep_view()[q], opt_strs_view(None), opt_strs_view(None)));
        }
        assert forall|k: (Category, Seq<char>)| #![auto]
            m.contains_key(k) && k.0 == Category::Constraint && block_sel(
                m[k],
                None,
                Some(tags.deep_view()),
            ) implies constraints.deep_view().contains(rec_of(m[k], false)) by {
            assert(list_sel(
                m[k],
                Some(Category::Constraint),
                opt_str_view(None),
                opt_str_view(None),
            ));
            assert(constraints_list.deep_view().contains(m[k]));
            let q = choose|q: int|
                0 <= q < constraints_list.deep_view().len() && constraints_list.deep_view()[q]
                    == m[k];
        }
    }
    let header = RecommendPersona {
        name: pf.name.clone(),
        description: pf.description.clone(),
        level: clone_opt_string(&pf.level),
        skill_groups: clone_strings(&pf.skill_groups),
    };
    proof {
        assert(pf@ == m[(Category::Persona, persona@)]);
        assert(header@.name == m[(Category::Persona, persona@)].name);
        assert(header@.description == m[(Category::Persona, persona@)].description);
        assert(header@.level == m[(Category::Persona, persona@)].level);
        assert(header@.skill_groups == m[(Category::Persona, persona@)].skill_groups);
    }
    Ok(RecommendResult { persona: header, skills, contexts, tones, constraints })
}

// ---------------------------------------------------------------------------
// Completion and argument splitting
// ---------------------------------------------------------------------------

/// The entries carrying the given prefix, in order.
pub open spec fn filtered_prefix(ss: Seq<Seq<char>>, p: Seq<char>) -> Seq<Seq<char>>
    decreases ss.len(),
{
    if ss.len() == 0 {
        Seq::empty()
    } else if is_prefix(p, ss.last()) {
        filtered_prefix(ss.drop_last(), p).push(ss.last())
    } else {
        filtered_prefix(ss.drop_last(), p)
    }
}

/// Keeps the names that start with the given prefix.
pub fn filter_prefix(names: &Vec<String>, prefix: &str) -> (r: Vec<String>)
    ensures
        r.deep_view() == filtered_prefix(names.deep_view(), prefix@),
{
    let ghost ns = names.deep_view();
    let mut r: Vec<String> = Vec::new();
    proof {
        assert(r.deep_view() =~= filtered_prefix(ns.take(0), prefix@));
        assert(ns.take(0) =~= Seq::<Seq<char>>::empty());
    }
    let mut i: usize = 0;
    while i < names.len()
        invariant
            0 <= i <= names.len(),
            ns == names.deep_view(),
            ns.len() == names@.len(),
            forall|z: int| 0 <= z < ns.len() ==> ns[z] == names@[z]@,
            r.deep_view() == filtered_prefix(ns.take(i as int), prefix@),
        decreases names.len() - i,
    {
        proof {
            assert(ns.take(i + 1).drop_last() =~= ns.take(i as int));
            assert(ns.take(i + 1).last() == ns[i as int]);
        }
        let ghost before = r.deep_view();
        let ghost pre = r@;
        if starts_with_exec(names[i].as_str(), prefix) {
            r.push(names[i].clone());
            proof {
                let ndv = r.deep_view();
                assert forall|z: int|
                    0 <= z < ndv.len() implies ndv[z] == before.push(ns[i as int])[z] by {
                    if z < before.len() {
                        assert(r@[z] == pre[z]);
                    }
                }
                assert(ndv =~= before.push(ns[i as int]));
            }
        }
        i = i + 1;
    }
    proof {
        assert(ns.take(ns.len() as int) =~= ns);
    }
    r
}

/// The comma-separated pieces of `s`, each trimmed.
pub open spec fn split_trim_spec(s: Seq<char>) -> Seq<Seq<char>>
    decreases s.len(),
    via split_trim_decreases
{
    if idx_of(s, ',') == s.len() {
        seq![trim_spec(s)]
    } else {
        seq![trim_spec(s.take(idx_of(s, ',') as int))] + split_trim_spec(
            s.skip(idx_of(s, ',') as int + 1),
        )
    }
}

#[via_fn]
proof fn split_trim_decreases(s: Seq<char>) {
    lemma_idx_of(s, ',');
}

/// Splits at commas and trims each piece.
pub fn split_and_trim(s: &str) -> (r: Vec<String>)
    ensures
        r.deep_view() == split_trim_spec(s@),
{
    let mut r: Vec<String> = Vec::new();
    let mut rest: &str = s;
    loop
        invariant
            split_trim_spec(s@) == r.deep_view() + split_trim_spec(rest@),
        decreases rest@.len(),
    {
        let lr: usize = rest.unicode_len();
        let comma = find_char(rest, ',');
        proof {
            lemma_idx_of(rest@, ',');
        }
        if comma == lr {
            let piece = String::from_str(trim_exec(rest));
            let ghost before = r.deep_view();
            let ghost pre = r@;
            r.push(piece);
            proof {
                let ndv = r.deep_view();
                assert forall|z: int|
                    0 <= z < ndv.len() implies ndv[z] == before.push(trim_spec(rest@))[z] by {
                    if z < before.len() {
                        assert(r@[z] == pre[z]);
                    }
                }
                assert(ndv =~= before.push(trim_spec(rest@)));
                assert(split_trim_spec(rest@) =~= seq![trim_spec(rest@)]);
                assert(r.deep_view() =~= before + split_trim_spec(rest@));
            }
            return r;
        }
        let head = rest.substring_char(0, comma);
        let piece = String::from_str(trim_exec(head));
        let next = rest.substring_char(comma + 1, lr);
        let ghost before = r.deep_view();
        let ghost pre = r@;
        let ghost old_rest = rest@;
        r.push(piece);
        rest = next;
        proof {
            assert(head@ =~= old_rest.take(comma as int));
            assert(rest@ =~= old_rest.skip(comma as int + 1));
            let ndv = r.deep_view();
            assert forall|z: int|
                0 <= z < ndv.len() implies ndv[z] == before.push(
                trim_spec(old_rest.take(comma as int)),
            )[z] by {
                if z < before.len() {
                    assert(r@[z] == pre[z]);
                }
            }
            assert(ndv =~= before.push(trim_spec(old_rest.take(comma as int))));
            assert(split_trim_spec(old_rest) == seq![trim_spec(old_rest.take(comma as int))]
                + split_trim_spec(old_rest.skip(comma as int + 1)));
            assert(r.deep_view() + split_trim_spec(rest@) =~= before + split_trim_spec(old_rest));
        }
    }
}

} // verus!
