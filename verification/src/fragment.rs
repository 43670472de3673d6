//! Fragment documents: the five categories, the origin tiers, the
//! metadata block, and the parser that turns one document's text into a
//! structured fragment record.

use vstd::prelude::*;

use crate::strutil::{
    find_sub, first_line_exec, first_line_spec, is_prefix, lemma_str_lt_from_diff,
    starts_with_exec, str_eq_exec, str_lt, trim_exec, trim_spec, trim_start_exec, trim_start_spec,
};
use crate::yaml::{yaml_fields, yaml_fields_of, MetaValue, MetaValueV};

verus! {

/// The five fixed fragment categories.
#[derive(Debug, Clone, Copy, PartialEq, Eq, Hash, Structural)]
pub enum Category {
    Persona,
    Skill,
    Context,
    Tone,
    Constraint,
}

/// Position of a category in the order of its canonical directory name.
pub open spec fn cat_rank(c: Category) -> int {
    match c {
        Category::Constraint => 0,
        Category::Context => 1,
        Category::Persona => 2,
        Category::Skill => 3,
        Category::Tone => 4,
    }
}

/// The canonical storage-directory name of each category.
pub open spec fn spec_dir_name(c: Category) -> Seq<char> {
    match c {
        Category::Persona => "personas"@,
        Category::Skill => "skills"@,
        Category::Context => "contexts"@,
        Category::Tone => "tones"@,
        Category::Constraint => "constraints"@,
    }
}

/// The singular display label of each category.
pub open spec fn spec_cat_label(c: Category) -> Seq<char> {
    match c {
        Category::Persona => "persona"@,
        Category::Skill => "skill"@,
        Category::Context => "context"@,
        Category::Tone => "tone"@,
        Category::Constraint => "constraint"@,
    }
}

/// Category named by a canonical directory name.
pub open spec fn spec_from_dir_name(s: Seq<char>) -> Option<Category> {
    if s == "personas"@ {
        Some(Category::Persona)
    } else if s == "skills"@ {
        Some(Category::Skill)
    } else if s == "contexts"@ {
        Some(Category::Context)
    } else if s == "tones"@ {
        Some(Category::Tone)
    } else if s == "constraints"@ {
        Some(Category::Constraint)
    } else {
        None
    }
}

/// Category named by a singular or plural form.
pub open spec fn spec_from_name(s: Seq<char>) -> Option<Category> {
    if s == "persona"@ || s == "personas"@ {
        Some(Category::Persona)
    } else if s == "skill"@ || s == "skills"@ {
        Some(Category::Skill)
    } else if s == "context"@ || s == "contexts"@ {
        Some(Category::Context)
    } else if s == "tone"@ || s == "tones"@ {
        Some(Category::Tone)
    } else if s == "constraint"@ || s == "constraints"@ {
        Some(Category::Constraint)
    } else {
        None
    }
}

impl Category {
    /// All categories, in their fixed declaration order.
    pub fn all() -> (r: [Category; 5])
        ensures
            r@ == seq![
                Category::Persona,
                Category::Skill,
                Category::Context,
                Category::Tone,
                Category::Constraint,
            ],
    {
        [
            Category::Persona,
            Category::Skill,
            Category::Context,
            Category::Tone,
            Category::Constraint,
        ]
    }

    /// The canonical storage-directory name for this category.
    pub fn dir_name(&self) -> (r: &'static str)
        ensures
            r@ == spec_dir_name(*self),
    {
        match self {
            Category::Persona => "personas",
            Category::Skill => "skills",
            Category::Context => "contexts",
            Category::Tone => "tones",
            Category::Constraint => "constraints",
        }
    }

    /// The singular display label ("persona", "skill", ...).
    pub fn label(&self) -> (r: &'static str)
        ensures
            r@ == spec_cat_label(*self),
    {
        match self {
            Category::Persona => "persona",
            Category::Skill => "skill",
            Category::Context => "context",
            Category::Tone => "tone",
            Category::Constraint => "constraint",
        }
    }

    /// Looks a category up by its canonical directory name.
    pub fn from_dir_name(name: &str) -> (r: Option<Category>)
        ensures
            r == spec_from_dir_name(name@),
    {
        if str_eq_exec(name, "personas") {
            Some(Category::Persona)
        } else if str_eq_exec(name, "skills") {
            Some(Category::Skill)
        } else if str_eq_exec(name, "contexts") {
            Some(Category::Context)
        } else if str_eq_exec(name, "tones") {
            Some(Category::Tone)
        } else if str_eq_exec(name, "constraints") {
            Some(Category::Constraint)
        } else {
            None
        }
    }

    /// Accepts both singular ("skill") and plural ("skills") forms.
    pub fn from_name(name: &str) -> (r: Option<Category>)
        ensures
            r == spec_from_name(name@),
    {
        if str_eq_exec(name, "persona") || str_eq_exec(name, "personas") {
            Some(Category::Persona)
        } else if str_eq_exec(name, "skill") || str_eq_exec(name, "skills") {
            Some(Category::Skill)
        } else if str_eq_exec(name, "context") || str_eq_exec(name, "contexts") {
            Some(Category::Context)
        } else if str_eq_exec(name, "tone") || str_eq_exec(name, "tones") {
            Some(Category::Tone)
        } else if str_eq_exec(name, "constraint") || str_eq_exec(name, "constraints") {
            Some(Category::Constraint)
        } else {
            None
        }
    }
}

/// Law: every category's canonical directory name maps back to that same
/// category through the directory-name lookup.
pub proof fn lemma_category_dir_round_trip()
    ensures
        forall|c: Category| #[trigger] spec_from_dir_name(spec_dir_name(c)) == Some(c),
{
    reveal_strlit("personas");
    reveal_strlit("skills");
    reveal_strlit("contexts");
    reveal_strlit("tones");
    reveal_strlit("constraints");
    assert forall|c: Category| #[trigger] spec_from_dir_name(spec_dir_name(c)) == Some(c) by {
        assert("personas"@.len() == 8);
        assert("skills"@.len() == 6);
        assert("contexts"@.len() == 8);
        assert("tones"@.len() == 5);
        assert("constraints"@.len() == 11);
        assert("personas"@ != "contexts"@) by {
            assert("personas"@[0] == 'p' && "contexts"@[0] == 'c');
        }
        match c {
            Category::Persona => {}
            Category::Skill => {}
            Category::Context => {}
            Category::Tone => {}
            Category::Constraint => {}
        }
    }
}

/// The directory names of distinct categories differ.
pub proof fn lemma_dir_name_injective()
    ensures
        forall|c1: Category, c2: Category|
            spec_dir_name(c1) == spec_dir_name(c2) ==> c1 == c2,
{
    lemma_category_dir_round_trip();
    assert forall|c1: Category, c2: Category|
        spec_dir_name(c1) == spec_dir_name(c2) implies c1 == c2 by {
        assert(spec_from_dir_name(spec_dir_name(c1)) == Some(c1));
        assert(spec_from_dir_name(spec_dir_name(c2)) == Some(c2));
    }
}

/// Law: the rank order used for sorting agrees with the lexicographic
/// order of the canonical directory names.
pub proof fn lemma_rank_is_dir_name_order()
    ensures
        forall|c1: Category, c2: Category|
            cat_rank(c1) < cat_rank(c2) <==> str_lt(spec_dir_name(c1), spec_dir_name(c2)),
{
    reveal_strlit("personas");
    reveal_strlit("skills");
    reveal_strlit("contexts");
    reveal_strlit("tones");
    reveal_strlit("constraints");
    // the ten ordered pairs, by rank
    assert(str_lt("constraints"@, "contexts"@)) by {
        lemma_str_lt_from_diff("constraints"@, "contexts"@, 3);
    }
    assert(str_lt("constraints"@, "personas"@)) by {
        lemma_str_lt_from_diff("constraints"@, "personas"@, 0);
    }
    assert(str_lt("constraints"@, "skills"@)) by {
        lemma_str_lt_from_diff("constraints"@, "skills"@, 0);
    }
    assert(str_lt("constraints"@, "tones"@)) by {
        lemma_str_lt_from_diff("constraints"@, "tones"@, 0);
    }
    assert(str_lt("contexts"@, "personas"@)) by {
        lemma_str_lt_from_diff("contexts"@, "personas"@, 0);
    }
    assert(str_lt("contexts"@, "skills"@)) by {
        lemma_str_lt_from_diff("contexts"@, "skills"@, 0);
    }
    assert(str_lt("contexts"@, "tones"@)) by {
        lemma_str_lt_from_diff("contexts"@, "tones"@, 0);
    }
    assert(str_lt("personas"@, "skills"@)) by {
        lemma_str_lt_from_diff("personas"@, "skills"@, 0);
    }
    assert(str_lt("personas"@, "tones"@)) by {
        lemma_str_lt_from_diff("personas"@, "tones"@, 0);
    }
    assert(str_lt("skills"@, "tones"@)) by {
        lemma_str_lt_from_diff("skills"@, "tones"@, 0);
    }
    assert forall|c1: Category, c2: Category|
        cat_rank(c1) < cat_rank(c2) <==> str_lt(spec_dir_name(c1), spec_dir_name(c2)) by {
        if !(cat_rank(c1) < cat_rank(c2)) {
            if cat_rank(c1) == cat_rank(c2) {
                crate::strutil::lemma_str_lt_irreflexive(spec_dir_name(c1));
            } else {
                crate::strutil::lemma_str_lt_asymmetric(spec_dir_name(c2), spec_dir_name(c1));
            }
        }
    }
}

/// The origin tier a fragment was loaded from, lowest priority first.
#[derive(Debug, Clone, Copy, PartialEq, Eq, Structural)]
pub enum Source {
    BuiltIn,
    Global,
    Project,
}

/// The display label of each origin tier.
pub open spec fn spec_source_label(s: Source) -> Seq<char> {
    match s {
        Source::BuiltIn => "builtin"@,
        Source::Global => "global"@,
        Source::Project => "project"@,
    }
}

impl Source {
    /// The lower-case display label of this origin tier.
    pub fn label(&self) -> (r: &'static str)
        ensures
            r@ == spec_source_label(*self),
    {
        match self {
            Source::BuiltIn => "builtin",
            Source::Global => "global",
            Source::Project => "project",
        }
    }
}

/// The decoded metadata block of one fragment document.
#[derive(Debug, Clone)]
pub struct Frontmatter {
    pub description: Option<String>,
    pub tags: Vec<String>,
    pub group: Option<String>,
    pub level: Option<String>,
    pub skill_groups: Vec<String>,
    pub category: Option<String>,
}

/// Mathematical image of a metadata block.
pub struct FrontmatterV {
    pub description: Option<Seq<char>>,
    pub tags: Seq<Seq<char>>,
    pub group: Option<Seq<char>>,
    pub level: Option<Seq<char>>,
    pub skill_groups: Seq<Seq<char>>,
    pub category: Option<Seq<char>>,
}

impl View for Frontmatter {
    type V = FrontmatterV;

    open spec fn view(&self) -> FrontmatterV {
        FrontmatterV {
            description: self.description.deep_view(),
            tags: self.tags.deep_view(),
            group: self.group.deep_view(),
            level: self.level.deep_view(),
            skill_groups: self.skill_groups.deep_view(),
            category: self.category.deep_view(),
        }
    }
}

impl DeepView for Frontmatter {
    type V = FrontmatterV;

    open spec fn deep_view(&self) -> FrontmatterV {
        self.view()
    }
}

/// The all-absent metadata block.
pub open spec fn empty_fm() -> FrontmatterV {
    FrontmatterV {
        description: None,
        tags: Seq::empty(),
        group: None,
        level: None,
        skill_groups: Seq::empty(),
        category: None,
    }
}

impl Default for Frontmatter {
    /// A metadata block with every field absent or empty.
    fn default() -> (r: Frontmatter)
        ensures
            r@ == empty_fm(),
    {
        let r = Frontmatter {
            description: None,
            tags: Vec::new(),
            group: None,
            level: None,
            skill_groups: Vec::new(),
            category: None,
        };
        proof {
            assert(r@.tags =~= empty_fm().tags);
            assert(r@.skill_groups =~= empty_fm().skill_groups);
        }
        r
    }
}

/// A named, categorized unit of text with its metadata.
#[derive(Debug, Clone)]
pub struct Fragment {
    pub name: String,
    pub category: Category,
    pub description: String,
    pub tags: Vec<String>,
    pub group: Option<String>,
    pub level: Option<String>,
    pub skill_groups: Vec<String>,
    pub body: String,
    pub source: Source,
}

/// Mathematical image of a fragment.
pub struct FragmentV {
    pub name: Seq<char>,
    pub category: Category,
    pub description: Seq<char>,
    pub tags: Seq<Seq<char>>,
    pub group: Option<Seq<char>>,
    pub level: Option<Seq<char>>,
    pub skill_groups: Seq<Seq<char>>,
    pub body: Seq<char>,
    pub source: Source,
}

impl View for Fragment {
    type V = FragmentV;

    open spec fn view(&self) -> FragmentV {
        FragmentV {
            name: self.name@,
            category: self.category,
            description: self.description@,
            tags: self.tags.deep_view(),
            group: self.group.deep_view(),
            level: self.level.deep_view(),
            skill_groups: self.skill_groups.deep_view(),
            body: self.body@,
            source: self.source,
        }
    }
}

// ---------------------------------------------------------------------------
// Metadata assembly from decoded fields
// ---------------------------------------------------------------------------

/// The value of the last field with the given key (later entries win).
pub open spec fn field_lookup(
    fields: Seq<(Seq<char>, MetaValueV)>,
    key: Seq<char>,
) -> Option<MetaValueV>
    decreases fields.len(),
{
    if fields.len() == 0 {
        None
    } else if fields.last().0 == key {
        Some(fields.last().1)
    } else {
        field_lookup(fields.drop_last(), key)
    }
}

/// A single-string field accepts absence, a string, or an explicit null.
pub open spec fn str_field_ok(v: Option<MetaValueV>) -> bool {
    match v {
        None => true,
        Some(MetaValueV::Str(_)) => true,
        Some(MetaValueV::Null) => true,
        _ => false,
    }
}

pub open spec fn str_field_val(v: Option<MetaValueV>) -> Option<Seq<char>> {
    match v {
        Some(MetaValueV::Str(s)) => Some(s),
        _ => None,
    }
}

/// A string-list field accepts absence or a list of strings.
pub open spec fn list_field_ok(v: Option<MetaValueV>) -> bool {
    match v {
        None => true,
        Some(MetaValueV::List(_)) => true,
        _ => false,
    }
}

pub open spec fn list_field_val(v: Option<MetaValueV>) -> Seq<Seq<char>> {
    match v {
        Some(MetaValueV::List(l)) => l,
        _ => Seq::empty(),
    }
}

/// Every recognized key carries a value of the shape it requires.
pub open spec fn fm_fields_ok(fields: Seq<(Seq<char>, MetaValueV)>) -> bool {
    &&& str_field_ok(field_lookup(fields, "description"@))
    &&& list_field_ok(field_lookup(fields, "tags"@))
    &&& str_field_ok(field_lookup(fields, "group"@))
    &&& str_field_ok(field_lookup(fields, "level"@))
    &&& list_field_ok(field_lookup(fields, "skill_groups"@))
    &&& str_field_ok(field_lookup(fields, "category"@))
}

/// The metadata block assembled from well-shaped fields.
pub open spec fn fm_of_fields(fields: Seq<(Seq<char>, MetaValueV)>) -> FrontmatterV {
    FrontmatterV {
        description: str_field_val(field_lookup(fields, "description"@)),
        tags: list_field_val(field_lookup(fields, "tags"@)),
        group: str_field_val(field_lookup(fields, "group"@)),
        level: str_field_val(field_lookup(fields, "level"@)),
        skill_groups: list_field_val(field_lookup(fields, "skill_groups"@)),
        category: str_field_val(field_lookup(fields, "category"@)),
    }
}

/// The first recognized key whose value has the wrong shape.
pub open spec fn bad_field_key(fields: Seq<(Seq<char>, MetaValueV)>) -> Seq<char> {
    if !str_field_ok(field_lookup(fields, "description"@)) {
        "description"@
    } else if !list_field_ok(field_lookup(fields, "tags"@)) {
        "tags"@
    } else if !str_field_ok(field_lookup(fields, "group"@)) {
        "group"@
    } else if !str_field_ok(field_lookup(fields, "level"@)) {
        "level"@
    } else if !list_field_ok(field_lookup(fields, "skill_groups"@)) {
        "skill_groups"@
    } else {
        "category"@
    }
}

pub open spec fn invalid_field_msg(key: Seq<char>) -> Seq<char> {
    "invalid value for `"@ + key + "`"@
}

pub open spec fn is_known_key(k: Seq<char>) -> bool {
    k == "description"@ || k == "tags"@ || k == "group"@ || k == "level"@
        || k == "skill_groups"@ || k == "category"@
}

/// The keys outside the recognized set, in document order.
pub open spec fn unknown_keys(fields: Seq<(Seq<char>, MetaValueV)>) -> Seq<Seq<char>>
    decreases fields.len(),
{
    if fields.len() == 0 {
        Seq::empty()
    } else if is_known_key(fields.last().0) {
        unknown_keys(fields.drop_last())
    } else {
        unknown_keys(fields.drop_last()).push(fields.last().0)
    }
}

/// The six recognized keys are pairwise distinct.
proof fn lemma_known_keys_distinct()
    ensures
        "description"@ != "tags"@,
        "description"@ != "group"@,
        "description"@ != "level"@,
        "description"@ != "skill_groups"@,
        "description"@ != "category"@,
        "tags"@ != "group"@,
        "tags"@ != "level"@,
        "tags"@ != "skill_groups"@,
        "tags"@ != "category"@,
        "group"@ != "level"@,
        "group"@ != "skill_groups"@,
        "group"@ != "category"@,
        "level"@ != "skill_groups"@,
        "level"@ != "category"@,
        "skill_groups"@ != "category"@,
{
    reveal_strlit("description");
    reveal_strlit("tags");
    reveal_strlit("group");
    reveal_strlit("level");
    reveal_strlit("skill_groups");
    reveal_strlit("category");
    assert("description"@.len() == 11);
    assert("tags"@.len() == 4);
    assert("group"@.len() == 5);
    assert("level"@.len() == 5);
    assert("skill_groups"@.len() == 12);
    assert("category"@.len() == 8);
    assert("group"@[0] == 'g' && "level"@[0] == 'l');
}

/// Builds the message for a field whose value has the wrong shape.
fn invalid_field_message(key: &str) -> (r: String)
    ensures
        r@ == invalid_field_msg(key@),
{
    let mut m = String::from_str("invalid value for `");
    m.append(key);
    m.append("`");
    m
}

/// Converts a single-string field's last value, if well-shaped.
fn take_str_field(v: Option<&MetaValue>, key: &str) -> (r: Result<Option<String>, String>)
    ensures
        ({
            let vv = match v {
                Some(m) => Some(m@),
                None => None,
            };
            match r {
                Ok(s) => str_field_ok(vv) && s.deep_view() == str_field_val(vv),
                Err(m) => !str_field_ok(vv) && m@ == invalid_field_msg(key@),
            }
        }),
{
    match v {
        None => Ok(None),
        Some(MetaValue::Str(s)) => Ok(Some(s.clone())),
        Some(MetaValue::Null) => Ok(None),
        Some(_) => Err(invalid_field_message(key)),
    }
}

/// Converts a string-list field's last value, if well-shaped.
fn take_list_field(v: Option<&MetaValue>, key: &str) -> (r: Result<Vec<String>, String>)
    ensures
        ({
            let vv = match v {
                Some(m) => Some(m@),
                None => None,
            };
            match r {
                Ok(l) => list_field_ok(vv) && l.deep_view() == list_field_val(vv),
                Err(m) => !list_field_ok(vv) && m@ == invalid_field_msg(key@),
            }
        }),
{
    match v {
        None => {
            let l: Vec<String> = Vec::new();
            proof {
                assert(l.deep_view() =~= Seq::<Seq<char>>::empty());
            }
            Ok(l)
        }
        Some(MetaValue::List(l)) => {
            let mut out: Vec<String> = Vec::new();
            let mut i: usize = 0;
            while i < l.len()
                invariant
                    0 <= i <= l.len(),
                    out@.len() == i,
                    forall|j: int| 0 <= j < i ==> out@[j]@ == l@[j]@,
                decreases l.len() - i,
            {
                out.push(l[i].clone());
                i = i + 1;
            }
            proof {
                assert(out.deep_view() =~= l.deep_view());
            }
            Ok(out)
        }
        Some(_) => Err(invalid_field_message(key)),
    }
}

/// Assembles the metadata record and the unknown-key list from the
/// decoded fields, reporting the first ill-shaped recognized field.
fn build_frontmatter(fields: &Vec<(String, MetaValue)>) -> (r: Result<
    (Frontmatter, Vec<String>),
    String,
>)
    ensures
        ({
            let fs = crate::yaml::fields_seq(*fields);
            match r {
                Ok(p) => fm_fields_ok(fs) && p.0@ == fm_of_fields(fs) && p.1.deep_view()
                    == unknown_keys(fs),
                Err(m) => !fm_fields_ok(fs) && m@ == invalid_field_msg(bad_field_key(fs)),
            }
        }),
{
    let ghost fs = crate::yaml::fields_seq(*fields);
    let mut description: Option<usize> = None;
    let mut tags: Option<usize> = None;
    let mut group: Option<usize> = None;
    let mut level: Option<usize> = None;
    let mut skill_groups: Option<usize> = None;
    let mut category: Option<usize> = None;
    let mut unknown: Vec<String> = Vec::new();
    let mut i: usize = 0;
    proof {
        assert(unknown.deep_view() =~= unknown_keys(fs.take(0)));
    }
    while i < fields.len()
        invariant
            0 <= i <= fields.len(),
            fs == crate::yaml::fields_seq(*fields),
            fs.len() == fields.len(),
            forall|j: int| 0 <= j < fs.len() ==> fs[j] == (fields@[j].0@, fields@[j].1@),
            idx_tracks(description, fields@, i as int, "description"@),
            idx_tracks(tags, fields@, i as int, "tags"@),
            idx_tracks(group, fields@, i as int, "group"@),
            idx_tracks(level, fields@, i as int, "level"@),
            idx_tracks(skill_groups, fields@, i as int, "skill_groups"@),
            idx_tracks(category, fields@, i as int, "category"@),
            unknown.deep_view() == unknown_keys(fs.take(i as int)),
        decreases fields.len() - i,
    {
        proof {
            lemma_known_keys_distinct();
            assert(fs.take(i + 1).drop_last() =~= fs.take(i as int));
            assert(fs.take(i + 1).last() == fs[i as int]);
        }
        let key = &fields[i].0;
        if str_eq_exec(key.as_str(), "description") {
            description = Some(i);
        } else if str_eq_exec(key.as_str(), "tags") {
            tags = Some(i);
        } else if str_eq_exec(key.as_str(), "group") {
            group = Some(i);
        } else if str_eq_exec(key.as_str(), "level") {
            level = Some(i);
        } else if str_eq_exec(key.as_str(), "skill_groups") {
            skill_groups = Some(i);
        } else if str_eq_exec(key.as_str(), "category") {
            category = Some(i);
        } else {
            unknown.push(key.clone());
            proof {
                assert(unknown.deep_view() =~= unknown_keys(fs.take(i as int)).push(
                    fs[i as int].0,
                ));
            }
        }
        i = i + 1;
    }
    proof {
        assert(fs.take(fs.len() as int) =~= fs);
        lemma_idx_lookup(description, fields@, fs, "description"@);
        lemma_idx_lookup(tags, fields@, fs, "tags"@);
        lemma_idx_lookup(group, fields@, fs, "group"@);
        lemma_idx_lookup(level, fields@, fs, "level"@);
        lemma_idx_lookup(skill_groups, fields@, fs, "skill_groups"@);
        lemma_idx_lookup(category, fields@, fs, "category"@);
    }
    let d = match take_str_field(opt_field(fields, description), "description") {
        Ok(v) => v,
        Err(m) => {
            return Err(m);
        }
    };
    let t = match take_list_field(opt_field(fields, tags), "tags") {
        Ok(v) => v,
        Err(m) => {
            return Err(m);
        }
    };
    let g = match take_str_field(opt_field(fields, group), "group") {
        Ok(v) => v,
        Err(m) => {
            return Err(m);
        }
    };
    let l = match take_str_field(opt_field(fields, level), "level") {
        Ok(v) => v,
        Err(m) => {
            return Err(m);
        }
    };
    let sg = match take_list_field(opt_field(fields, skill_groups), "skill_groups") {
        Ok(v) => v,
        Err(m) => {
            return Err(m);
        }
    };
    let c = match take_str_field(opt_field(fields, category), "category") {
        Ok(v) => v,
        Err(m) => {
            return Err(m);
        }
    };
    let fm = Frontmatter {
        description: d,
        tags: t,
        group: g,
        level: l,
        skill_groups: sg,
        category: c,
    };
    Ok((fm, unknown))
}

// ---------------------------------------------------------------------------
// Document parsing
// ---------------------------------------------------------------------------

/// Where a document's metadata block ends: the block's text and the rest
/// of the document, when an opening fence begins the (left-trimmed)
/// document and a closing fence follows.
pub open spec fn split_fences(content: Seq<char>) -> Option<(Seq<char>, Seq<char>)> {
    let t = trim_start_spec(content);
    if is_prefix("---"@, t) {
        let after = t.skip(3);
        if crate::strutil::has_sub(after, "\n---"@) {
            let n = crate::strutil::sub_idx(after, "\n---"@) as int;
            Some((after.subrange(0, n), after.skip(n + 4)))
        } else {
            None
        }
    } else {
        None
    }
}

fn split_fences_exec<'a>(content: &'a str) -> (r: Option<(&'a str, &'a str)>)
    ensures
        match r {
            Some(p) => split_fences(content@) == Some((p.0@, p.1@)),
            None => split_fences(content@) is None,
        },
{
    proof {
        reveal_strlit("---");
        reveal_strlit("\n---");
    }
    let t = trim_start_exec(content);
    if !starts_with_exec(t, "---") {
        return None;
    }
    let lt = t.unicode_len();
    let after = t.substring_char(3, lt);
    proof {
        assert(after@ =~= trim_start_spec(content@).skip(3));
    }
    match find_sub(after, "\n---", 0) {
        Some(n) => {
            proof {
                crate::strutil::lemma_sub_idx_is(after@, "\n---"@, n as int);
            }
            let la = after.unicode_len();
            let y = after.substring_char(0, n);
            let b = after.substring_char(n + 4, la);
            proof {
                assert(b@ =~= after@.skip(n + 4));
            }
            Some((y, b))
        }
        None => None,
    }
}

/// Metadata decoded leniently: any failure yields the empty block.
pub open spec fn lenient_fm_of(yaml: Seq<char>) -> FrontmatterV {
    match yaml_fields_of(yaml) {
        Ok(fields) => if fm_fields_ok(fields) {
            fm_of_fields(fields)
        } else {
            empty_fm()
        },
        Err(_) => empty_fm(),
    }
}

fn parse_frontmatter_lenient(y: &str) -> (fm: Frontmatter)
    ensures
        fm@ == lenient_fm_of(y@),
{
    match yaml_fields(y) {
        Ok(fields) => match build_frontmatter(&fields) {
            Ok(p) => p.0,
            Err(_) => Frontmatter::default(),
        },
        Err(_) => Frontmatter::default(),
    }
}

/// The parse of one document: leniently decoded metadata, the trimmed
/// body, and a description defaulting to the body's first line.
pub open spec fn spec_parse(
    content: Seq<char>,
    name: Seq<char>,
    category: Category,
    source: Source,
) -> FragmentV {
    let fm = match split_fences(content) {
        Some(p) => lenient_fm_of(p.0),
        None => empty_fm(),
    };
    let raw = match split_fences(content) {
        Some(p) => p.1,
        None => content,
    };
    let body = trim_spec(raw);
    FragmentV {
        name,
        category,
        description: match fm.description {
            Some(d) => d,
            None => first_line_spec(body),
        },
        tags: fm.tags,
        group: fm.group,
        level: fm.level,
        skill_groups: fm.skill_groups,
        body,
        source,
    }
}

impl Fragment {
    /// Parses one document's text into a fragment record.
    pub fn parse(content: &str, name: &str, category: Category, source: Source) -> (r: Fragment)
        ensures
            r@ == spec_parse(content@, name@, category, source),
    {
        let (fm, raw): (Frontmatter, &str) = match split_fences_exec(content) {
            Some(p) => (parse_frontmatter_lenient(p.0), p.1),
            None => (Frontmatter::default(), content),
        };
        let body = String::from_str(trim_exec(raw));
        let description = match fm.description {
            Some(d) => d,
            None => String::from_str(first_line_exec(body.as_str())),
        };
        Fragment {
            name: String::from_str(name),
            category,
            description,
            tags: fm.tags,
            group: fm.group,
            level: fm.level,
            skill_groups: fm.skill_groups,
            body,
            source,
        }
    }
}

/// Minimal lenient metadata parse, used to read the `category` field of
/// root-level documents.
pub fn parse_root_frontmatter(content: &str) -> (fm: Frontmatter)
    ensures
        fm@ == (match split_fences(content@) {
            Some(p) => lenient_fm_of(p.0),
            None => empty_fm(),
        }),
{
    match split_fences_exec(content) {
        Some(p) => parse_frontmatter_lenient(p.0),
        None => Frontmatter::default(),
    }
}

/// The strict parse outcome: the metadata block, the unrecognized key
/// names, and the body — or the decode error.
pub open spec fn spec_parse_strict(content: Seq<char>) -> Result<
    (FrontmatterV, Seq<Seq<char>>, Seq<char>),
    Seq<char>,
> {
    match split_fences(content) {
        None => Ok((empty_fm(), Seq::empty(), content)),
        Some(p) => match yaml_fields_of(p.0) {
            Err(e) => Err(e),
            Ok(fields) => if fm_fields_ok(fields) {
                Ok((fm_of_fields(fields), unknown_keys(fields), p.1))
            } else {
                Err(invalid_field_msg(bad_field_key(fields)))
            },
        },
    }
}

/// Strict metadata parser: reports a decode failure as an error,
/// distinct from "no metadata block", and collects unrecognized keys.
pub fn parse_frontmatter_strict(content: &str) -> (r: Result<
    (Frontmatter, Vec<String>, String),
    String,
>)
    ensures
        match r {
            Ok(t) => spec_parse_strict(content@) == Ok::<_, Seq<char>>(
                (t.0@, t.1.deep_view(), t.2@),
            ),
            Err(m) => spec_parse_strict(content@) == Err::<(FrontmatterV, Seq<Seq<char>>, Seq<char>), _>(
                m@,
            ),
        },
{
    match split_fences_exec(content) {
        None => {
            let unknown: Vec<String> = Vec::new();
            proof {
                assert(unknown.deep_view() =~= Seq::<Seq<char>>::empty());
            }
            Ok((Frontmatter::default(), unknown, String::from_str(content)))
        }
        Some(p) => match yaml_fields(p.0) {
            Err(e) => Err(e),
            Ok(fields) => match build_frontmatter(&fields) {
                Ok(fm_unknown) => Ok((fm_unknown.0, fm_unknown.1, String::from_str(p.1))),
                Err(m) => Err(m),
            },
        },
    }
}

/// An index into the fields, tracking the last occurrence of `key` among
/// the first `i` entries.
pub open spec fn idx_tracks(
    v: Option<usize>,
    fields: Seq<(String, MetaValue)>,
    i: int,
    key: Seq<char>,
) -> bool {
    match v {
        Some(j) => 0 <= j < i && fields[j as int].0@ == key && forall|l: int|
            j < l < i ==> fields[l].0@ != key,
        None => forall|l: int| 0 <= l < i ==> fields[l].0@ != key,
    }
}

/// What the tracked index says about the spec-level lookup.
pub open spec fn lookup_agrees(
    v: Option<usize>,
    fields: Seq<(String, MetaValue)>,
    fs: Seq<(Seq<char>, MetaValueV)>,
    key: Seq<char>,
) -> bool {
    match v {
        Some(j) => j < fields.len() && field_lookup(fs, key) == Some(fields[j as int].1@),
        None => field_lookup(fs, key) == None::<MetaValueV>,
    }
}

proof fn lemma_idx_lookup(
    v: Option<usize>,
    fields: Seq<(String, MetaValue)>,
    fs: Seq<(Seq<char>, MetaValueV)>,
    key: Seq<char>,
)
    requires
        fs.len() == fields.len(),
        forall|j: int| 0 <= j < fs.len() ==> fs[j] == (fields[j].0@, fields[j].1@),
        idx_tracks(v, fields, fields.len() as int, key),
    ensures
        lookup_agrees(v, fields, fs, key),
    decreases fs.len(),
{
    if fs.len() > 0 {
        match v {
            Some(j) => {
                if j == fs.len() - 1 {
                    assert(fs.last().0 == key);
                } else {
                    assert(fs.last().0 != key);
                    assert(forall|l: int|
                        0 <= l < fs.len() - 1 ==> fs.drop_last()[l] == fs[l]);
                    lemma_idx_lookup(v, fields.drop_last(), fs.drop_last(), key);
                }
            }
            None => {
                assert(fs.last().0 != key);
                lemma_idx_lookup(v, fields.drop_last(), fs.drop_last(), key);
            }
        }
    }
}

/// The field value at a tracked index.
fn opt_field<'a>(fields: &'a Vec<(String, MetaValue)>, v: Option<usize>) -> (r: Option<
    &'a MetaValue,
>)
    requires
        match v {
            Some(j) => j < fields@.len(),
            None => true,
        },
    ensures
        match (v, r) {
            (Some(j), Some(m)) => *m == fields@[j as int].1,
            (None, None) => true,
            _ => false,
        },
{
    match v {
        Some(j) => Some(&fields[j].1),
        None => None,
    }
}

} // verus!
