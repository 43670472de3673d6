//! The validation rule engine: each rule is a pure check over one
//! parsed fragment document's context, producing diagnostics.

use vstd::prelude::*;

use crate::fragment::{
    spec_dir_name, spec_from_name, spec_parse_strict, Category, Frontmatter, FrontmatterV, Source,
};
use crate::strutil::{trim_exec, trim_spec};

verus! {

use vstd::string::StringExecFns;
use vstd::string::StrSliceExecFns;

/// Everything a rule may look at for one document.
#[derive(Debug)]
pub struct FragmentContext {
    pub file_path: String,
    pub filename_stem: String,
    pub category: Category,
    pub source: Source,
    pub raw_content: String,
    pub frontmatter: Option<Frontmatter>,
    pub yaml_error: Option<String>,
    pub unknown_fields: Vec<String>,
    pub body: String,
    pub is_root_level: bool,
}

/// Mathematical image of a document context.
pub struct FragmentContextV {
    pub file_path: Seq<char>,
    pub filename_stem: Seq<char>,
    pub category: Category,
    pub source: Source,
    pub raw_content: Seq<char>,
    pub frontmatter: Option<FrontmatterV>,
    pub yaml_error: Option<Seq<char>>,
    pub unknown_fields: Seq<Seq<char>>,
    pub body: Seq<char>,
    pub is_root_level: bool,
}

impl View for FragmentContext {
    type V = FragmentContextV;

    open spec fn view(&self) -> FragmentContextV {
        FragmentContextV {
            file_path: self.file_path@,
            filename_stem: self.filename_stem@,
            category: self.category,
            source: self.source,
            raw_content: self.raw_content@,
            frontmatter: self.frontmatter.deep_view(),
            yaml_error: self.yaml_error.deep_view(),
            unknown_fields: self.unknown_fields.deep_view(),
            body: self.body@,
            is_root_level: self.is_root_level,
        }
    }
}

/// How serious a finding is.
#[derive(Debug, Clone, Copy, PartialEq, Eq, Structural)]
pub enum Severity {
    Error,
    Warning,
}

impl Severity {
    /// The lower-case display label.
    pub fn label(&self) -> (r: &'static str)
        ensures
            (*self == Severity::Error ==> r@ == "error"@) && (*self == Severity::Warning ==> r@
                == "warning"@),
    {
        match self {
            Severity::Error => "error",
            Severity::Warning => "warning",
        }
    }
}

/// One finding of one rule on one document.
#[derive(Debug)]
pub struct LintDiagnostic {
    pub severity: Severity,
    pub file_path: String,
    pub rule: String,
    pub message: String,
}

/// Mathematical image of a finding.
pub struct LintDiagnosticV {
    pub severity: Severity,
    pub file_path: Seq<char>,
    pub rule: Seq<char>,
    pub message: Seq<char>,
}

impl View for LintDiagnostic {
    type V = LintDiagnosticV;

    open spec fn view(&self) -> LintDiagnosticV {
        LintDiagnosticV {
            severity: self.severity,
            file_path: self.file_path@,
            rule: self.rule@,
            message: self.message@,
        }
    }
}

impl DeepView for LintDiagnostic {
    type V = LintDiagnosticV;

    open spec fn deep_view(&self) -> LintDiagnosticV {
        self.view()
    }
}

/// One diagnostic record.
pub open spec fn diag(
    severity: Severity,
    file_path: Seq<char>,
    rule: Seq<char>,
    message: Seq<char>,
) -> LintDiagnosticV {
    LintDiagnosticV { severity, file_path, rule, message }
}

fn make_diag(severity: Severity, file_path: &String, rule: &str, message: String) -> (r:
    LintDiagnostic)
    ensures
        r@ == diag(severity, file_path@, rule@, message@),
{
    LintDiagnostic { severity, file_path: file_path.clone(), rule: String::from_str(rule), message }
}

/// A lint rule: a named, pure check over a document context.
pub trait LintRule {
    /// The findings this rule produces on the given context.
    spec fn spec_check(ctx: FragmentContextV) -> Seq<LintDiagnosticV>;

    /// The rule's name.
    fn name(&self) -> (r: &'static str);

    /// Runs the rule.
    fn check(&self, ctx: &FragmentContext) -> (r: Vec<LintDiagnostic>)
        ensures
            r.deep_view() == Self::spec_check(ctx@),
    ;
}

/// A decode failure in the metadata block is an error.
pub struct ValidYaml;

impl LintRule for ValidYaml {
    open spec fn spec_check(ctx: FragmentContextV) -> Seq<LintDiagnosticV> {
        match ctx.yaml_error {
            Some(e) => seq![
                diag(
                    Severity::Error,
                    ctx.file_path,
                    "valid-yaml"@,
                    "invalid YAML frontmatter: "@ + e,
                ),
            ],
            None => Seq::empty(),
        }
    }

    fn name(&self) -> (r: &'static str) {
        "valid-yaml"
    }

    fn check(&self, ctx: &FragmentContext) -> (r: Vec<LintDiagnostic>)
        ensures
            r.deep_view() == Self::spec_check(ctx@),
    {
        let mut out: Vec<LintDiagnostic> = Vec::new();
        match &ctx.yaml_error {
            Some(e) => {
                let mut msg = String::from_str("invalid YAML frontmatter: ");
                msg.append(e.as_str());
                out.push(make_diag(Severity::Error, &ctx.file_path, "valid-yaml", msg));
                proof {
                    assert(out.deep_view() =~= Self::spec_check(ctx@));
                }
            }
            None => {
                proof {
                    assert(out.deep_view() =~= Self::spec_check(ctx@));
                }
            }
        }
        out
    }
}

/// An empty (after trimming) body is an error.
pub struct NonEmptyBody;

impl LintRule for NonEmptyBody {
    open spec fn spec_check(ctx: FragmentContextV) -> Seq<LintDiagnosticV> {
        if trim_spec(ctx.body).len() == 0 {
            seq![diag(Severity::Error, ctx.file_path, "non-empty-body"@, "body is empty"@)]
        } else {
            Seq::empty()
        }
    }

    fn name(&self) -> (r: &'static str) {
        "non-empty-body"
    }

    fn check(&self, ctx: &FragmentContext) -> (r: Vec<LintDiagnostic>)
        ensures
            r.deep_view() == Self::spec_check(ctx@),
    {
        let mut out: Vec<LintDiagnostic> = Vec::new();
        let trimmed = trim_exec(ctx.body.as_str());
        if trimmed.unicode_len() == 0 {
            out.push(
                make_diag(
                    Severity::Error,
                    &ctx.file_path,
                    "non-empty-body",
                    String::from_str("body is empty"),
                ),
            );
        }
        proof {
            assert(out.deep_view() =~= Self::spec_check(ctx@));
        }
        out
    }
}

/// A decoded metadata block without a description is worth a warning.
pub struct HasDescription;

impl LintRule for HasDescription {
    open spec fn spec_check(ctx: FragmentContextV) -> Seq<LintDiagnosticV> {
        match ctx.frontmatter {
            Some(fm) => if fm.description is None {
                seq![
                    diag(
                        Severity::Warning,
                        ctx.file_path,
                        "has-description"@,
                        "missing `description` field in frontmatter"@,
                    ),
                ]
            } else {
                Seq::empty()
            },
            None => Seq::empty(),
        }
    }

    fn name(&self) -> (r: &'static str) {
        "has-description"
    }

    fn check(&self, ctx: &FragmentContext) -> (r: Vec<LintDiagnostic>)
        ensures
            r.deep_view() == Self::spec_check(ctx@),
    {
        let mut out: Vec<LintDiagnostic> = Vec::new();
        match &ctx.frontmatter {
            Some(fm) => {
                if fm.description.is_none() {
                    out.push(
                        make_diag(
                            Severity::Warning,
                            &ctx.file_path,
                            "has-description",
                            String::from_str("missing `description` field in frontmatter"),
                        ),
                    );
                }
            }
            None => {}
        }
        proof {
            assert(out.deep_view() =~= Self::spec_check(ctx@));
        }
        out
    }
}

/// A decoded metadata block without tags is worth a warning.
pub struct HasTags;

impl LintRule for HasTags {
    open spec fn spec_check(ctx: FragmentContextV) -> Seq<LintDiagnosticV> {
        match ctx.frontmatter {
            Some(fm) => if fm.tags.len() == 0 {
                seq![
                    diag(
                        Severity::Warning,
                        ctx.file_path,
                        "has-tags"@,
                        "missing or empty `tags` field"@,
                    ),
                ]
            } else {
                Seq::empty()
            },
            None => Seq::empty(),
        }
    }

    fn name(&self) -> (r: &'static str) {
        "has-tags"
    }

    fn check(&self, ctx: &FragmentContext) -> (r: Vec<LintDiagnostic>)
        ensures
            r.deep_view() == Self::spec_check(ctx@),
    {
        let mut out: Vec<LintDiagnostic> = Vec::new();
        match &ctx.frontmatter {
            Some(fm) => {
                if fm.tags.len() == 0 {
                    out.push(
                        make_diag(
                            Severity::Warning,
                            &ctx.file_path,
                            "has-tags",
                            String::from_str("missing or empty `tags` field"),
                        ),
                    );
                }
            }
            None => {}
        }
        proof {
            assert(out.deep_view() =~= Self::spec_check(ctx@));
        }
        out
    }
}

/// Every unrecognized metadata key is reported.
pub struct UnknownFields;

impl LintRule for UnknownFields {
    open spec fn spec_check(ctx: FragmentContextV) -> Seq<LintDiagnosticV> {
        ctx.unknown_fields.map_values(
            |f: Seq<char>|
                diag(
                    Severity::Warning,
                    ctx.file_path,
                    "unknown-fields"@,
                    "unknown frontmatter field `"@ + f + "`"@,
                ),
        )
    }

    fn name(&self) -> (r: &'static str) {
        "unknown-fields"
    }

    fn check(&self, ctx: &FragmentContext) -> (r: Vec<LintDiagnostic>)
        ensures
            r.deep_view() == Self::spec_check(ctx@),
    {
        let mut out: Vec<LintDiagnostic> = Vec::new();
        let mut i: usize = 0;
        while i < ctx.unknown_fields.len()
            invariant
                0 <= i <= ctx.unknown_fields@.len(),
                out@.len() == i,
                forall|z: int| 0 <= z < i ==> out@[z]@ == Self::spec_check(ctx@)[z],
            decreases ctx.unknown_fields@.len() - i,
        {
            let mut msg = String::from_str("unknown frontmatter field `");
            msg.append(ctx.unknown_fields[i].as_str());
            msg.append("`");
            out.push(make_diag(Severity::Warning, &ctx.file_path, "unknown-fields", msg));
            proof {
                assert(Self::spec_check(ctx@)[i as int] == diag(
                    Severity::Warning,
                    ctx@.file_path,
                    "unknown-fields"@,
                    "unknown frontmatter field `"@ + ctx@.unknown_fields[i as int] + "`"@,
                ));
                assert(ctx@.unknown_fields[i as int] == ctx.unknown_fields@[i as int]@);
            }
            i = i + 1;
        }
        proof {
            assert(Self::spec_check(ctx@).len() == ctx.unknown_fields@.len());
            assert(out.deep_view() =~= Self::spec_check(ctx@));
        }
        out
    }
}

/// A skill without a group is worth a warning.
pub struct SkillHasGroup;

impl LintRule for SkillHasGroup {
    open spec fn spec_check(ctx: FragmentContextV) -> Seq<LintDiagnosticV> {
        if ctx.category != Category::Skill {
            Seq::empty()
        } else {
            match ctx.frontmatter {
                Some(fm) => if fm.group is None {
                    seq![
                        diag(
                            Severity::Warning,
                            ctx.file_path,
                            "skill-has-group"@,
                            "skill is missing `group` field"@,
                        ),
                    ]
                } else {
                    Seq::empty()
                },
                None => Seq::empty(),
            }
        }
    }

    fn name(&self) -> (r: &'static str) {
        "skill-has-group"
    }

    fn check(&self, ctx: &FragmentContext) -> (r: Vec<LintDiagnostic>)
        ensures
            r.deep_view() == Self::spec_check(ctx@),
    {
        let mut out: Vec<LintDiagnostic> = Vec::new();
        if ctx.category == Category::Skill {
            match &ctx.frontmatter {
                Some(fm) => {
                    if fm.group.is_none() {
                        out.push(
                            make_diag(
                                Severity::Warning,
                                &ctx.file_path,
                                "skill-has-group",
                                String::from_str("skill is missing `group` field"),
                            ),
                        );
                    }
                }
                None => {}
            }
        }
        proof {
            assert(out.deep_view() =~= Self::spec_check(ctx@));
        }
        out
    }
}

/// A persona without a level is worth a warning.
pub struct PersonaHasLevel;

impl LintRule for PersonaHasLevel {
    open spec fn spec_check(ctx: FragmentContextV) -> Seq<LintDiagnosticV> {
        if ctx.category != Category::Persona {
            Seq::empty()
        } else {
            match ctx.frontmatter {
                Some(fm) => if fm.level is None {
                    seq![
                        diag(
                            Severity::Warning,
                            ctx.file_path,
                            "persona-has-level"@,
                            "persona is missing `level` field"@,
                        ),
                    ]
                } else {
                    Seq::empty()
                },
                None => Seq::empty(),
            }
        }
    }

    fn name(&self) -> (r: &'static str) {
        "persona-has-level"
    }

    fn check(&self, ctx: &FragmentContext) -> (r: Vec<LintDiagnostic>)
        ensures
            r.deep_view() == Self::spec_check(ctx@),
    {
        let mut out: Vec<LintDiagnostic> = Vec::new();
        if ctx.category == Category::Persona {
            match &ctx.frontmatter {
                Some(fm) => {
                    if fm.level.is_none() {
                        out.push(
                            make_diag(
                                Severity::Warning,
                                &ctx.file_path,
                                "persona-has-level",
                                String::from_str("persona is missing `level` field"),
                            ),
                        );
                    }
                }
                None => {}
            }
        }
        proof {
            assert(out.deep_view() =~= Self::spec_check(ctx@));
        }
        out
    }
}

/// A persona without group affinities is worth a warning.
pub struct PersonaHasSkillGroups;

impl LintRule for PersonaHasSkillGroups {
    open spec fn spec_check(ctx: FragmentContextV) -> Seq<LintDiagnosticV> {
        if ctx.category != Category::Persona {
            Seq::empty()
        } else {
            match ctx.frontmatter {
                Some(fm) => if fm.skill_groups.len() == 0 {
                    seq![
                        diag(
                            Severity::Warning,
                            ctx.file_path,
                            "persona-has-skill-groups"@,
                            "persona is missing `skill_groups` field"@,
                        ),
                    ]
                } else {
                    Seq::empty()
                },
                None => Seq::empty(),
            }
        }
    }

    fn name(&self) -> (r: &'static str) {
        "persona-has-skill-groups"
    }

    fn check(&self, ctx: &FragmentContext) -> (r: Vec<LintDiagnostic>)
        ensures
            r.deep_view() == Self::spec_check(ctx@),
    {
        let mut out: Vec<LintDiagnostic> = Vec::new();
        if ctx.category == Category::Persona {
            match &ctx.frontmatter {
                Some(fm) => {
                    if fm.skill_groups.len() == 0 {
                        out.push(
                            make_diag(
                                Severity::Warning,
                                &ctx.file_path,
                                "persona-has-skill-groups",
                                String::from_str("persona is missing `skill_groups` field"),
                            ),
                        );
                    }
                }
                None => {}
            }
        }
        proof {
            assert(out.deep_view() =~= Self::spec_check(ctx@));
        }
        out
    }
}

/// A root-level document must declare a recognized category.
pub struct RootFileHasCategory;

impl LintRule for RootFileHasCategory {
    open spec fn spec_check(ctx: FragmentContextV) -> Seq<LintDiagnosticV> {
        if !ctx.is_root_level {
            Seq::empty()
        } else {
            match ctx.frontmatter {
                Some(fm) => match fm.category {
                    None => seq![
                        diag(
                            Severity::Error,
                            ctx.file_path,
                            "root-file-has-category"@,
                            "root-level file is missing `category` in frontmatter"@,
                        ),
                    ],
                    Some(cs) => if spec_from_name(cs) is None {
                        seq![
                            diag(
                                Severity::Error,
                                ctx.file_path,
                                "root-file-has-category"@,
                                "unknown category `"@ + cs + "` in frontmatter"@,
                            ),
                        ]
                    } else {
                        Seq::empty()
                    },
                },
                None => Seq::empty(),
            }
        }
    }

    fn name(&self) -> (r: &'static str) {
        "root-file-has-category"
    }

    fn check(&self, ctx: &FragmentContext) -> (r: Vec<LintDiagnostic>)
        ensures
            r.deep_view() == Self::spec_check(ctx@),
    {
        let mut out: Vec<LintDiagnostic> = Vec::new();
        if ctx.is_root_level {
            match &ctx.frontmatter {
                Some(fm) => match &fm.category {
                    None => {
                        out.push(
                            make_diag(
                                Severity::Error,
                                &ctx.file_path,
                                "root-file-has-category",
                                String::from_str(
                                    "root-level file is missing `category` in frontmatter",
                                ),
                            ),
                        );
                    }
                    Some(cs) => {
                        if Category::from_name(cs.as_str()).is_none() {
                            let mut msg = String::from_str("unknown category `");
                            msg.append(cs.as_str());
                            msg.append("` in frontmatter");
                            out.push(
                                make_diag(
                                    Severity::Error,
                                    &ctx.file_path,
                                    "root-file-has-category",
                                    msg,
                                ),
                            );
                        }
                    }
                },
                None => {}
            }
        }
        proof {
            assert(out.deep_view() =~= Self::spec_check(ctx@));
        }
        out
    }
}

/// A subdirectory document whose metadata declares a different,
/// recognized category is worth a warning.
pub struct CategoryConflict;

impl LintRule for CategoryConflict {
    open spec fn spec_check(ctx: FragmentContextV) -> Seq<LintDiagnosticV> {
        if ctx.is_root_level {
            Seq::empty()
        } else {
            match ctx.frontmatter {
                Some(fm) => match fm.category {
                    Some(cs) => match spec_from_name(cs) {
                        Some(c2) => if c2 != ctx.category {
                            seq![
                                diag(
                                    Severity::Warning,
                                    ctx.file_path,
                                    "category-conflict"@,
                                    "frontmatter `category: "@ + cs
                                        + "` conflicts with subdirectory `"@ + spec_dir_name(
                                        ctx.category,
                                    ) + "`"@,
                                ),
                            ]
                        } else {
                            Seq::empty()
                        },
                        None => Seq::empty(),
                    },
                    None => Seq::empty(),
                },
                None => Seq::empty(),
            }
        }
    }

    fn name(&self) -> (r: &'static str) {
        "category-conflict"
    }

    fn check(&self, ctx: &FragmentContext) -> (r: Vec<LintDiagnostic>)
        ensures
            r.deep_view() == Self::spec_check(ctx@),
    {
        let mut out: Vec<LintDiagnostic> = Vec::new();
        if !ctx.is_root_level {
            match &ctx.frontmatter {
                Some(fm) => match &fm.category {
                    Some(cs) => match Category::from_name(cs.as_str()) {
                        Some(c2) => {
                            if c2 != ctx.category {
                                let mut msg = String::from_str("frontmatter `category: ");
                                msg.append(cs.as_str());
                                msg.append("` conflicts with subdirectory `");
                                msg.append(ctx.category.dir_name());
                                msg.append("`");
                                out.push(
                                    make_diag(
                                        Severity::Warning,
                                        &ctx.file_path,
                                        "category-conflict",
                                        msg,
                                    ),
                                );
                            }
                        }
                        None => {}
                    },
                    None => {}
                },
                None => {}
            }
        }
        proof {
            assert(out.deep_view() =~= Self::spec_check(ctx@));
        }
        out
    }
}

/// All findings of the fixed rule set, in rule order.
pub open spec fn spec_lint(ctx: FragmentContextV) -> Seq<LintDiagnosticV> {
    ValidYaml::spec_check(ctx) + NonEmptyBody::spec_check(ctx) + HasDescription::spec_check(ctx)
        + HasTags::spec_check(ctx) + UnknownFields::spec_check(ctx) + SkillHasGroup::spec_check(ctx)
        + PersonaHasLevel::spec_check(ctx) + PersonaHasSkillGroups::spec_check(ctx)
        + RootFileHasCategory::spec_check(ctx) + CategoryConflict::spec_check(ctx)
}

/// The rule engine: runs the fixed, ordered rule set.
pub struct Linter;

impl Linter {
    pub fn new() -> (r: Linter) {
        Linter
    }

    /// Runs every rule on the context, keeping rule order.
    pub fn check(&self, ctx: &FragmentContext) -> (r: Vec<LintDiagnostic>)
        ensures
            r.deep_view() == spec_lint(ctx@),
    {
        let mut out: Vec<LintDiagnostic> = Vec::new();
        let mut part = ValidYaml.check(ctx);
        out.append(&mut part);
        let mut part = NonEmptyBody.check(ctx);
        out.append(&mut part);
        let mut part = HasDescription.check(ctx);
        out.append(&mut part);
        let mut part = HasTags.check(ctx);
        out.append(&mut part);
        let mut part = UnknownFields.check(ctx);
        out.append(&mut part);
        let mut part = SkillHasGroup.check(ctx);
        out.append(&mut part);
        let mut part = PersonaHasLevel.check(ctx);
        out.append(&mut part);
        let mut part = PersonaHasSkillGroups.check(ctx);
        out.append(&mut part);
        let mut part = RootFileHasCategory.check(ctx);
        out.append(&mut part);
        let mut part = CategoryConflict.check(ctx);
        out.append(&mut part);
        proof {
            assert(out.deep_view() =~= spec_lint(ctx@));
        }
        out
    }
}

/// The parsed context of one document, as the rules see it.
pub open spec fn spec_build_context(
    raw: Seq<char>,
    file_path: Seq<char>,
    stem: Seq<char>,
    category: Category,
    source: Source,
    is_root_level: bool,
) -> FragmentContextV {
    match spec_parse_strict(raw) {
        Ok(t) => FragmentContextV {
            file_path,
            filename_stem: stem,
            category,
            source,
            raw_content: raw,
            frontmatter: Some(t.0),
            yaml_error: None,
            unknown_fields: t.1,
            body: t.2,
            is_root_level,
        },
        Err(e) => FragmentContextV {
            file_path,
            filename_stem: stem,
            category,
            source,
            raw_content: raw,
            frontmatter: None,
            yaml_error: Some(e),
            unknown_fields: Seq::empty(),
            body: raw,
            is_root_level,
        },
    }
}

/// Parses one document into the context the rules consume.
pub fn build_context(
    raw_content: &str,
    file_path: &str,
    filename_stem: &str,
    category: Category,
    source: Source,
    is_root_level: bool,
) -> (r: FragmentContext)
    ensures
        r@ == spec_build_context(
            raw_content@,
            file_path@,
            filename_stem@,
            category,
            source,
            is_root_level,
        ),
{
    match crate::fragment::parse_frontmatter_strict(raw_content) {
        Ok(t) => {
            let (fm, unknown_fields, body) = t;
            FragmentContext {
                file_path: String::from_str(file_path),
                filename_stem: String::from_str(filename_stem),
                category,
                source,
                raw_content: String::from_str(raw_content),
                frontmatter: Some(fm),
                yaml_error: None,
                unknown_fields,
                body,
                is_root_level,
            }
        }
        Err(e) => {
            let unknown: Vec<String> = Vec::new();
            let r = FragmentContext {
                file_path: String::from_str(file_path),
                filename_stem: String::from_str(filename_stem),
                category,
                source,
                raw_content: String::from_str(raw_content),
                frontmatter: None,
                yaml_error: Some(e),
                unknown_fields: unknown,
                body: String::from_str(raw_content),
                is_root_level,
            };
            proof {
                assert(r@.unknown_fields =~= Seq::<Seq<char>>::empty());
            }
            r
        }
    }
}

/// How many findings of each severity a report holds.
pub open spec fn count_severity(ds: Seq<LintDiagnosticV>, sev: Severity) -> nat
    decreases ds.len(),
{
    if ds.len() == 0 {
        0
    } else {
        count_severity(ds.drop_last(), sev) + (if ds.last().severity == sev {
            1nat
        } else {
            0nat
        })
    }
}

/// Counts the errors and warnings in a diagnostics list.
pub fn count_diagnostics(diags: &Vec<LintDiagnostic>) -> (r: (usize, usize))
    ensures
        r.0 == count_severity(diags.deep_view(), Severity::Error),
        r.1 == count_severity(diags.deep_view(), Severity::Warning),
{
    let ghost ds = diags.deep_view();
    let mut errors: usize = 0;
    let mut warnings: usize = 0;
    let mut i: usize = 0;
    proof {
        assert(ds.take(0) =~= Seq::<LintDiagnosticV>::empty());
    }
    while i < diags.len()
        invariant
            0 <= i <= diags.len(),
            ds == diags.deep_view(),
            ds.len() == diags@.len(),
            forall|z: int| 0 <= z < ds.len() ==> ds[z] == diags@[z]@,
            errors <= i,
            warnings <= i,
            errors == count_severity(ds.take(i as int), Severity::Error),
            warnings == count_severity(ds.take(i as int), Severity::Warning),
        decreases diags.len() - i,
    {
        proof {
            assert(ds.take(i + 1).drop_last() =~= ds.take(i as int));
            assert(ds.take(i + 1).last() == ds[i as int]);
        }
        match diags[i].severity {
            Severity::Error => {
                errors = errors + 1;
            }
            Severity::Warning => {
                warnings = warnings + 1;
            }
        }
        i = i + 1;
    }
    proof {
        assert(ds.take(ds.len() as int) =~= ds);
    }
    (errors, warnings)
}

/// Lints every built-in document, appending the findings.
pub fn walk_builtin(linter: &Linter, diagnostics: &mut Vec<LintDiagnostic>)
    ensures
        final(diagnostics)@.len() >= old(diagnostics)@.len(),
        forall|k: int|
            0 <= k < old(diagnostics)@.len() ==> final(diagnostics)@[k] == old(diagnostics)@[k],
{
    let docs = crate::builtin::builtin_docs();
    let mut d: usize = 0;
    while d < docs.len()
        invariant
            0 <= d <= docs.len(),
            forall|k: int|
                0 <= k < old(diagnostics)@.len() ==> diagnostics@[k] == old(diagnostics)@[k],
            diagnostics@.len() >= old(diagnostics)@.len(),
        decreases docs.len() - d,
    {
        let doc = &docs[d];
        match doc_display_parts(doc) {
            Some((stem, path, category)) => {
                let ctx = build_context(
                    doc.text.as_str(),
                    path.as_str(),
                    stem,
                    category,
                    Source::BuiltIn,
                    false,
                );
                let mut found = linter.check(&ctx);
                diagnostics.append(&mut found);
            }
            None => {}
        }
        d = d + 1;
    }
}

/// The display path and identity of one built-in document.
fn doc_display_parts<'a>(doc: &'a crate::registry::RawDoc) -> (r: Option<
    (&'a str, String, Category),
>) {
    let category = match doc.category {
        Some(c) => c,
        None => {
            return None;
        }
    };
    let stem = match crate::registry::doc_stem_exec(doc.file_name.as_str()) {
        Some(s) => s,
        None => {
            return None;
        }
    };
    let mut path = String::from_str("defaults/");
    path.append(category.dir_name());
    path.append("/");
    path.append(doc.file_name.as_str());
    Some((stem, path, category))
}

} // verus!
