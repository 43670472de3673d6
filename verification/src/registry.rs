//! The fragment registry: merges documents from three origin tiers under
//! override priority into a category-partitioned snapshot, and serves
//! lookup, listing and index queries over it.

use vstd::prelude::*;

use crate::fragment::{
    cat_rank, lenient_fm_of, spec_from_name, spec_parse, split_fences, Category, Fragment,
    FragmentV,
};
use crate::strutil::{str_eq_exec, str_lt, str_lt_exec};

verus! {

/// One document handed to the registry: its file name, the category of
/// the subdirectory it was found in (none for a root-level document),
/// and its raw text.
#[derive(Debug, Clone)]
pub struct RawDoc {
    pub file_name: String,
    pub category: Option<Category>,
    pub text: String,
}

/// Mathematical image of a raw document.
pub struct RawDocV {
    pub file_name: Seq<char>,
    pub category: Option<Category>,
    pub text: Seq<char>,
}

impl View for RawDoc {
    type V = RawDocV;

    open spec fn view(&self) -> RawDocV {
        RawDocV { file_name: self.file_name@, category: self.category, text: self.text@ }
    }
}

impl DeepView for RawDoc {
    type V = RawDocV;

    open spec fn deep_view(&self) -> RawDocV {
        self.view()
    }
}

impl DeepView for Fragment {
    type V = FragmentV;

    open spec fn deep_view(&self) -> FragmentV {
        self.view()
    }
}

// ---------------------------------------------------------------------------
// Document identity
// ---------------------------------------------------------------------------

/// Index of the last `.` in `s`, or -1 when there is none.
pub open spec fn last_dot(s: Seq<char>) -> int
    decreases s.len(),
{
    if s.len() == 0 {
        -1
    } else if s.last() == '.' {
        s.len() - 1
    } else {
        last_dot(s.drop_last())
    }
}

proof fn lemma_last_dot_is(s: Seq<char>, k: int)
    requires
        -1 <= k < s.len(),
        k >= 0 ==> s[k] == '.',
        forall|j: int| k < j < s.len() ==> s[j] != '.',
    ensures
        last_dot(s) == k,
    decreases s.len(),
{
    if s.len() > 0 {
        if s.last() == '.' {
            assert(k == s.len() - 1);
        } else {
            assert(k < s.len() - 1);
            lemma_last_dot_is(s.drop_last(), k);
        }
    }
}

/// A document's identity: the file name without its `.md` extension, or
/// nothing when the file does not carry the fragment-document extension.
pub open spec fn doc_stem(name: Seq<char>) -> Option<Seq<char>> {
    let k = last_dot(name);
    if k > 0 && name.skip(k + 1) == "md"@ {
        Some(name.take(k))
    } else {
        None
    }
}

/// Strips the fragment-document extension from a file name.
pub fn doc_stem_exec<'a>(name: &'a str) -> (r: Option<&'a str>)
    ensures
        match r {
            Some(stem) => doc_stem(name@) == Some(stem@),
            None => doc_stem(name@) is None,
        },
{
    proof {
        reveal_strlit("md");
    }
    let ln: usize = name.unicode_len();
    let mut i: usize = ln;
    while i > 0 && name.get_char(i - 1) != '.'
        invariant
            0 <= i <= ln,
            ln == name@.len(),
            forall|j: int| i <= j < ln ==> name@[j] != '.',
        decreases i,
    {
        i = i - 1;
    }
    if i == 0 {
        proof {
            lemma_last_dot_is(name@, -1);
        }
        return None;
    }
    let k = i - 1;
    proof {
        lemma_last_dot_is(name@, k as int);
    }
    let ext = name.substring_char(k + 1, ln);
    proof {
        assert(ext@ =~= name@.skip(k + 1));
    }
    if k > 0 && str_eq_exec(ext, "md") {
        let stem = name.substring_char(0, k);
        proof {
            assert(stem@ =~= name@.take(k as int));
        }
        Some(stem)
    } else {
        None
    }
}

use vstd::string::StrSliceExecFns;

// ---------------------------------------------------------------------------
// From document to fragment
// ---------------------------------------------------------------------------

/// The category a root-level document declares in its metadata block.
pub open spec fn root_category(text: Seq<char>) -> Option<Category> {
    let fm = match split_fences(text) {
        Some(p) => lenient_fm_of(p.0),
        None => crate::fragment::empty_fm(),
    };
    match fm.category {
        Some(c) => spec_from_name(c),
        None => None,
    }
}

fn root_category_exec(text: &str) -> (r: Option<Category>)
    ensures
        r == root_category(text@),
{
    let fm = crate::fragment::parse_root_frontmatter(text);
    match fm.category {
        Some(c) => Category::from_name(c.as_str()),
        None => None,
    }
}

/// The fragment a document contributes: none when the file name has no
/// fragment-document extension, or when a root-level document does not
/// declare a recognized category.
pub open spec fn doc_fragment(d: RawDocV, origin: crate::fragment::Source) -> Option<FragmentV> {
    match doc_stem(d.file_name) {
        None => None,
        Some(stem) => {
            let cat = match d.category {
                Some(c) => Some(c),
                None => root_category(d.text),
            };
            match cat {
                None => None,
                Some(c) => Some(spec_parse(d.text, stem, c, origin)),
            }
        }
    }
}

// ---------------------------------------------------------------------------
// The merged map
// ---------------------------------------------------------------------------

/// The lookup key of a fragment: its category and name.
pub open spec fn frag_key(f: FragmentV) -> (Category, Seq<char>) {
    (f.category, f.name)
}

/// The map a fragment sequence denotes (later entries win).
pub open spec fn frags_map(s: Seq<FragmentV>) -> Map<(Category, Seq<char>), FragmentV>
    decreases s.len(),
{
    if s.len() == 0 {
        Map::empty()
    } else {
        frags_map(s.drop_last()).insert(frag_key(s.last()), s.last())
    }
}

/// No two fragments share a (category, name) key.
pub open spec fn unique_keys(s: Seq<FragmentV>) -> bool {
    forall|i: int, j: int|
        0 <= i < j < s.len() ==> frag_key(s[i]) != frag_key(s[j])
}

pub proof fn lemma_frags_map_contains(s: Seq<FragmentV>, k: (Category, Seq<char>))
    ensures
        frags_map(s).contains_key(k) <==> exists|i: int| 0 <= i < s.len() && frag_key(s[i]) == k,
    decreases s.len(),
{
    if s.len() > 0 {
        lemma_frags_map_contains(s.drop_last(), k);
        if frag_key(s.last()) == k {
            assert(frag_key(s[s.len() - 1]) == k);
        } else {
            if frags_map(s).contains_key(k) {
                let i = choose|i: int| 0 <= i < s.drop_last().len() && frag_key(
                    s.drop_last()[i],
                ) == k;
                assert(frag_key(s[i]) == k);
            }
            if exists|i: int| 0 <= i < s.len() && frag_key(s[i]) == k {
                let i = choose|i: int| 0 <= i < s.len() && frag_key(s[i]) == k;
                assert(i < s.len() - 1);
                assert(frag_key(s.drop_last()[i]) == k);
            }
        }
    }
}

/// A map entry's fragment carries the category and name it is keyed by.
pub proof fn lemma_frags_map_key_fields(s: Seq<FragmentV>)
    ensures
        forall|k: (Category, Seq<char>)| #![auto]
            frags_map(s).contains_key(k) ==> frags_map(s)[k].category == k.0 && frags_map(s)[k].name
                == k.1,
    decreases s.len(),
{
    if s.len() > 0 {
        lemma_frags_map_key_fields(s.drop_last());
    }
}

pub proof fn lemma_frags_map_index(s: Seq<FragmentV>, i: int)
    requires
        unique_keys(s),
        0 <= i < s.len(),
    ensures
        frags_map(s).contains_key(frag_key(s[i])),
        frags_map(s)[frag_key(s[i])] == s[i],
    decreases s.len(),
{
    if i == s.len() - 1 {
    } else {
        assert(forall|l: int, m: int|
            0 <= l < m < s.drop_last().len() ==> frag_key(s.drop_last()[l]) != frag_key(
                s.drop_last()[m],
            ));
        lemma_frags_map_index(s.drop_last(), i);
        assert(frag_key(s[i]) != frag_key(s.last()));
    }
}

proof fn lemma_frags_map_update(s: Seq<FragmentV>, i: int, f: FragmentV)
    requires
        unique_keys(s),
        0 <= i < s.len(),
        frag_key(s[i]) == frag_key(f),
    ensures
        frags_map(s.update(i, f)) == frags_map(s).insert(frag_key(f), f),
        unique_keys(s.update(i, f)),
    decreases s.len(),
{
    let t = s.update(i, f);
    assert(t.len() == s.len());
    if i == s.len() - 1 {
        assert(t.drop_last() =~= s.drop_last());
        assert(t.last() == f);
        assert(frags_map(t) == frags_map(s.drop_last()).insert(frag_key(f), f));
        assert(frags_map(s.drop_last()).insert(frag_key(s.last()), s.last()).insert(
            frag_key(f),
            f,
        ) =~= frags_map(s.drop_last()).insert(frag_key(f), f));
    } else {
        assert(forall|l: int, m: int|
            0 <= l < m < s.drop_last().len() ==> frag_key(s.drop_last()[l]) != frag_key(
                s.drop_last()[m],
            ));
        lemma_frags_map_update(s.drop_last(), i, f);
        assert(t.drop_last() =~= s.drop_last().update(i, f));
        assert(t.last() == s.last());
        assert(frag_key(s[i]) != frag_key(s.last()));
        assert(frags_map(t) == frags_map(s.drop_last().update(i, f)).insert(
            frag_key(s.last()),
            s.last(),
        ));
        assert(frags_map(s.drop_last()).insert(frag_key(f), f).insert(
            frag_key(s.last()),
            s.last(),
        ) =~= frags_map(s.drop_last()).insert(frag_key(s.last()), s.last()).insert(
            frag_key(f),
            f,
        ));
    }
}

// ---------------------------------------------------------------------------
// Loading layers of documents
// ---------------------------------------------------------------------------

/// One document applied to the map under the layer's override policy.
pub open spec fn apply_doc(
    m: Map<(Category, Seq<char>), FragmentV>,
    d: RawDocV,
    origin: crate::fragment::Source,
    first_wins: bool,
) -> Map<(Category, Seq<char>), FragmentV> {
    match doc_fragment(d, origin) {
        None => m,
        Some(f) => if first_wins && m.contains_key(frag_key(f)) {
            m
        } else {
            m.insert(frag_key(f), f)
        },
    }
}

/// A layer of documents applied in order.
pub open spec fn load_docs(
    m: Map<(Category, Seq<char>), FragmentV>,
    docs: Seq<RawDocV>,
    origin: crate::fragment::Source,
    first_wins: bool,
) -> Map<(Category, Seq<char>), FragmentV>
    decreases docs.len(),
{
    if docs.len() == 0 {
        m
    } else {
        apply_doc(load_docs(m, docs.drop_last(), origin, first_wins), docs.last(), origin, first_wins)
    }
}

/// The snapshot's map: built-in documents first with first-write-wins,
/// then the global and project layers, each with last-write-wins.
pub open spec fn registry_map(
    builtin: Seq<RawDocV>,
    global: Seq<RawDocV>,
    project: Seq<RawDocV>,
) -> Map<(Category, Seq<char>), FragmentV> {
    load_docs(
        load_docs(
            load_docs(Map::empty(), builtin, crate::fragment::Source::BuiltIn, true),
            global,
            crate::fragment::Source::Global,
            false,
        ),
        project,
        crate::fragment::Source::Project,
        false,
    )
}

// ---------------------------------------------------------------------------
// Exec loading
// ---------------------------------------------------------------------------

/// Inserts one parsed fragment under the layer's override policy.
fn upsert(frags: &mut Vec<Fragment>, f: Fragment, first_wins: bool)
    requires
        unique_keys(old(frags).deep_view()),
    ensures
        unique_keys(final(frags).deep_view()),
        frags_map(final(frags).deep_view()) == (if first_wins && frags_map(
            old(frags).deep_view(),
        ).contains_key(frag_key(f@)) {
            frags_map(old(frags).deep_view())
        } else {
            frags_map(old(frags).deep_view()).insert(frag_key(f@), f@)
        }),
{
    let ghost dv = frags.deep_view();
    let mut i: usize = 0;
    while i < frags.len()
        invariant
            0 <= i <= frags.len(),
            dv == old(frags).deep_view(),
            dv == frags.deep_view(),
            dv.len() == frags@.len(),
            unique_keys(dv),
            forall|j: int| 0 <= j < dv.len() ==> dv[j] == frags@[j]@,
            forall|j: int| 0 <= j < i ==> frag_key(dv[j]) != frag_key(f@),
        decreases frags.len() - i,
    {
        let same_cat = frags[i].category == f.category;
        let same_name = str_eq_exec(frags[i].name.as_str(), f.name.as_str());
        if same_cat && same_name {
            proof {
                assert(dv[i as int].category == f@.category);
                assert(dv[i as int].name == f@.name);
                assert(frag_key(dv[i as int]) == frag_key(f@));
                lemma_frags_map_contains(dv, frag_key(f@));
                assert(frags_map(dv).contains_key(frag_key(f@)));
            }
            if first_wins {
                return;
            }
            proof {
                lemma_frags_map_update(dv, i as int, f@);
            }
            let ghost fv = f@;
            let ghost pre = frags@;
            let r = vstd::std_specs::vec::vec_index_mut(frags, i);
            *r = f;
            proof {
                let ndv = frags.deep_view();
                assert forall|j: int| 0 <= j < ndv.len() implies ndv[j] == dv.update(
                    i as int,
                    fv,
                )[j] by {
                    if j != i {
                        assert(frags@[j] == pre[j]);
                        assert(pre[j]@ == dv[j]);
                    }
                }
                assert(ndv =~= dv.update(i as int, fv));
            }
            return;
        }
        i = i + 1;
    }
    proof {
        lemma_frags_map_contains(dv, frag_key(f@));
    }
    frags.push(f);
    proof {
        let ndv = frags.deep_view();
        assert(ndv =~= dv.push(f@));
        assert(ndv.drop_last() =~= dv);
        assert forall|l: int, m: int|
            0 <= l < m < ndv.len() implies frag_key(ndv[l]) != frag_key(ndv[m]) by {
            if m == ndv.len() - 1 {
                assert(frag_key(dv[l]) != frag_key(f@));
            }
        }
    }
}

/// Parses one document and applies it to the snapshot under the layer's
/// override policy; documents without identity or category are skipped.
fn add_doc(frags: &mut Vec<Fragment>, d: &RawDoc, origin: crate::fragment::Source, first_wins: bool)
    requires
        unique_keys(old(frags).deep_view()),
    ensures
        unique_keys(final(frags).deep_view()),
        frags_map(final(frags).deep_view()) == apply_doc(
            frags_map(old(frags).deep_view()),
            d@,
            origin,
            first_wins,
        ),
{
    let stem = match doc_stem_exec(d.file_name.as_str()) {
        Some(s) => s,
        None => {
            return;
        }
    };
    let category = match d.category {
        Some(c) => c,
        None => match root_category_exec(d.text.as_str()) {
            Some(c) => c,
            None => {
                return;
            }
        },
    };
    let f = Fragment::parse(d.text.as_str(), stem, category, origin);
    upsert(frags, f, first_wins);
}

/// Applies one origin's documents in order.
fn load_layer(
    frags: &mut Vec<Fragment>,
    docs: &Vec<RawDoc>,
    origin: crate::fragment::Source,
    first_wins: bool,
)
    requires
        unique_keys(old(frags).deep_view()),
    ensures
        unique_keys(final(frags).deep_view()),
        frags_map(final(frags).deep_view()) == load_docs(
            frags_map(old(frags).deep_view()),
            docs.deep_view(),
            origin,
            first_wins,
        ),
{
    let ghost m0 = frags_map(old(frags).deep_view());
    let ghost ds = docs.deep_view();
    let mut i: usize = 0;
    while i < docs.len()
        invariant
            0 <= i <= docs.len(),
            ds == docs.deep_view(),
            ds.len() == docs@.len(),
            forall|j: int| 0 <= j < ds.len() ==> ds[j] == docs@[j]@,
            unique_keys(frags.deep_view()),
            frags_map(frags.deep_view()) == load_docs(m0, ds.take(i as int), origin, first_wins),
        decreases docs.len() - i,
    {
        add_doc(frags, &docs[i], origin, first_wins);
        proof {
            assert(ds.take(i + 1).drop_last() =~= ds.take(i as int));
            assert(ds.take(i + 1).last() == ds[i as int]);
        }
        i = i + 1;
    }
    proof {
        assert(ds.take(ds.len() as int) =~= ds);
    }
}

// ---------------------------------------------------------------------------
// Origin priority
// ---------------------------------------------------------------------------

/// The last fragment a layer contributes under key `k` (what a
/// last-write-wins layer keeps).
pub open spec fn last_def(
    docs: Seq<RawDocV>,
    origin: crate::fragment::Source,
    k: (Category, Seq<char>),
) -> Option<FragmentV>
    decreases docs.len(),
{
    if docs.len() == 0 {
        None
    } else {
        match doc_fragment(docs.last(), origin) {
            Some(f) => if frag_key(f) == k {
                Some(f)
            } else {
                last_def(docs.drop_last(), origin, k)
            },
            None => last_def(docs.drop_last(), origin, k),
        }
    }
}

/// The first fragment a layer contributes under key `k` (what a
/// first-write-wins layer keeps).
pub open spec fn first_def(
    docs: Seq<RawDocV>,
    origin: crate::fragment::Source,
    k: (Category, Seq<char>),
) -> Option<FragmentV>
    decreases docs.len(),
{
    if docs.len() == 0 {
        None
    } else {
        match first_def(docs.drop_last(), origin, k) {
            Some(f) => Some(f),
            None => match doc_fragment(docs.last(), origin) {
                Some(f) => if frag_key(f) == k {
                    Some(f)
                } else {
                    None
                },
                None => None,
            },
        }
    }
}

/// A fragment contributed by a document records that document's origin.
proof fn lemma_doc_fragment_source(d: RawDocV, origin: crate::fragment::Source)
    ensures
        match doc_fragment(d, origin) {
            Some(f) => f.source == origin,
            None => true,
        },
{
}

proof fn lemma_last_def_source(
    docs: Seq<RawDocV>,
    origin: crate::fragment::Source,
    k: (Category, Seq<char>),
)
    ensures
        match last_def(docs, origin, k) {
            Some(f) => f.source == origin && frag_key(f) == k,
            None => true,
        },
    decreases docs.len(),
{
    if docs.len() > 0 {
        lemma_doc_fragment_source(docs.last(), origin);
        lemma_last_def_source(docs.drop_last(), origin, k);
    }
}

proof fn lemma_first_def_source(
    docs: Seq<RawDocV>,
    origin: crate::fragment::Source,
    k: (Category, Seq<char>),
)
    ensures
        match first_def(docs, origin, k) {
            Some(f) => f.source == origin && frag_key(f) == k,
            None => true,
        },
    decreases docs.len(),
{
    if docs.len() > 0 {
        lemma_doc_fragment_source(docs.last(), origin);
        lemma_first_def_source(docs.drop_last(), origin, k);
    }
}

/// What one last-write-wins layer does to a key: its own last
/// contribution wins, and keys it does not define are preserved.
proof fn lemma_load_last_wins(
    m: Map<(Category, Seq<char>), FragmentV>,
    docs: Seq<RawDocV>,
    origin: crate::fragment::Source,
    k: (Category, Seq<char>),
)
    ensures
        match last_def(docs, origin, k) {
            Some(f) => load_docs(m, docs, origin, false).contains_key(k) && load_docs(
                m,
                docs,
                origin,
                false,
            )[k] == f,
            None => (load_docs(m, docs, origin, false).contains_key(k) <==> m.contains_key(k))
                && (m.contains_key(k) ==> load_docs(m, docs, origin, false)[k] == m[k]),
        },
    decreases docs.len(),
{
    if docs.len() > 0 {
        lemma_load_last_wins(m, docs.drop_last(), origin, k);
    }
}

/// What one first-write-wins layer does to a key: existing entries are
/// kept, and otherwise the layer's first contribution wins.
proof fn lemma_load_first_wins(
    m: Map<(Category, Seq<char>), FragmentV>,
    docs: Seq<RawDocV>,
    origin: crate::fragment::Source,
    k: (Category, Seq<char>),
)
    ensures
        m.contains_key(k) ==> load_docs(m, docs, origin, true).contains_key(k) && load_docs(
            m,
            docs,
            origin,
            true,
        )[k] == m[k],
        !m.contains_key(k) ==> match first_def(docs, origin, k) {
            Some(f) => load_docs(m, docs, origin, true).contains_key(k) && load_docs(
                m,
                docs,
                origin,
                true,
            )[k] == f,
            None => !load_docs(m, docs, origin, true).contains_key(k),
        },
    decreases docs.len(),
{
    if docs.len() > 0 {
        lemma_load_first_wins(m, docs.drop_last(), origin, k);
    }
}

/// Law: a (category, name) key present in several origins resolves to
/// the highest-priority origin's fragment — project over global over
/// built-in, with first-write-wins among built-in documents and
/// last-write-wins within the global and project layers — and the
/// fragment records the origin it came from.
pub proof fn lemma_origin_priority(
    builtin: Seq<RawDocV>,
    global: Seq<RawDocV>,
    project: Seq<RawDocV>,
    k: (Category, Seq<char>),
)
    ensures
        match last_def(project, crate::fragment::Source::Project, k) {
            Some(f) => registry_map(builtin, global, project).contains_key(k) && registry_map(
                builtin,
                global,
                project,
            )[k] == f && f.source == crate::fragment::Source::Project,
            None => match last_def(global, crate::fragment::Source::Global, k) {
                Some(f) => registry_map(builtin, global, project).contains_key(k)
                    && registry_map(builtin, global, project)[k] == f && f.source
                    == crate::fragment::Source::Global,
                None => match first_def(builtin, crate::fragment::Source::BuiltIn, k) {
                    Some(f) => registry_map(builtin, global, project).contains_key(k)
                        && registry_map(builtin, global, project)[k] == f && f.source
                        == crate::fragment::Source::BuiltIn,
                    None => !registry_map(builtin, global, project).contains_key(k),
                },
            },
        },
{
    let m0 = Map::<(Category, Seq<char>), FragmentV>::empty();
    let mb = load_docs(m0, builtin, crate::fragment::Source::BuiltIn, true);
    let mg = load_docs(mb, global, crate::fragment::Source::Global, false);
    lemma_load_first_wins(m0, builtin, crate::fragment::Source::BuiltIn, k);
    lemma_load_last_wins(mb, global, crate::fragment::Source::Global, k);
    lemma_load_last_wins(mg, project, crate::fragment::Source::Project, k);
    lemma_first_def_source(builtin, crate::fragment::Source::BuiltIn, k);
    lemma_last_def_source(global, crate::fragment::Source::Global, k);
    lemma_last_def_source(project, crate::fragment::Source::Project, k);
}

// ---------------------------------------------------------------------------
// Sorted, deduplicated string lists
// ---------------------------------------------------------------------------

/// Strictly ascending in lexicographic order (hence duplicate-free).
pub open spec fn strs_sorted(ss: Seq<Seq<char>>) -> bool {
    forall|i: int, j: int| 0 <= i < j < ss.len() ==> str_lt(ss[i], ss[j])
}

pub open spec fn strs_contain(ss: Seq<Seq<char>>, t: Seq<char>) -> bool {
    exists|i: int| 0 <= i < ss.len() && ss[i] == t
}

/// Inserts a string into a sorted list unless it is already present.
fn insert_sorted_dedup(v: &mut Vec<String>, s: &str)
    requires
        strs_sorted(old(v).deep_view()),
    ensures
        strs_sorted(final(v).deep_view()),
        forall|t: Seq<char>|
            strs_contain(final(v).deep_view(), t) <==> (strs_contain(old(v).deep_view(), t) || t
                == s@),
{
    let ghost dv = v.deep_view();
    let mut pos: usize = 0;
    while pos < v.len() && str_lt_exec(v[pos].as_str(), s)
        invariant
            0 <= pos <= v.len(),
            dv == old(v).deep_view(),
            dv == v.deep_view(),
            dv.len() == v@.len(),
            strs_sorted(dv),
            forall|j: int| 0 <= j < dv.len() ==> dv[j] == v@[j]@,
            forall|j: int| 0 <= j < pos ==> str_lt(dv[j], s@),
        decreases v.len() - pos,
    {
        pos = pos + 1;
    }
    if pos < v.len() && str_eq_exec(v[pos].as_str(), s) {
        proof {
            assert(dv[pos as int] == s@);
        }
        return;
    }
    proof {
        if pos < dv.len() {
            crate::strutil::lemma_str_lt_connected(dv[pos as int], s@);
            assert(str_lt(s@, dv[pos as int]));
        }
    }
    let ghost pre = v@;
    v.insert(pos, String::from_str(s));
    proof {
        let ndv = v.deep_view();
        pre.insert_ensures(pos as int, v@[pos as int]);
        assert forall|j: int| 0 <= j < ndv.len() implies ndv[j] == dv.insert(pos as int, s@)[j] by {
            dv.insert_ensures(pos as int, s@);
            if j < pos {
                assert(v@[j] == pre[j]);
            } else if j == pos {
            } else {
                assert(v@[j] == pre[j - 1]);
            }
        }
        assert(ndv =~= dv.insert(pos as int, s@));
        dv.insert_ensures(pos as int, s@);
        assert forall|i: int, j: int| 0 <= i < j < ndv.len() implies str_lt(ndv[i], ndv[j]) by {
            if j < pos {
            } else if i < pos && j == pos {
            } else if i < pos && j > pos {
                assert(str_lt(dv[i], s@));
                if pos < dv.len() {
                    crate::strutil::lemma_str_lt_transitive(ndv[i], s@, ndv[j]);
                    crate::strutil::lemma_str_lt_transitive(s@, dv[pos as int], dv[j - 1]);
                }
                assert(str_lt(s@, dv[j - 1]));
                crate::strutil::lemma_str_lt_transitive(ndv[i], s@, dv[j - 1]);
            } else if i == pos {
                assert(ndv[j] == dv[j - 1]);
                assert(str_lt(s@, dv[pos as int]));
                if j - 1 > pos {
                    crate::strutil::lemma_str_lt_transitive(s@, dv[pos as int], dv[j - 1]);
                }
            } else {
            }
        }
        assert forall|t: Seq<char>|
            strs_contain(ndv, t) <==> (strs_contain(dv, t) || t == s@) by {
            if strs_contain(ndv, t) {
                let i = choose|i: int| 0 <= i < ndv.len() && ndv[i] == t;
                if i < pos {
                    assert(dv[i] == t);
                } else if i > pos {
                    assert(dv[i - 1] == t);
                }
            }
            if strs_contain(dv, t) {
                let i = choose|i: int| 0 <= i < dv.len() && dv[i] == t;
                if i < pos {
                    assert(ndv[i] == t);
                } else {
                    assert(ndv[i + 1] == t);
                }
            }
            if t == s@ {
                assert(ndv[pos as int] == t);
            }
        }
    }
}

// ---------------------------------------------------------------------------
// Derived indices
// ---------------------------------------------------------------------------

/// The sorted names of one category's fragments.
fn names_of_category(frags: &Vec<Fragment>, c: Category) -> (r: Vec<String>)
    ensures
        strs_sorted(r.deep_view()),
        forall|n: Seq<char>|
            strs_contain(r.deep_view(), n) <==> exists|l: int|
                0 <= l < frags.deep_view().len() && frags.deep_view()[l].category == c
                    && frags.deep_view()[l].name == n,
{
    let ghost dv = frags.deep_view();
    let mut r: Vec<String> = Vec::new();
    proof {
        assert(r.deep_view() =~= Seq::<Seq<char>>::empty());
    }
    let mut i: usize = 0;
    while i < frags.len()
        invariant
            0 <= i <= frags.len(),
            dv == frags.deep_view(),
            dv.len() == frags@.len(),
            forall|j: int| 0 <= j < dv.len() ==> dv[j] == frags@[j]@,
            strs_sorted(r.deep_view()),
            forall|n: Seq<char>|
                strs_contain(r.deep_view(), n) <==> exists|l: int|
                    0 <= l < i && dv[l].category == c && dv[l].name == n,
        decreases frags.len() - i,
    {
        let ghost prev = r.deep_view();
        if frags[i].category == c {
            insert_sorted_dedup(&mut r, frags[i].name.as_str());
            proof {
                assert(dv[i as int].category == c && dv[i as int].name == frags@[i as int].name@);
                assert forall|n: Seq<char>|
                    strs_contain(r.deep_view(), n) <==> exists|l: int|
                        0 <= l < i + 1 && dv[l].category == c && dv[l].name == n by {
                    if strs_contain(r.deep_view(), n) {
                        if strs_contain(prev, n) {
                            let l = choose|l: int|
                                0 <= l < i && dv[l].category == c && dv[l].name == n;
                            assert(0 <= l < i + 1 && dv[l].category == c && dv[l].name == n);
                        } else {
                            assert(dv[i as int].category == c && dv[i as int].name == n);
                        }
                    }
                    if exists|l: int| 0 <= l < i + 1 && dv[l].category == c && dv[l].name == n {
                        let l = choose|l: int|
                            0 <= l < i + 1 && dv[l].category == c && dv[l].name == n;
                        if l < i {
                            assert(strs_contain(prev, n));
                        }
                    }
                }
            }
        } else {
            proof {
                assert forall|n: Seq<char>|
                    strs_contain(r.deep_view(), n) <==> exists|l: int|
                        0 <= l < i + 1 && dv[l].category == c && dv[l].name == n by {
                    if exists|l: int| 0 <= l < i + 1 && dv[l].category == c && dv[l].name == n {
                        let l = choose|l: int|
                            0 <= l < i + 1 && dv[l].category == c && dv[l].name == n;
                        assert(l < i);
                    }
                }
            }
        }
        i = i + 1;
    }
    r
}

/// The sorted, deduplicated list of every tag on any fragment.
fn build_tags(frags: &Vec<Fragment>) -> (r: Vec<String>)
    ensures
        strs_sorted(r.deep_view()),
        forall|t: Seq<char>|
            strs_contain(r.deep_view(), t) <==> exists|l: int|
                0 <= l < frags.deep_view().len() && frags.deep_view()[l].tags.contains(t),
{
    let ghost dv = frags.deep_view();
    let mut r: Vec<String> = Vec::new();
    proof {
        assert(r.deep_view() =~= Seq::<Seq<char>>::empty());
    }
    let mut i: usize = 0;
    while i < frags.len()
        invariant
            0 <= i <= frags.len(),
            dv == frags.deep_view(),
            dv.len() == frags@.len(),
            forall|j: int| 0 <= j < dv.len() ==> dv[j] == frags@[j]@,
            strs_sorted(r.deep_view()),
            forall|t: Seq<char>|
                strs_contain(r.deep_view(), t) <==> exists|l: int|
                    0 <= l < i && dv[l].tags.contains(t),
        decreases frags.len() - i,
    {
        let tags = &frags[i].tags;
        let ghost ts = dv[i as int].tags;
        let mut j: usize = 0;
        proof {
            assert(tags.deep_view() == ts);
        }
        while j < tags.len()
            invariant
                0 <= j <= tags.len(),
                0 <= i < dv.len(),
                ts == tags.deep_view(),
                ts.len() == tags@.len(),
                forall|l: int| 0 <= l < ts.len() ==> ts[l] == tags@[l]@,
                strs_sorted(r.deep_view()),
                forall|t: Seq<char>|
                    strs_contain(r.deep_view(), t) <==> (exists|l: int|
                        0 <= l < i && dv[l].tags.contains(t)) || ts.take(j as int).contains(t),
            decreases tags.len() - j,
        {
            let ghost prev = r.deep_view();
            insert_sorted_dedup(&mut r, tags[j].as_str());
            proof {
                assert(ts.take(j + 1).drop_last() =~= ts.take(j as int));
                assert(ts.take(j + 1).last() == ts[j as int]);
                assert forall|t: Seq<char>|
                    strs_contain(r.deep_view(), t) <==> ((exists|l: int|
                        0 <= l < i && dv[l].tags.contains(t)) || ts.take(j + 1).contains(t)) by {
                    if strs_contain(r.deep_view(), t) && !strs_contain(prev, t) {
                        assert(t == ts[j as int]);
                        assert(ts.take(j + 1)[j as int] == t);
                    }
                    if ts.take(j + 1).contains(t) {
                        let l = choose|l: int| 0 <= l < j + 1 && #[trigger] ts.take(j + 1)[l] == t;
                        if l < j {
                            assert(ts.take(j as int)[l] == t);
                        } else {
                            assert(t == ts[j as int]);
                        }
                    }
                    if ts.take(j as int).contains(t) {
                        let l = choose|l: int| 0 <= l < j && #[trigger] ts.take(j as int)[l] == t;
                        assert(ts.take(j + 1)[l] == t);
                    }
                }
            }
            j = j + 1;
        }
        proof {
            assert(ts.take(ts.len() as int) =~= ts);
            assert forall|t: Seq<char>|
                strs_contain(r.deep_view(), t) <==> exists|l: int|
                    0 <= l < i + 1 && dv[l].tags.contains(t) by {
                if strs_contain(r.deep_view(), t) {
                    if exists|l: int| 0 <= l < i && dv[l].tags.contains(t) {
                        let l = choose|l: int| 0 <= l < i && dv[l].tags.contains(t);
                        assert(0 <= l < i + 1 && dv[l].tags.contains(t));
                    } else {
                        assert(dv[i as int].tags.contains(t));
                    }
                }
                if exists|l: int| 0 <= l < i + 1 && dv[l].tags.contains(t) {
                    let l = choose|l: int| 0 <= l < i + 1 && dv[l].tags.contains(t);
                    if l < i {
                        assert(exists|l2: int| 0 <= l2 < i && dv[l2].tags.contains(t));
                    } else {
                        assert(ts.contains(t));
                    }
                }
            }
        }
        i = i + 1;
    }
    r
}

/// The sorted, deduplicated list of every group on any fragment.
fn build_groups(frags: &Vec<Fragment>) -> (r: Vec<String>)
    ensures
        strs_sorted(r.deep_view()),
        forall|g: Seq<char>|
            strs_contain(r.deep_view(), g) <==> exists|l: int|
                0 <= l < frags.deep_view().len() && frags.deep_view()[l].group == Some(g),
{
    let ghost dv = frags.deep_view();
    let mut r: Vec<String> = Vec::new();
    proof {
        assert(r.deep_view() =~= Seq::<Seq<char>>::empty());
    }
    let mut i: usize = 0;
    while i < frags.len()
        invariant
            0 <= i <= frags.len(),
            dv == frags.deep_view(),
            dv.len() == frags@.len(),
            forall|j: int| 0 <= j < dv.len() ==> dv[j] == frags@[j]@,
            strs_sorted(r.deep_view()),
            forall|g: Seq<char>|
                strs_contain(r.deep_view(), g) <==> exists|l: int|
                    0 <= l < i && dv[l].group == Some(g),
        decreases frags.len() - i,
    {
        let ghost prev = r.deep_view();
        match &frags[i].group {
            Some(g) => {
                insert_sorted_dedup(&mut r, g.as_str());
                proof {
                    assert(dv[i as int].group == Some(g@));
                    assert forall|t: Seq<char>|
                        strs_contain(r.deep_view(), t) <==> exists|l: int|
                            0 <= l < i + 1 && dv[l].group == Some(t) by {
                        if strs_contain(r.deep_view(), t) && !strs_contain(prev, t) {
                            assert(dv[i as int].group == Some(t));
                        }
                        if exists|l: int| 0 <= l < i + 1 && dv[l].group == Some(t) {
                            let l = choose|l: int| 0 <= l < i + 1 && dv[l].group == Some(t);
                            if l < i {
                                assert(strs_contain(prev, t));
                            }
                        }
                    }
                }
            }
            None => {
                proof {
                    assert(dv[i as int].group is None);
                    assert forall|t: Seq<char>|
                        strs_contain(r.deep_view(), t) <==> exists|l: int|
                            0 <= l < i + 1 && dv[l].group == Some(t) by {
                        if exists|l: int| 0 <= l < i + 1 && dv[l].group == Some(t) {
                            let l = choose|l: int| 0 <= l < i + 1 && dv[l].group == Some(t);
                            assert(l < i);
                        }
                    }
                }
            }
        }
        i = i + 1;
    }
    r
}

/// The rank doubles as the index of a category's slot in per-category
/// tables.
pub fn cat_rank_exec(c: Category) -> (r: usize)
    ensures
        r as int == cat_rank(c),
{
    match c {
        Category::Constraint => 0,
        Category::Context => 1,
        Category::Persona => 2,
        Category::Skill => 3,
        Category::Tone => 4,
    }
}

// ---------------------------------------------------------------------------
// Listing order
// ---------------------------------------------------------------------------

/// The listing order: by the category's directory-name rank, then by
/// fragment name.
pub open spec fn frag_lt(a: FragmentV, b: FragmentV) -> bool {
    cat_rank(a.category) < cat_rank(b.category) || (a.category == b.category && str_lt(
        a.name,
        b.name,
    ))
}

proof fn lemma_cat_rank_injective()
    ensures
        forall|a: Category, b: Category| cat_rank(a) == cat_rank(b) ==> a == b,
{
}

pub proof fn lemma_frag_lt_connected(a: FragmentV, b: FragmentV)
    requires
        frag_key(a) != frag_key(b),
    ensures
        frag_lt(a, b) || frag_lt(b, a),
{
    lemma_cat_rank_injective();
    if a.category == b.category {
        crate::strutil::lemma_str_lt_connected(a.name, b.name);
    }
}

pub proof fn lemma_frag_lt_transitive(a: FragmentV, b: FragmentV, c: FragmentV)
    requires
        frag_lt(a, b),
        frag_lt(b, c),
    ensures
        frag_lt(a, c),
{
    if a.category == b.category && b.category == c.category {
        crate::strutil::lemma_str_lt_transitive(a.name, b.name, c.name);
    }
}

fn frag_lt_exec(a: &Fragment, b: &Fragment) -> (r: bool)
    ensures
        r == frag_lt(a@, b@),
{
    let ra = cat_rank_exec(a.category);
    let rb = cat_rank_exec(b.category);
    if ra < rb {
        true
    } else if rb < ra {
        false
    } else {
        proof {
            lemma_cat_rank_injective();
        }
        str_lt_exec(a.name.as_str(), b.name.as_str())
    }
}

/// Inserts a fragment reference at its sorted position; the new key must
/// differ from every present key.
fn insert_frag_sorted<'a>(result: &mut Vec<&'a Fragment>, x: &'a Fragment)
    requires
        forall|p: int, q: int|
            0 <= p < q < old(result).deep_view().len() ==> frag_lt(
                old(result).deep_view()[p],
                old(result).deep_view()[q],
            ),
        forall|p: int|
            0 <= p < old(result).deep_view().len() ==> frag_key(old(result).deep_view()[p])
                != frag_key(x@),
    ensures
        final(result).deep_view().len() == old(result).deep_view().len() + 1,
        forall|p: int, q: int|
            0 <= p < q < final(result).deep_view().len() ==> frag_lt(
                final(result).deep_view()[p],
                final(result).deep_view()[q],
            ),
        forall|f: FragmentV| #![auto]
            final(result).deep_view().contains(f) <==> (old(result).deep_view().contains(f) || f
                == x@),
{
    let ghost dv = result.deep_view();
    let mut pos: usize = 0;
    while pos < result.len() && frag_lt_exec(result[pos], x)
        invariant
            0 <= pos <= result.len(),
            dv == old(result).deep_view(),
            dv == result.deep_view(),
            dv.len() == result@.len(),
            forall|j: int| 0 <= j < dv.len() ==> dv[j] == result@[j]@,
            forall|p: int, q: int| 0 <= p < q < dv.len() ==> frag_lt(dv[p], dv[q]),
            forall|p: int| 0 <= p < dv.len() ==> frag_key(dv[p]) != frag_key(x@),
            forall|j: int| 0 <= j < pos ==> frag_lt(dv[j], x@),
        decreases result.len() - pos,
    {
        pos = pos + 1;
    }
    proof {
        if pos < dv.len() {
            lemma_frag_lt_connected(x@, dv[pos as int]);
            assert(frag_lt(x@, dv[pos as int]));
        }
    }
    let ghost pre = result@;
    result.insert(pos, x);
    proof {
        let ndv = result.deep_view();
        assert forall|j: int| 0 <= j < ndv.len() implies ndv[j] == dv.insert(pos as int, x@)[j] by {
            pre.insert_ensures(pos as int, result@[pos as int]);
            dv.insert_ensures(pos as int, x@);
            if j < pos {
                assert(result@[j] == pre[j]);
            } else if j > pos {
                assert(result@[j] == pre[j - 1]);
            }
        }
        assert(ndv =~= dv.insert(pos as int, x@));
        dv.insert_ensures(pos as int, x@);
        assert forall|p: int, q: int| 0 <= p < q < ndv.len() implies frag_lt(ndv[p], ndv[q]) by {
            if q < pos {
            } else if p < pos && q == pos {
            } else if p < pos && q > pos {
                if pos < dv.len() {
                }
                assert(ndv[q] == dv[q - 1]);
                if q - 1 == pos {
                    assert(frag_lt(x@, dv[pos as int]));
                    lemma_frag_lt_transitive(ndv[p], x@, ndv[q]);
                } else {
                    lemma_frag_lt_transitive(ndv[p], dv[pos as int], dv[q - 1]);
                    lemma_frag_lt_transitive(ndv[p], x@, dv[pos as int]);
                }
            } else if p == pos {
                assert(ndv[q] == dv[q - 1]);
                if q - 1 > pos {
                    lemma_frag_lt_transitive(x@, dv[pos as int], dv[q - 1]);
                }
            } else {
            }
        }
        assert forall|f: FragmentV| #![auto]
            ndv.contains(f) <==> (dv.contains(f) || f == x@) by {
            if ndv.contains(f) {
                let i = choose|i: int| 0 <= i < ndv.len() && ndv[i] == f;
                if i < pos {
                    assert(dv[i] == f);
                } else if i > pos {
                    assert(dv[i - 1] == f);
                }
            }
            if dv.contains(f) {
                let i = choose|i: int| 0 <= i < dv.len() && dv[i] == f;
                if i < pos {
                    assert(ndv[i] == f);
                } else {
                    assert(ndv[i + 1] == f);
                }
            }
            if f == x@ {
                assert(ndv[pos as int] == f);
            }
        }
    }
}

// ---------------------------------------------------------------------------
// The registry snapshot
// ---------------------------------------------------------------------------

/// The view of an optional string filter.
pub open spec fn opt_str_view(o: Option<&str>) -> Option<Seq<char>> {
    match o {
        Some(s) => Some(s@),
        None => None,
    }
}

/// The listing filter: optional exact category, exact tag membership,
/// and exact group equality.
pub open spec fn list_sel(
    f: FragmentV,
    category: Option<Category>,
    tag: Option<Seq<char>>,
    group: Option<Seq<char>>,
) -> bool {
    &&& match category {
        Some(c) => f.category == c,
        None => true,
    }
    &&& match tag {
        Some(t) => f.tags.contains(t),
        None => true,
    }
    &&& match group {
        Some(g) => f.group == Some(g),
        None => true,
    }
}

/// Decides whether a string list contains the given string.
pub fn str_vec_contains(v: &Vec<String>, t: &str) -> (r: bool)
    ensures
        r == v.deep_view().contains(t@),
{
    let ghost dv = v.deep_view();
    let mut i: usize = 0;
    while i < v.len()
        invariant
            0 <= i <= v.len(),
            dv == v.deep_view(),
            dv.len() == v@.len(),
            forall|j: int| 0 <= j < dv.len() ==> dv[j] == v@[j]@,
            forall|j: int| 0 <= j < i ==> dv[j] != t@,
        decreases v.len() - i,
    {
        if str_eq_exec(v[i].as_str(), t) {
            proof {
                assert(dv[i as int] == t@);
            }
            return true;
        }
        i = i + 1;
    }
    proof {
        if dv.contains(t@) {
            let j = choose|j: int| 0 <= j < dv.len() && dv[j] == t@;
            assert(false);
        }
    }
    false
}

fn matches_filters(
    f: &Fragment,
    category: Option<Category>,
    tag: Option<&str>,
    group: Option<&str>,
) -> (r: bool)
    ensures
        r == list_sel(f@, category, opt_str_view(tag), opt_str_view(group)),
{
    let cat_ok = match category {
        Some(c) => f.category == c,
        None => true,
    };
    let tag_ok = match tag {
        Some(t) => str_vec_contains(&f.tags, t),
        None => true,
    };
    let group_ok = match (&f.group, group) {
        (Some(g2), Some(g)) => str_eq_exec(g2.as_str(), g),
        (None, Some(_)) => false,
        (_, None) => true,
    };
    cat_ok && tag_ok && group_ok
}

/// Some fragment in the map carries the tag `t`.
pub open spec fn map_has_tag(m: Map<(Category, Seq<char>), FragmentV>, t: Seq<char>) -> bool {
    exists|k: (Category, Seq<char>)| #[trigger] m.contains_key(k) && m[k].tags.contains(t)
}

/// Some fragment in the map belongs to the group `g`.
pub open spec fn map_has_group(m: Map<(Category, Seq<char>), FragmentV>, g: Seq<char>) -> bool {
    exists|k: (Category, Seq<char>)| #[trigger] m.contains_key(k) && m[k].group == Some(g)
}

proof fn lemma_seq_map_tag(dv: Seq<FragmentV>, t: Seq<char>)
    requires
        unique_keys(dv),
    ensures
        (exists|l: int| 0 <= l < dv.len() && #[trigger] dv[l].tags.contains(t)) <==> map_has_tag(
            frags_map(dv),
            t,
        ),
{
    let m = frags_map(dv);
    if exists|l: int| 0 <= l < dv.len() && #[trigger] dv[l].tags.contains(t) {
        let l = choose|l: int| 0 <= l < dv.len() && #[trigger] dv[l].tags.contains(t);
        lemma_frags_map_index(dv, l);
        assert(m.contains_key(frag_key(dv[l])) && m[frag_key(dv[l])].tags.contains(t));
    }
    if map_has_tag(m, t) {
        let k = choose|k: (Category, Seq<char>)| #[trigger] m.contains_key(k) && m[k].tags.contains(
            t,
        );
        lemma_frags_map_contains(dv, k);
        let l = choose|l: int| 0 <= l < dv.len() && frag_key(dv[l]) == k;
        lemma_frags_map_index(dv, l);
        assert(dv[l].tags.contains(t));
    }
}

proof fn lemma_seq_map_group(dv: Seq<FragmentV>, g: Seq<char>)
    requires
        unique_keys(dv),
    ensures
        (exists|l: int| 0 <= l < dv.len() && #[trigger] dv[l].group == Some(g)) <==> map_has_group(
            frags_map(dv),
            g,
        ),
{
    let m = frags_map(dv);
    if exists|l: int| 0 <= l < dv.len() && #[trigger] dv[l].group == Some(g) {
        let l = choose|l: int| 0 <= l < dv.len() && #[trigger] dv[l].group == Some(g);
        lemma_frags_map_index(dv, l);
        assert(m.contains_key(frag_key(dv[l])) && m[frag_key(dv[l])].group == Some(g));
    }
    if map_has_group(m, g) {
        let k = choose|k: (Category, Seq<char>)| #[trigger] m.contains_key(k) && m[k].group
            == Some(g);
        lemma_frags_map_contains(dv, k);
        let l = choose|l: int| 0 <= l < dv.len() && frag_key(dv[l]) == k;
        lemma_frags_map_index(dv, l);
        assert(dv[l].group == Some(g));
    }
}

/// An immutable-after-construction snapshot of the merged fragment
/// collection, with its derived indices.
pub struct Registry {
    frags: Vec<Fragment>,
    cached_tags: Vec<String>,
    cached_groups: Vec<String>,
    cached_names: Vec<Vec<String>>,
}

impl View for Registry {
    type V = Map<(Category, Seq<char>), FragmentV>;

    closed spec fn view(&self) -> Map<(Category, Seq<char>), FragmentV> {
        frags_map(self.frags.deep_view())
    }
}

impl Registry {
    /// The snapshot invariant: fragments carry pairwise distinct
    /// (category, name) keys and the cached indices are the sorted,
    /// deduplicated projections of the fragment collection.
    #[verifier::type_invariant]
    spec fn wf(self) -> bool {
        let dv = self.frags.deep_view();
        let m = frags_map(dv);
        &&& unique_keys(dv)
        &&& self.cached_names@.len() == 5
        &&& forall|c: Category| #![auto] strs_sorted(self.cached_names@[cat_rank(c)].deep_view())
        &&& forall|c: Category, n: Seq<char>| #![auto]
            strs_contain(self.cached_names@[cat_rank(c)].deep_view(), n) <==> m.contains_key(
                (c, n),
            )
        &&& strs_sorted(self.cached_tags.deep_view())
        &&& forall|t: Seq<char>| #![auto]
            strs_contain(self.cached_tags.deep_view(), t) <==> map_has_tag(m, t)
        &&& strs_sorted(self.cached_groups.deep_view())
        &&& forall|g: Seq<char>| #![auto]
            strs_contain(self.cached_groups.deep_view(), g) <==> map_has_group(m, g)
    }

    /// Builds a snapshot from the three origins' documents, lowest
    /// priority first.
    pub fn from_docs(builtin: Vec<RawDoc>, global: Vec<RawDoc>, project: Vec<RawDoc>) -> (r:
        Registry)
        ensures
            r@ == registry_map(builtin.deep_view(), global.deep_view(), project.deep_view()),
    {
        let mut frags: Vec<Fragment> = Vec::new();
        proof {
            assert(frags.deep_view() =~= Seq::<FragmentV>::empty());
            assert(frags_map(frags.deep_view()) =~= Map::<
                (Category, Seq<char>),
                FragmentV,
            >::empty());
        }
        load_layer(&mut frags, &builtin, crate::fragment::Source::BuiltIn, true);
        load_layer(&mut frags, &global, crate::fragment::Source::Global, false);
        load_layer(&mut frags, &project, crate::fragment::Source::Project, false);
        let ghost dv = frags.deep_view();
        let ghost m = frags_map(dv);
        let cached_tags = build_tags(&frags);
        let cached_groups = build_groups(&frags);
        let names_constraint = names_of_category(&frags, Category::Constraint);
        let names_context = names_of_category(&frags, Category::Context);
        let names_persona = names_of_category(&frags, Category::Persona);
        let names_skill = names_of_category(&frags, Category::Skill);
        let names_tone = names_of_category(&frags, Category::Tone);
        let mut cached_names: Vec<Vec<String>> = Vec::new();
        cached_names.push(names_constraint);
        cached_names.push(names_context);
        cached_names.push(names_persona);
        cached_names.push(names_skill);
        cached_names.push(names_tone);
        proof {
            assert(cached_names@.len() == 5);
            assert forall|t: Seq<char>|
                strs_contain(cached_tags.deep_view(), t) <==> map_has_tag(m, t) by {
                lemma_seq_map_tag(dv, t);
            }
            assert forall|g: Seq<char>|
                strs_contain(cached_groups.deep_view(), g) <==> map_has_group(m, g) by {
                lemma_seq_map_group(dv, g);
            }
            assert forall|c: Category, n: Seq<char>|
                strs_contain(cached_names@[cat_rank(c)].deep_view(), n) <==> m.contains_key(
                    (c, n),
                ) by {
                lemma_frags_map_contains(dv, (c, n));
            }
            assert(forall|c: Category| #![auto]
                strs_sorted(cached_names@[cat_rank(c)].deep_view()));
        }
        Registry { frags, cached_tags, cached_groups, cached_names }
    }

    /// Exact lookup by category and name.
    pub fn get<'a>(&'a self, category: Category, name: &str) -> (r: Option<&'a Fragment>)
        ensures
            match r {
                Some(f) => self@.contains_key((category, name@)) && f@ == self@[(
                    category,
                    name@,
                )],
                None => !self@.contains_key((category, name@)),
            },
    {
        proof {
            use_type_invariant(self);
        }
        let ghost dv = self.frags.deep_view();
        let mut i: usize = 0;
        while i < self.frags.len()
            invariant
                0 <= i <= self.frags.len(),
                dv == self.frags.deep_view(),
                dv.len() == self.frags@.len(),
                unique_keys(dv),
                forall|j: int| 0 <= j < dv.len() ==> dv[j] == self.frags@[j]@,
                forall|j: int| 0 <= j < i ==> frag_key(dv[j]) != (category, name@),
            decreases self.frags.len() - i,
        {
            let same_cat = self.frags[i].category == category;
            let same_name = str_eq_exec(self.frags[i].name.as_str(), name);
            if same_cat && same_name {
                proof {
                    assert(frag_key(dv[i as int]) == (category, name@));
                    lemma_frags_map_index(dv, i as int);
                }
                return Some(&self.frags[i]);
            }
            i = i + 1;
        }
        proof {
            lemma_frags_map_contains(dv, (category, name@));
        }
        None
    }

    /// `f` is one of the first `i` fragments.
    spec fn from_prefix(dv: Seq<FragmentV>, i: int, f: FragmentV) -> bool {
        exists|l: int| 0 <= l < i && dv[l] == f
    }

    /// Filtered listing: the fragments passing the optional category,
    /// tag-membership and group-equality filters, sorted by (category
    /// directory rank, name) and therefore free of duplicates.
    pub fn list<'a>(
        &'a self,
        category: Option<Category>,
        tag: Option<&str>,
        group: Option<&str>,
    ) -> (r: Vec<&'a Fragment>)
        ensures
            forall|i: int, j: int|
                0 <= i < j < r.deep_view().len() ==> frag_lt(r.deep_view()[i], r.deep_view()[j]),
            forall|i: int| #![auto]
                0 <= i < r.deep_view().len() ==> self@.contains_key(frag_key(r.deep_view()[i]))
                    && self@[frag_key(r.deep_view()[i])] == r.deep_view()[i] && list_sel(
                    r.deep_view()[i],
                    category,
                    opt_str_view(tag),
                    opt_str_view(group),
                ),
            forall|k: (Category, Seq<char>)| #![auto]
                self@.contains_key(k) && list_sel(
                    self@[k],
                    category,
                    opt_str_view(tag),
                    opt_str_view(group),
                ) ==> r.deep_view().contains(self@[k]),
    {
        proof {
            use_type_invariant(self);
        }
        let ghost dv = self.frags.deep_view();
        let ghost m = frags_map(dv);
        let mut result: Vec<&'a Fragment> = Vec::new();
        proof {
            assert(result.deep_view() =~= Seq::<FragmentV>::empty());
        }
        let mut i: usize = 0;
        while i < self.frags.len()
            invariant
                0 <= i <= self.frags.len(),
                dv == self.frags.deep_view(),
                dv.len() == self.frags@.len(),
                unique_keys(dv),
                forall|j: int| 0 <= j < dv.len() ==> dv[j] == self.frags@[j]@,
                forall|p: int, q: int|
                    0 <= p < q < result.deep_view().len() ==> frag_lt(
                        result.deep_view()[p],
                        result.deep_view()[q],
                    ),
                forall|p: int|
                    0 <= p < result.deep_view().len() ==> Self::from_prefix(
                        dv,
                        i as int,
                        #[trigger] result.deep_view()[p],
                    ),
                forall|p: int|
                    0 <= p < result.deep_view().len() ==> list_sel(
                        #[trigger] result.deep_view()[p],
                        category,
                        opt_str_view(tag),
                        opt_str_view(group),
                    ),
                forall|l: int| #![auto]
                    0 <= l < i && list_sel(dv[l], category, opt_str_view(tag), opt_str_view(group))
                        ==> result.deep_view().contains(dv[l]),
            decreases self.frags.len() - i,
        {
            let ghost prev = result.deep_view();
            if matches_filters(&self.frags[i], category, tag, group) {
                proof {
                    assert forall|p: int|
                        0 <= p < prev.len() implies frag_key(prev[p]) != frag_key(
                        dv[i as int],
                    ) by {
                        let l = choose|l: int| 0 <= l < i && dv[l] == prev[p];
                        assert(frag_key(dv[l]) != frag_key(dv[i as int]));
                    }
                }
                insert_frag_sorted(&mut result, &self.frags[i]);
                proof {
                    let ndv = result.deep_view();
                    assert forall|p: int|
                        0 <= p < ndv.len() implies Self::from_prefix(
                        dv,
                        i + 1,
                        #[trigger] ndv[p],
                    ) && list_sel(ndv[p], category, opt_str_view(tag), opt_str_view(group)) by {
                        assert(ndv.contains(ndv[p]));
                        if prev.contains(ndv[p]) {
                            let q = choose|q: int| 0 <= q < prev.len() && #[trigger] prev[q] == ndv[p];
                            assert(Self::from_prefix(dv, i as int, prev[q]));
                            let l = choose|l: int| 0 <= l < i && #[trigger] dv[l] == prev[q];
                            assert(0 <= l < i + 1 && dv[l] == ndv[p]);
                        } else {
                            assert(ndv[p] == dv[i as int]);
                            assert(0 <= i < i + 1 && dv[i as int] == ndv[p]);
                        }
                        assert(list_sel(ndv[p], category, opt_str_view(tag), opt_str_view(group)));
                    }
                    assert forall|l: int| #![auto]
                        0 <= l < i + 1 && list_sel(
                        dv[l],
                        category,
                        opt_str_view(tag),
                        opt_str_view(group),
                    ) implies ndv.contains(dv[l]) by {
                        if l < i {
                            assert(prev.contains(dv[l]));
                        } else {
                            assert(dv[l] == dv[i as int]);
                        }
                    }
                }
            } else {
                proof {
                    assert forall|l: int| #![auto]
                        0 <= l < i + 1 && list_sel(
                        dv[l],
                        category,
                        opt_str_view(tag),
                        opt_str_view(group),
                    ) implies result.deep_view().contains(dv[l]) by {
                        assert(l != i);
                    }
                    assert forall|p: int|
                        0 <= p < result.deep_view().len() implies Self::from_prefix(
                        dv,
                        i + 1,
                        #[trigger] result.deep_view()[p],
                    ) by {
                        assert(Self::from_prefix(dv, i as int, result.deep_view()[p]));
                        let l = choose|l: int|
                            0 <= l < i && #[trigger] dv[l] == result.deep_view()[p];
                        assert(0 <= l < i + 1 && dv[l] == result.deep_view()[p]);
                    }
                }
            }
            i = i + 1;
        }
        proof {
            let rdv = result.deep_view();
            assert forall|p: int| #![auto]
                0 <= p < rdv.len() implies self@.contains_key(frag_key(rdv[p])) && self@[frag_key(
                rdv[p],
            )] == rdv[p] by {
                assert(Self::from_prefix(dv, dv.len() as int, rdv[p]));
                let l = choose|l: int| 0 <= l < dv.len() && #[trigger] dv[l] == rdv[p];
                lemma_frags_map_index(dv, l);
            }
            assert forall|k: (Category, Seq<char>)| #![auto]
                self@.contains_key(k) && list_sel(
                self@[k],
                category,
                opt_str_view(tag),
                opt_str_view(group),
            ) implies rdv.contains(self@[k]) by {
                lemma_frags_map_contains(dv, k);
                let l = choose|l: int| 0 <= l < dv.len() && frag_key(dv[l]) == k;
                lemma_frags_map_index(dv, l);
                assert(list_sel(dv[l], category, opt_str_view(tag), opt_str_view(group)));
            }
        }
        result
    }

    /// The cached, sorted, deduplicated list of all tags.
    pub fn all_tags(&self) -> (r: &Vec<String>)
        ensures
            strs_sorted(r.deep_view()),
            forall|t: Seq<char>| #![auto] strs_contain(r.deep_view(), t) <==> map_has_tag(self@, t),
    {
        proof {
            use_type_invariant(self);
        }
        &self.cached_tags
    }

    /// The cached, sorted, deduplicated list of all groups.
    pub fn all_groups(&self) -> (r: &Vec<String>)
        ensures
            strs_sorted(r.deep_view()),
            forall|g: Seq<char>| #![auto]
                strs_contain(r.deep_view(), g) <==> map_has_group(self@, g),
    {
        proof {
            use_type_invariant(self);
        }
        &self.cached_groups
    }

    /// Builds a snapshot from the shipped built-in fragments plus the
    /// given global and project documents.
    pub fn new(global_docs: Vec<RawDoc>, project_docs: Vec<RawDoc>) -> (r: Registry)
        ensures
            exists|b: Seq<RawDocV>|
                r@ == registry_map(b, global_docs.deep_view(), project_docs.deep_view()),
    {
        let builtin = crate::builtin::builtin_docs();
        let ghost b = builtin.deep_view();
        let r = Registry::from_docs(builtin, global_docs, project_docs);
        proof {
            assert(r@ == registry_map(b, global_docs.deep_view(), project_docs.deep_view()));
        }
        r
    }

    /// Every map entry's fragment carries the category and name it is
    /// keyed by.
    pub proof fn lemma_key_fields(&self)
        ensures
            forall|k: (Category, Seq<char>)| #![auto]
                self@.contains_key(k) ==> self@[k].category == k.0 && self@[k].name == k.1,
    {
        lemma_frags_map_key_fields(self.frags.deep_view());
    }

    /// The cached, sorted list of names in one category.
    pub fn names_for_category(&self, category: Category) -> (r: &Vec<String>)
        ensures
            strs_sorted(r.deep_view()),
            forall|n: Seq<char>| #![auto]
                strs_contain(r.deep_view(), n) <==> self@.contains_key((category, n)),
    {
        proof {
            use_type_invariant(self);
        }
        let idx = cat_rank_exec(category);
        &self.cached_names[idx]
    }
}

} // verus!
