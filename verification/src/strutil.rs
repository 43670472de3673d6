//! String helpers: lexicographic order, prefix and substring search,
//! whitespace trimming, and line handling, each with an exact
//! specification over the character view.

use vstd::prelude::*;

verus! {

use vstd::string::StrSliceExecFns;

/// Code-point order on characters.
pub open spec fn char_lt(a: char, b: char) -> bool {
    a < b
}

/// Lexicographic (code-point) order on character sequences.
pub open spec fn str_lt(a: Seq<char>, b: Seq<char>) -> bool
    decreases a.len(),
{
    if b.len() == 0 {
        false
    } else if a.len() == 0 {
        true
    } else if char_lt(a[0], b[0]) {
        true
    } else if char_lt(b[0], a[0]) {
        false
    } else {
        str_lt(a.skip(1), b.skip(1))
    }
}

/// Two sequences that neither precede the other are equal.
pub proof fn lemma_str_lt_connected(a: Seq<char>, b: Seq<char>)
    ensures
        !str_lt(a, b) && !str_lt(b, a) ==> a == b,
    decreases a.len(),
{
    if a.len() > 0 && b.len() > 0 && !char_lt(a[0], b[0]) && !char_lt(b[0], a[0]) {
        lemma_str_lt_connected(a.skip(1), b.skip(1));
        if !str_lt(a, b) && !str_lt(b, a) {
            assert(a[0] == b[0]);
            assert(a =~= seq![a[0]] + a.skip(1));
            assert(b =~= seq![b[0]] + b.skip(1));
        }
    }
}

pub proof fn lemma_str_lt_asymmetric(a: Seq<char>, b: Seq<char>)
    ensures
        str_lt(a, b) ==> !str_lt(b, a),
    decreases a.len(),
{
    if a.len() > 0 && b.len() > 0 && !char_lt(a[0], b[0]) && !char_lt(b[0], a[0]) {
        lemma_str_lt_asymmetric(a.skip(1), b.skip(1));
    }
}

pub proof fn lemma_str_lt_transitive(a: Seq<char>, b: Seq<char>, c: Seq<char>)
    ensures
        str_lt(a, b) && str_lt(b, c) ==> str_lt(a, c),
    decreases a.len(),
{
    if a.len() > 0 && b.len() > 0 && c.len() > 0 {
        lemma_str_lt_transitive(a.skip(1), b.skip(1), c.skip(1));
    }
}

/// While the first `i` characters agree, the order is decided by the rest.
proof fn lemma_str_lt_common_prefix(a: Seq<char>, b: Seq<char>, i: int)
    requires
        0 <= i <= a.len(),
        i <= b.len(),
        forall|j: int| 0 <= j < i ==> a[j] == b[j],
    ensures
        str_lt(a, b) == str_lt(a.skip(i), b.skip(i)),
    decreases i,
{
    if i > 0 {
        assert(a.len() > 0 && b.len() > 0);
        assert(a[0] == b[0]);
        assert(!char_lt(a[0], b[0]) && !char_lt(b[0], a[0]));
        assert(str_lt(a, b) == str_lt(a.skip(1), b.skip(1)));
        assert forall|j: int| 0 <= j < i - 1 implies a.skip(1)[j] == b.skip(1)[j] by {
            assert(a[j + 1] == b[j + 1]);
        }
        lemma_str_lt_common_prefix(a.skip(1), b.skip(1), i - 1);
        assert(a.skip(1).skip(i - 1) =~= a.skip(i));
        assert(b.skip(1).skip(i - 1) =~= b.skip(i));
    } else {
        assert(a.skip(0) =~= a);
        assert(b.skip(0) =~= b);
    }
}

/// A string precedes another when they agree up to `k` and differ there.
pub proof fn lemma_str_lt_from_diff(a: Seq<char>, b: Seq<char>, k: int)
    requires
        0 <= k < a.len(),
        k < b.len(),
        forall|j: int| 0 <= j < k ==> a[j] == b[j],
        char_lt(a[k], b[k]),
    ensures
        str_lt(a, b),
{
    lemma_str_lt_common_prefix(a, b, k);
    assert(a.skip(k)[0] == a[k]);
    assert(b.skip(k)[0] == b[k]);
}

/// Nothing precedes itself.
pub proof fn lemma_str_lt_irreflexive(a: Seq<char>)
    ensures
        !str_lt(a, a),
{
    lemma_str_lt_asymmetric(a, a);
}

/// Decides the lexicographic order of two strings.
pub fn str_lt_exec(a: &str, b: &str) -> (r: bool)
    ensures
        r == str_lt(a@, b@),
{
    let la: usize = a.unicode_len();
    let lb: usize = b.unicode_len();
    let mut i: usize = 0;
    loop
        invariant
            0 <= i <= la,
            i <= lb,
            la == a@.len(),
            lb == b@.len(),
            forall|j: int| 0 <= j < i ==> a@[j] == b@[j],
        decreases la - i,
    {
        proof {
            lemma_str_lt_common_prefix(a@, b@, i as int);
        }
        if i >= la || i >= lb {
            // one string is a prefix of the other
            proof {
                if la < lb {
                    assert(str_lt(a@.skip(i as int), b@.skip(i as int)));
                } else {
                    assert(!str_lt(a@.skip(i as int), b@.skip(i as int)));
                }
            }
            return la < lb;
        }
        let ca = a.get_char(i);
        let cb = b.get_char(i);
        if ca < cb {
            return true;
        }
        if cb < ca {
            return false;
        }
        i = i + 1;
    }
}

/// Decides equality of two strings.
pub fn str_eq_exec(a: &str, b: &str) -> (r: bool)
    ensures
        r == (a@ == b@),
{
    let la: usize = a.unicode_len();
    let lb: usize = b.unicode_len();
    if la != lb {
        return false;
    }
    let mut i: usize = 0;
    while i < la
        invariant
            0 <= i <= la,
            la == a@.len(),
            lb == b@.len(),
            la == lb,
            forall|j: int| 0 <= j < i ==> a@[j] == b@[j],
        decreases la - i,
    {
        let ca = a.get_char(i);
        let cb = b.get_char(i);
        if ca != cb {
            return false;
        }
        i = i + 1;
    }
    proof {
        assert(a@ =~= b@);
    }
    true
}

/// `p` is a prefix of `s`.
pub open spec fn is_prefix(p: Seq<char>, s: Seq<char>) -> bool {
    p.len() <= s.len() && s.subrange(0, p.len() as int) == p
}

pub fn starts_with_exec(s: &str, p: &str) -> (r: bool)
    ensures
        r == is_prefix(p@, s@),
{
    let lp: usize = p.unicode_len();
    let ls: usize = s.unicode_len();
    if lp > ls {
        return false;
    }
    let head = s.substring_char(0, lp);
    let r = str_eq_exec(head, p);
    proof {
        if r {
            assert(s@.subrange(0, p@.len() as int) =~= p@);
        }
    }
    r
}

/// The pattern `p` occurs in `s` at position `i`.
pub open spec fn match_at(s: Seq<char>, p: Seq<char>, i: int) -> bool {
    0 <= i && i + p.len() <= s.len() && s.subrange(i, i + p.len()) == p
}

/// Finds the first occurrence of `p` in `s` at or after `from`.
pub fn find_sub(s: &str, p: &str, from: usize) -> (r: Option<usize>)
    requires
        from <= s@.len(),
    ensures
        match r {
            Some(i) => from <= i && match_at(s@, p@, i as int) && forall|j: int|
                from <= j < i ==> !match_at(s@, p@, j),
            None => forall|j: int| from <= j ==> !match_at(s@, p@, j),
        },
{
    let ls: usize = s.unicode_len();
    let lp: usize = p.unicode_len();
    let mut i: usize = from;
    while i <= ls && lp <= ls - i
        invariant
            from <= i,
            i <= ls + 1,
            ls == s@.len(),
            lp == p@.len(),
            forall|j: int| from <= j < i ==> !match_at(s@, p@, j),
        decreases ls + 1 - i,
    {
        let window = s.substring_char(i, i + lp);
        if str_eq_exec(window, p) {
            return Some(i);
        }
        proof {
            // an empty pattern would have matched, so the pattern is non-empty
            if lp == 0 {
                assert(s@.subrange(i as int, i as int) =~= p@);
            }
        }
        i = i + 1;
    }
    proof {
        assert forall|j: int| from <= j implies !match_at(s@, p@, j) by {
            if j + p@.len() <= s@.len() {
                assert(j < i);
            }
        }
    }
    None
}

/// Some occurrence of `p` exists in `s`.
pub open spec fn has_sub(s: Seq<char>, p: Seq<char>) -> bool {
    exists|i: int| match_at(s, p, i)
}

/// Index of the first occurrence of `p` in `s` (meaningful when one exists).
pub open spec fn sub_idx(s: Seq<char>, p: Seq<char>) -> nat
    decreases s.len(),
{
    if match_at(s, p, 0) {
        0
    } else if s.len() == 0 {
        0
    } else {
        1 + sub_idx(s.skip(1), p)
    }
}

/// The first-occurrence characterization pins `sub_idx` down.
pub proof fn lemma_sub_idx_is(s: Seq<char>, p: Seq<char>, i: int)
    requires
        match_at(s, p, i),
        forall|j: int| 0 <= j < i ==> !match_at(s, p, j),
    ensures
        sub_idx(s, p) == i,
    decreases i,
{
    if i > 0 {
        assert(!match_at(s, p, 0));
        assert(s.len() > 0);
        assert(match_at(s.skip(1), p, i - 1)) by {
            assert(s.skip(1).subrange(i - 1, i - 1 + p.len() as int) =~= s.subrange(
                i,
                i + p.len() as int,
            ));
        }
        assert forall|j: int| 0 <= j < i - 1 implies !match_at(s.skip(1), p, j) by {
            if match_at(s.skip(1), p, j) {
                assert(s.subrange(j + 1, j + 1 + p.len() as int) =~= s.skip(1).subrange(
                    j,
                    j + p.len() as int,
                ));
                assert(match_at(s, p, j + 1));
            }
        }
        lemma_sub_idx_is(s.skip(1), p, i - 1);
    }
}

/// The whitespace characters (the Unicode `White_Space` set).
pub open spec fn is_wspace(c: char) -> bool {
    c == ' ' || c == '\t' || c == '\n' || c == '\r' || c == '\u{0b}' || c == '\u{0c}'
        || c == '\u{85}' || c == '\u{a0}' || c == '\u{1680}' || c == '\u{2000}' || c == '\u{2001}'
        || c == '\u{2002}' || c == '\u{2003}' || c == '\u{2004}' || c == '\u{2005}'
        || c == '\u{2006}' || c == '\u{2007}' || c == '\u{2008}' || c == '\u{2009}'
        || c == '\u{200a}' || c == '\u{2028}' || c == '\u{2029}' || c == '\u{202f}'
        || c == '\u{205f}' || c == '\u{3000}'
}

pub fn is_wspace_exec(c: char) -> (r: bool)
    ensures
        r == is_wspace(c),
{
    c == ' ' || c == '\t' || c == '\n' || c == '\r' || c == '\u{0b}' || c == '\u{0c}'
        || c == '\u{85}' || c == '\u{a0}' || c == '\u{1680}' || c == '\u{2000}' || c == '\u{2001}'
        || c == '\u{2002}' || c == '\u{2003}' || c == '\u{2004}' || c == '\u{2005}'
        || c == '\u{2006}' || c == '\u{2007}' || c == '\u{2008}' || c == '\u{2009}'
        || c == '\u{200a}' || c == '\u{2028}' || c == '\u{2029}' || c == '\u{202f}'
        || c == '\u{205f}' || c == '\u{3000}'
}

/// Length of the run of whitespace at the start of `s`.
pub open spec fn ws_prefix(s: Seq<char>) -> nat
    decreases s.len(),
{
    if s.len() > 0 && is_wspace(s[0]) {
        1 + ws_prefix(s.skip(1))
    } else {
        0
    }
}

/// The index characterization pins `ws_prefix` down.
pub proof fn lemma_ws_prefix_is(s: Seq<char>, i: int)
    requires
        0 <= i <= s.len(),
        forall|j: int| 0 <= j < i ==> is_wspace(s[j]),
        i < s.len() ==> !is_wspace(s[i]),
    ensures
        ws_prefix(s) == i,
    decreases i,
{
    if i > 0 {
        assert(forall|j: int| 0 <= j < i - 1 ==> is_wspace(s.skip(1)[j]));
        lemma_ws_prefix_is(s.skip(1), i - 1);
    } else {
        if s.len() > 0 {
            assert(!is_wspace(s[0]));
        }
    }
}

/// Length of the run of whitespace at the end of `s`.
pub open spec fn ws_suffix(s: Seq<char>) -> nat
    decreases s.len(),
{
    if s.len() > 0 && is_wspace(s[s.len() - 1]) {
        1 + ws_suffix(s.drop_last())
    } else {
        0
    }
}

pub proof fn lemma_ws_suffix_is(s: Seq<char>, k: int)
    requires
        0 <= k <= s.len(),
        forall|j: int| s.len() - k <= j < s.len() ==> is_wspace(s[j]),
        k < s.len() ==> !is_wspace(s[s.len() - k - 1]),
    ensures
        ws_suffix(s) == k,
    decreases k,
{
    if k > 0 {
        assert(is_wspace(s[s.len() - 1]));
        assert(forall|j: int| s.drop_last().len() - (k - 1) <= j < s.drop_last().len()
            ==> is_wspace(s.drop_last()[j]));
        lemma_ws_suffix_is(s.drop_last(), k - 1);
    } else {
        if s.len() > 0 {
            assert(!is_wspace(s[s.len() - 1]));
        }
    }
}

/// `s` without leading whitespace.
pub open spec fn trim_start_spec(s: Seq<char>) -> Seq<char> {
    s.skip(ws_prefix(s) as int)
}

/// `s` without leading or trailing whitespace.
pub open spec fn trim_spec(s: Seq<char>) -> Seq<char> {
    let t = trim_start_spec(s);
    t.take(t.len() - ws_suffix(t))
}

/// Index of the first character of the trimmed-from-the-start part.
pub fn trim_start_exec<'a>(s: &'a str) -> (r: &'a str)
    ensures
        r@ == trim_start_spec(s@),
{
    let ls: usize = s.unicode_len();
    let mut i: usize = 0;
    while i < ls && is_wspace_exec(s.get_char(i))
        invariant
            0 <= i <= ls,
            ls == s@.len(),
            forall|j: int| 0 <= j < i ==> is_wspace(s@[j]),
        decreases ls - i,
    {
        i = i + 1;
    }
    proof {
        lemma_ws_prefix_is(s@, i as int);
    }
    s.substring_char(i, ls)
}

pub fn trim_exec<'a>(s: &'a str) -> (r: &'a str)
    ensures
        r@ == trim_spec(s@),
{
    let t = trim_start_exec(s);
    let lt: usize = t.unicode_len();
    let mut k: usize = 0;
    while k < lt && is_wspace_exec(t.get_char(lt - 1 - k))
        invariant
            0 <= k <= lt,
            lt == t@.len(),
            forall|j: int| lt - k <= j < lt ==> is_wspace(t@[j]),
        decreases lt - k,
    {
        k = k + 1;
    }
    proof {
        lemma_ws_suffix_is(t@, k as int);
    }
    t.substring_char(0, lt - k)
}

/// Index of the first occurrence of `c` in `s` (the length if absent).
pub open spec fn idx_of(s: Seq<char>, c: char) -> nat
    decreases s.len(),
{
    if s.len() == 0 {
        0
    } else if s[0] == c {
        0
    } else {
        1 + idx_of(s.skip(1), c)
    }
}

pub proof fn lemma_idx_of(s: Seq<char>, c: char)
    ensures
        idx_of(s, c) <= s.len(),
        forall|j: int| 0 <= j < idx_of(s, c) ==> s[j] != c,
        idx_of(s, c) < s.len() ==> s[idx_of(s, c) as int] == c,
    decreases s.len(),
{
    if s.len() > 0 && s[0] != c {
        lemma_idx_of(s.skip(1), c);
        assert forall|j: int| 0 <= j < idx_of(s, c) implies s[j] != c by {
            if j >= 1 {
                assert(s.skip(1)[j - 1] != c);
            }
        }
    }
}

pub proof fn lemma_idx_of_is(s: Seq<char>, c: char, i: int)
    requires
        0 <= i <= s.len(),
        forall|j: int| 0 <= j < i ==> s[j] != c,
        i < s.len() ==> s[i] == c,
    ensures
        idx_of(s, c) == i,
    decreases i,
{
    if i > 0 {
        assert(forall|j: int| 0 <= j < i - 1 ==> s.skip(1)[j] != c);
        lemma_idx_of_is(s.skip(1), c, i - 1);
    }
}

/// Finds the first occurrence of the character `c` in `s`.
pub fn find_char(s: &str, c: char) -> (r: usize)
    ensures
        r == idx_of(s@, c),
{
    let ls: usize = s.unicode_len();
    let mut i: usize = 0;
    while i < ls && s.get_char(i) != c
        invariant
            0 <= i <= ls,
            ls == s@.len(),
            forall|j: int| 0 <= j < i ==> s@[j] != c,
        decreases ls - i,
    {
        i = i + 1;
    }
    proof {
        lemma_idx_of_is(s@, c, i as int);
    }
    i
}

/// The first line of `s`: everything before the first newline, with a
/// carriage return stripped when the newline was present.
pub open spec fn first_line_spec(s: Seq<char>) -> Seq<char> {
    let n = idx_of(s, '\n') as int;
    let line = s.subrange(0, n);
    if n < s.len() && line.len() > 0 && line[line.len() - 1] == '\r' {
        line.drop_last()
    } else {
        line
    }
}

pub fn first_line_exec<'a>(s: &'a str) -> (r: &'a str)
    ensures
        r@ == first_line_spec(s@),
{
    let ls: usize = s.unicode_len();
    let n = find_char(s, '\n');
    proof {
        lemma_idx_of(s@, '\n');
    }
    if n < ls && n > 0 && s.get_char(n - 1) == '\r' {
        let r = s.substring_char(0, n - 1);
        proof {
            let line = s@.subrange(0, n as int);
            assert(line[line.len() - 1] == '\r');
            assert(line.drop_last() =~= s@.subrange(0, n - 1));
        }
        r
    } else {
        let r = s.substring_char(0, n);
        proof {
            let line = s@.subrange(0, n as int);
            if n < ls && line.len() > 0 {
                assert(line[line.len() - 1] == s@[n - 1]);
            }
        }
        r
    }
}

/// Length of the run of `c` at the start of `s`.
pub open spec fn ch_prefix(s: Seq<char>, c: char) -> nat
    decreases s.len(),
{
    if s.len() > 0 && s[0] == c {
        1 + ch_prefix(s.skip(1), c)
    } else {
        0
    }
}

proof fn lemma_ch_prefix_is(s: Seq<char>, c: char, i: int)
    requires
        0 <= i <= s.len(),
        forall|j: int| 0 <= j < i ==> s[j] == c,
        i < s.len() ==> s[i] != c,
    ensures
        ch_prefix(s, c) == i,
    decreases i,
{
    if i > 0 {
        assert(forall|j: int| 0 <= j < i - 1 ==> s.skip(1)[j] == c);
        lemma_ch_prefix_is(s.skip(1), c, i - 1);
    } else {
        if s.len() > 0 {
            assert(s[0] != c);
        }
    }
}

/// Length of the run of `c` at the end of `s`.
pub open spec fn ch_suffix(s: Seq<char>, c: char) -> nat
    decreases s.len(),
{
    if s.len() > 0 && s[s.len() - 1] == c {
        1 + ch_suffix(s.drop_last(), c)
    } else {
        0
    }
}

proof fn lemma_ch_suffix_is(s: Seq<char>, c: char, k: int)
    requires
        0 <= k <= s.len(),
        forall|j: int| s.len() - k <= j < s.len() ==> s[j] == c,
        k < s.len() ==> s[s.len() - k - 1] != c,
    ensures
        ch_suffix(s, c) == k,
    decreases k,
{
    if k > 0 {
        assert(s[s.len() - 1] == c);
        assert(forall|j: int| s.drop_last().len() - (k - 1) <= j < s.drop_last().len()
            ==> s.drop_last()[j] == c);
        lemma_ch_suffix_is(s.drop_last(), c, k - 1);
    } else {
        if s.len() > 0 {
            assert(s[s.len() - 1] != c);
        }
    }
}

/// `s` with every leading and trailing `c` removed.
pub open spec fn trim_char_spec(s: Seq<char>, c: char) -> Seq<char> {
    let t = s.skip(ch_prefix(s, c) as int);
    t.take(t.len() - ch_suffix(t, c))
}

pub fn trim_char_exec<'a>(s: &'a str, c: char) -> (r: &'a str)
    ensures
        r@ == trim_char_spec(s@, c),
{
    let ls: usize = s.unicode_len();
    let mut i: usize = 0;
    while i < ls && s.get_char(i) == c
        invariant
            0 <= i <= ls,
            ls == s@.len(),
            forall|j: int| 0 <= j < i ==> s@[j] == c,
        decreases ls - i,
    {
        i = i + 1;
    }
    proof {
        lemma_ch_prefix_is(s@, c, i as int);
    }
    let t = s.substring_char(i, ls);
    let lt: usize = ls - i;
    let mut k: usize = 0;
    while k < lt && t.get_char(lt - 1 - k) == c
        invariant
            0 <= k <= lt,
            lt == t@.len(),
            forall|j: int| lt - k <= j < lt ==> t@[j] == c,
        decreases lt - k,
    {
        k = k + 1;
    }
    proof {
        lemma_ch_suffix_is(t@, c, k as int);
        assert(t@ =~= s@.skip(i as int));
    }
    t.substring_char(0, lt - k)
}

use vstd::string::StringExecFns;

/// Clones a string list, keeping its view.
pub fn clone_strings(v: &Vec<String>) -> (r: Vec<String>)
    ensures
        r.deep_view() == v.deep_view(),
{
    let mut r: Vec<String> = Vec::new();
    let mut i: usize = 0;
    while i < v.len()
        invariant
            0 <= i <= v.len(),
            r@.len() == i,
            forall|j: int| 0 <= j < i ==> r@[j]@ == v@[j]@,
        decreases v.len() - i,
    {
        r.push(v[i].clone());
        i = i + 1;
    }
    proof {
        assert(r.deep_view() =~= v.deep_view());
    }
    r
}

/// Clones an optional string, keeping its view.
pub fn clone_opt_string(v: &Option<String>) -> (r: Option<String>)
    ensures
        r.deep_view() == v.deep_view(),
{
    match v {
        Some(s) => Some(s.clone()),
        None => None,
    }
}

} // verus!
