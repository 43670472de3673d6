//! Version comparison and the version text read from a manifest: pure
//! parsing of `version = "x.y.z"` lines and semantic-version ordering,
//! plus a small time-stamped cache for a fetched version record.

use vstd::prelude::*;

use crate::strutil::{
    find_char, find_sub, idx_of, is_prefix, lemma_idx_of, lemma_idx_of_is, match_at,
    starts_with_exec, trim_char_exec, trim_char_spec, trim_exec, trim_spec,
};

verus! {

use vstd::string::StringExecFns;
use vstd::string::StrSliceExecFns;

// ---------------------------------------------------------------------------
// Decimal numbers
// ---------------------------------------------------------------------------

pub open spec fn is_digit(c: char) -> bool {
    '0' <= c && c <= '9'
}

pub open spec fn digit_val(c: char) -> int {
    (c as u32) - ('0' as u32)
}

/// The value of a digit string, most significant first.
pub open spec fn dec_val(s: Seq<char>) -> int
    decreases s.len(),
{
    if s.len() == 0 {
        0
    } else {
        dec_val(s.drop_last()) * 10 + digit_val(s.last())
    }
}

proof fn lemma_dec_val_nonneg(s: Seq<char>)
    requires
        forall|j: int| 0 <= j < s.len() ==> is_digit(#[trigger] s[j]),
    ensures
        dec_val(s) >= 0,
    decreases s.len(),
{
    if s.len() > 0 {
        assert(forall|j: int| 0 <= j < s.drop_last().len() ==> is_digit(
            #[trigger] s.drop_last()[j],
        ));
        lemma_dec_val_nonneg(s.drop_last());
        assert(is_digit(s.last()));
    }
}

proof fn lemma_dec_val_prefix(s: Seq<char>, i: int)
    requires
        0 <= i <= s.len(),
        forall|j: int| 0 <= j < s.len() ==> is_digit(#[trigger] s[j]),
    ensures
        dec_val(s.take(i)) <= dec_val(s),
    decreases s.len() - i,
{
    if i < s.len() {
        assert(s.take(i + 1).drop_last() =~= s.take(i as int));
        assert(dec_val(s.take(i + 1)) == dec_val(s.take(i as int)) * 10 + digit_val(
            s.take(i + 1).last(),
        ));
        assert(forall|j: int| 0 <= j < s.take(i).len() ==> is_digit(#[trigger] s.take(i)[j]));
        lemma_dec_val_nonneg(s.take(i));
        assert(is_digit(s.take(i + 1).last()));
        lemma_dec_val_prefix(s, i + 1);
    } else {
        assert(s.take(i) =~= s);
    }
}

/// The digit part: the text after an optional leading plus sign.
pub open spec fn digits_part(s: Seq<char>) -> Seq<char> {
    if s.len() > 0 && s[0] == '+' {
        s.skip(1)
    } else {
        s
    }
}

/// What `u64::from_str` accepts: an optional plus sign, then digits,
/// within range.
pub open spec fn parse_u64_spec(s: Seq<char>) -> Option<u64> {
    if digits_part(s).len() > 0 && (forall|i: int|
        0 <= i < digits_part(s).len() ==> is_digit(#[trigger] digits_part(s)[i])) && dec_val(
        digits_part(s),
    ) <= u64::MAX {
        Some(dec_val(digits_part(s)) as u64)
    } else {
        None
    }
}

/// Parses a decimal (optionally plus-signed) number.
pub fn parse_u64(s: &str) -> (r: Option<u64>)
    ensures
        r == parse_u64_spec(s@),
{
    let ls: usize = s.unicode_len();
    let start: usize = if ls > 0 && s.get_char(0) == '+' {
        1
    } else {
        0
    };
    let ghost d = digits_part(s@);
    proof {
        assert(d.len() == ls - start);
        assert(forall|j: int| 0 <= j < d.len() ==> d[j] == s@[j + start]);
    }
    if start >= ls {
        return None;
    }
    let mut value: u64 = 0;
    let mut i: usize = start;
    while i < ls
        invariant
            start <= i <= ls,
            ls == s@.len(),
            start <= 1,
            start == (if s@.len() > 0 && s@[0] == '+' { 1int } else { 0int }),
            d == digits_part(s@),
            d.len() == ls - start,
            forall|j: int| 0 <= j < d.len() ==> d[j] == s@[j + start],
            forall|j: int| start <= j < i ==> is_digit(#[trigger] s@[j]),
            value == dec_val(d.take(i - start)),
        decreases ls - i,
    {
        let c = s.get_char(i);
        if !(c >= '0' && c <= '9') {
            proof {
                assert(0 <= i - start < digits_part(s@).len());
                assert(!is_digit(digits_part(s@)[i - start]));
            }
            return None;
        }
        let dig: u64 = (c as u32 as u64) - ('0' as u32 as u64);
        proof {
            assert(dig == digit_val(c));
            assert(d.take(i - start + 1).drop_last() =~= d.take(i - start));
            assert(d.take(i - start + 1).last() == d[i - start]);
        }
        if value > (u64::MAX - dig) / 10 {
            proof {
                if forall|j: int|
                    0 <= j < digits_part(s@).len() ==> is_digit(#[trigger] digits_part(s@)[j]) {
                    assert(forall|j: int| 0 <= j < d.len() ==> is_digit(#[trigger] d[j]));
                    assert(dec_val(d.take(i - start + 1)) == value * 10 + dig);
                    let q = (u64::MAX - dig) / 10;
                    assert((u64::MAX - dig) >= 10 * q && (u64::MAX - dig) < 10 * q + 10) by (nonlinear_arith)
                        requires
                            q == (u64::MAX - dig) / 10,
                            dig <= 9,
                    ;
                    assert(value * 10 + dig > u64::MAX) by (nonlinear_arith)
                        requires
                            value >= q + 1,
                            u64::MAX - dig < 10 * q + 10,
                            dig <= 9,
                    ;
                    lemma_dec_val_prefix(d, i - start + 1);
                    assert(dec_val(digits_part(s@)) > u64::MAX);
                }
            }
            return None;
        }
        value = value * 10 + dig;
        i = i + 1;
    }
    proof {
        assert(d.take(d.len() as int) =~= d);
        assert(forall|j: int|
            0 <= j < digits_part(s@).len() ==> is_digit(#[trigger] digits_part(s@)[j])) by {
            assert(forall|j: int| 0 <= j < d.len() ==> is_digit(#[trigger] d[j]));
        }
        assert(digits_part(s@).len() > 0);
    }
    Some(value)
}

// ---------------------------------------------------------------------------
// Semantic-version ordering
// ---------------------------------------------------------------------------

/// Splits at the two dots of an `a.b.c` string; nothing when the shape
/// differs.
pub open spec fn split3(s: Seq<char>) -> Option<(Seq<char>, Seq<char>, Seq<char>)> {
    let p1 = idx_of(s, '.') as int;
    if p1 == s.len() {
        None
    } else {
        let rest = s.skip(p1 + 1);
        let p2 = idx_of(rest, '.') as int;
        if p2 == rest.len() {
            None
        } else {
            let tail = rest.skip(p2 + 1);
            if idx_of(tail, '.') == tail.len() {
                Some((s.take(p1), rest.take(p2), tail))
            } else {
                None
            }
        }
    }
}

/// The numeric triple of an `a.b.c` version string.
pub open spec fn triple_of(s: Seq<char>) -> Option<(u64, u64, u64)> {
    match split3(s) {
        None => None,
        Some(p) => match (parse_u64_spec(p.0), parse_u64_spec(p.1), parse_u64_spec(p.2)) {
            (Some(a), Some(b), Some(c)) => Some((a, b, c)),
            _ => None,
        },
    }
}

/// `latest` is strictly newer than `current`; false when either does
/// not parse as a numeric triple.
pub open spec fn is_newer_spec(latest: Seq<char>, current: Seq<char>) -> bool {
    match (triple_of(latest), triple_of(current)) {
        (Some(l), Some(c)) => l.0 > c.0 || (l.0 == c.0 && (l.1 > c.1 || (l.1 == c.1 && l.2
            > c.2))),
        _ => false,
    }
}

/// Splits a version string at its two dots.
fn split3_exec<'a>(s: &'a str) -> (r: Option<(&'a str, &'a str, &'a str)>)
    ensures
        match r {
            Some(p) => split3(s@) == Some((p.0@, p.1@, p.2@)),
            None => split3(s@) is None,
        },
{
    let ls: usize = s.unicode_len();
    let p1 = find_char(s, '.');
    proof {
        crate::strutil::lemma_idx_of(s@, '.');
    }
    if p1 == ls {
        return None;
    }
    let a = s.substring_char(0, p1);
    let rest = s.substring_char(p1 + 1, ls);
    proof {
        assert(rest@ =~= s@.skip(p1 + 1));
    }
    let lr: usize = ls - p1 - 1;
    let p2 = find_char(rest, '.');
    proof {
        crate::strutil::lemma_idx_of(rest@, '.');
    }
    if p2 == lr {
        return None;
    }
    let b = rest.substring_char(0, p2);
    let tail = rest.substring_char(p2 + 1, lr);
    proof {
        assert(tail@ =~= rest@.skip(p2 + 1));
    }
    let lt: usize = lr - p2 - 1;
    let p3 = find_char(tail, '.');
    if p3 != lt {
        return None;
    }
    Some((a, b, tail))
}

/// Decides whether `latest` is strictly newer than `current` as a
/// numeric `a.b.c` version.
pub fn is_newer(latest: &str, current: &str) -> (r: bool)
    ensures
        r == is_newer_spec(latest@, current@),
{
    let lt = match split3_exec(latest) {
        Some(p) => p,
        None => {
            return false;
        }
    };
    let ct = match split3_exec(current) {
        Some(p) => p,
        None => {
            return false;
        }
    };
    let (l0, l1, l2) = match (parse_u64(lt.0), parse_u64(lt.1), parse_u64(lt.2)) {
        (Some(a), Some(b), Some(c)) => (a, b, c),
        _ => {
            return false;
        }
    };
    let (c0, c1, c2) = match (parse_u64(ct.0), parse_u64(ct.1), parse_u64(ct.2)) {
        (Some(a), Some(b), Some(c)) => (a, b, c),
        _ => {
            return false;
        }
    };
    l0 > c0 || (l0 == c0 && (l1 > c1 || (l1 == c1 && l2 > c2)))
}

// ---------------------------------------------------------------------------
// Reading the version from manifest text
// ---------------------------------------------------------------------------

/// One trailing carriage return stripped (line endings may be `\r\n`).
pub open spec fn strip_cr(line: Seq<char>) -> Seq<char> {
    if line.len() > 0 && line[line.len() - 1] == '\r' {
        line.drop_last()
    } else {
        line
    }
}

/// The text split into lines, at `\n`, with `\r\n` endings handled.
pub open spec fn lines_of(s: Seq<char>) -> Seq<Seq<char>>
    decreases s.len(),
    via lines_of_decreases
{
    if s.len() == 0 {
        Seq::empty()
    } else {
        let n = idx_of(s, '\n') as int;
        if n == s.len() {
            seq![s]
        } else {
            seq![strip_cr(s.take(n))] + lines_of(s.skip(n + 1))
        }
    }
}

#[via_fn]
proof fn lines_of_decreases(s: Seq<char>) {
    lemma_idx_of(s, '\n');
}

/// What one line contributes: the version value after the first `=`,
/// for a line whose trimmed text starts with `version` and has an `=`.
pub open spec fn line_version(line: Seq<char>) -> Option<Seq<char>> {
    let t = trim_spec(line);
    if is_prefix("version"@, t) && idx_of(t, '=') < t.len() {
        Some(trim_char_spec(trim_spec(t.skip(idx_of(t, '=') as int + 1)), '"'))
    } else {
        None
    }
}

/// How many times `c` occurs in `s`.
pub open spec fn count_char(s: Seq<char>, c: char) -> nat
    decreases s.len(),
{
    if s.len() == 0 {
        0
    } else {
        count_char(s.drop_last(), c) + (if s.last() == c {
            1nat
        } else {
            0nat
        })
    }
}

/// The outcome over a line list: the first version-bearing line decides.
pub open spec fn scan_lines(ls: Seq<Seq<char>>) -> Result<Seq<char>, Seq<char>>
    decreases ls.len(),
{
    if ls.len() == 0 {
        Err("version field not found in Cargo.toml"@)
    } else {
        match line_version(ls[0]) {
            Some(v) => if count_char(v, '.') == 2 {
                Ok(v)
            } else {
                Err("malformed version string: "@ + v)
            },
            None => scan_lines(ls.skip(1)),
        }
    }
}

/// The version read from manifest text.
pub open spec fn parse_version_spec(s: Seq<char>) -> Result<Seq<char>, Seq<char>> {
    scan_lines(lines_of(s))
}

/// Counts the occurrences of `c`.
fn count_char_exec(s: &str, c: char) -> (r: usize)
    ensures
        r == count_char(s@, c),
{
    let ls: usize = s.unicode_len();
    let mut r: usize = 0;
    let mut i: usize = 0;
    while i < ls
        invariant
            0 <= i <= ls,
            ls == s@.len(),
            r <= i,
            r == count_char(s@.take(i as int), c),
        decreases ls - i,
    {
        proof {
            assert(s@.take(i + 1).drop_last() =~= s@.take(i as int));
            assert(s@.take(i + 1).last() == s@[i as int]);
        }
        if s.get_char(i) == c {
            r = r + 1;
        }
        i = i + 1;
    }
    proof {
        assert(s@.take(ls as int) =~= s@);
    }
    r
}

/// What one line contributes, decided executably.
fn line_version_exec<'a>(line: &'a str) -> (r: Option<&'a str>)
    ensures
        match r {
            Some(v) => line_version(line@) == Some(v@),
            None => line_version(line@) is None,
        },
{
    let t = trim_exec(line);
    if !starts_with_exec(t, "version") {
        return None;
    }
    let lt: usize = t.unicode_len();
    let e = find_char(t, '=');
    proof {
        crate::strutil::lemma_idx_of(t@, '=');
    }
    if e == lt {
        return None;
    }
    let value = t.substring_char(e + 1, lt);
    proof {
        assert(value@ =~= t@.skip(e + 1));
    }
    let trimmed = trim_exec(value);
    Some(trim_char_exec(trimmed, '"'))
}

/// Reads the `version = "a.b.c"` value out of manifest text: the first
/// line carrying one decides, and a value without exactly two dots is
/// malformed.
pub fn parse_version_from_cargo_toml(content: &str) -> (r: Result<String, String>)
    ensures
        match r {
            Ok(v) => parse_version_spec(content@) == Ok::<Seq<char>, Seq<char>>(v@),
            Err(m) => parse_version_spec(content@) == Err::<Seq<char>, Seq<char>>(m@),
        },
{
    let ls: usize = content.unicode_len();
    let mut p: usize = 0;
    proof {
        assert(content@.skip(0) =~= content@);
    }
    while p < ls
        invariant
            0 <= p <= ls,
            ls == content@.len(),
            parse_version_spec(content@) == scan_lines(lines_of(content@.skip(p as int))),
        decreases ls - p,
    {
        // the current line runs to the next newline or the end
        let nl = match find_sub(content, "\n", p) {
            Some(n) => n,
            None => ls,
        };
        let ghost rest = content@.skip(p as int);
        proof {
            reveal_strlit("\n");
            assert forall|j: int| 0 <= j < rest.len() implies rest[j] == content@[p + j] by {}
            if nl < ls {
                assert(match_at(content@, "\n"@, nl as int));
                assert(content@[nl as int] == '\n') by {
                    assert(content@.subrange(nl as int, nl + 1)[0] == '\n');
                }
                assert forall|j: int| 0 <= j < nl - p implies rest[j] != '\n' by {
                    assert(!match_at(content@, "\n"@, p + j));
                    if rest[j] == '\n' {
                        assert(content@[p + j] == '\n');
                        assert(content@.subrange(p + j, p + j + 1) =~= "\n"@);
                        assert(false);
                    }
                }
                lemma_idx_of_is(rest, '\n', nl - p);
            } else {
                assert forall|j: int| 0 <= j < rest.len() implies rest[j] != '\n' by {
                    assert(!match_at(content@, "\n"@, p + j));
                    if rest[j] == '\n' {
                        assert(content@[p + j] == '\n');
                        assert(content@.subrange(p + j, p + j + 1) =~= "\n"@);
                        assert(false);
                    }
                }
                lemma_idx_of_is(rest, '\n', rest.len() as int);
            }
        }
        let raw_line = content.substring_char(p, nl);
        let line: &str = if nl < ls && nl > p && content.get_char(nl - 1) == '\r' {
            content.substring_char(p, nl - 1)
        } else {
            raw_line
        };
        proof {
            let n = idx_of(rest, '\n') as int;
            if nl < ls {
                assert(n == nl - p);
                assert(rest.take(n) =~= content@.subrange(p as int, nl as int));
                assert(lines_of(rest) == seq![strip_cr(rest.take(n))] + lines_of(
                    rest.skip(n + 1),
                ));
                if nl > p && content@[nl - 1] == '\r' {
                    assert(line@ =~= content@.subrange(p as int, nl - 1));
                    assert(strip_cr(rest.take(n)) =~= line@);
                } else {
                    assert(strip_cr(rest.take(n)) =~= line@);
                }
            } else {
                assert(rest.len() > 0);
                assert(n == rest.len());
                assert(line@ =~= rest);
                assert(lines_of(rest) == seq![rest]);
            }
        }
        match line_version_exec(line) {
            Some(v) => {
                proof {
                    assert(lines_of(rest)[0] == line@);
                }
                if count_char_exec(v, '.') == 2 {
                    return Ok(String::from_str(v));
                }
                let mut m = String::from_str("malformed version string: ");
                m.append(v);
                return Err(m);
            }
            None => {
                proof {
                    assert(lines_of(rest)[0] == line@);
                    if nl < ls {
                        assert(lines_of(rest).skip(1) =~= lines_of(rest.skip(nl - p + 1)));
                        assert(rest.skip(nl - p + 1) =~= content@.skip(nl + 1));
                    } else {
                        assert(lines_of(rest).skip(1) =~= Seq::<Seq<char>>::empty());
                        assert(content@.skip(ls as int).len() == 0);
                    }
                }
            }
        }
        p = if nl < ls {
            nl + 1
        } else {
            ls
        };
    }
    proof {
        assert(content@.skip(ls as int).len() == 0);
    }
    Err(String::from_str("version field not found in Cargo.toml"))
}

// ---------------------------------------------------------------------------
// The version cache
// ---------------------------------------------------------------------------

/// What a version check found.
#[derive(Debug, Clone)]
pub struct VersionInfo {
    pub current: String,
    pub latest: Option<String>,
    pub update_available: bool,
}

/// Mathematical image of a version record.
pub struct VersionInfoV {
    pub current: Seq<char>,
    pub latest: Option<Seq<char>>,
    pub update_available: bool,
}

impl View for VersionInfo {
    type V = VersionInfoV;

    open spec fn view(&self) -> VersionInfoV {
        VersionInfoV {
            current: self.current@,
            latest: self.latest.deep_view(),
            update_available: self.update_available,
        }
    }
}

struct CachedVersion {
    info: VersionInfo,
    fetched_at: u64,
}

/// A time-stamped cache for the last version record, valid for a fixed
/// number of seconds.
pub struct VersionChecker {
    cache: Option<CachedVersion>,
    ttl: u64,
}

/// The cache entry's view: the record and the second it was stored.
pub closed spec fn checker_view(c: VersionChecker) -> Option<(VersionInfoV, u64)> {
    match c.cache {
        Some(e) => Some((e.info@, e.fetched_at)),
        None => None,
    }
}

impl VersionChecker {
    pub closed spec fn spec_ttl(&self) -> u64 {
        self.ttl
    }

    /// An empty cache with the default time-to-live of one hour.
    pub fn new() -> (r: VersionChecker)
        ensures
            checker_view(r) is None,
            r.spec_ttl() == 3600,
    {
        VersionChecker { cache: None, ttl: 3600 }
    }

    /// An empty cache with the given time-to-live in seconds.
    pub fn with_ttl(ttl: u64) -> (r: VersionChecker)
        ensures
            checker_view(r) is None,
            r.spec_ttl() == ttl,
    {
        VersionChecker { cache: None, ttl }
    }

    /// The cached record, when one was stored within the time-to-live
    /// before `now` (seconds).
    pub fn cached(&self, now: u64) -> (r: Option<VersionInfo>)
        ensures
            match (r, checker_view(*self)) {
                (Some(info), Some(e)) => info@ == e.0 && e.1 <= now < e.1 + self.spec_ttl(),
                (None, Some(e)) => !(e.1 <= now < e.1 + self.spec_ttl()),
                (None, None) => true,
                _ => false,
            },
    {
        match &self.cache {
            Some(e) => {
                if now >= e.fetched_at && now - e.fetched_at < self.ttl {
                    Some(
                        VersionInfo {
                            current: e.info.current.clone(),
                            latest: crate::strutil::clone_opt_string(&e.info.latest),
                            update_available: e.info.update_available,
                        },
                    )
                } else {
                    None
                }
            }
            None => None,
        }
    }

    /// Stores a fresh record at time `now` (seconds).
    pub fn record(&mut self, info: VersionInfo, now: u64)
        ensures
            checker_view(*final(self)) == Some((info@, now)),
            final(self).spec_ttl() == old(self).spec_ttl(),
    {
        self.cache = Some(CachedVersion { info, fetched_at: now });
    }
}

} // verus!
