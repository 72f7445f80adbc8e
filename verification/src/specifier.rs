//! Version specifiers and package requests. A specifier is a range, a
//! `prefix:rest` alias, a direct tarball URL, or a named tag; a request
//! (`PackageSpecifier`) pairs a package name with a specifier and an
//! optional marker, and has the textual form `name!specifier` with a
//! trailing `?` when optional. Parsing and printing are inverse, which
//! is what keeps lockfile keys stable.

use vstd::prelude::*;
use vstd::string::*;
use crate::semver::{
    is_range, is_url, range_ok, range_sat, range_satisfies, range_text_guarded, range_text_panics,
    url_ok,
};
use crate::strutil::{ends_with_char, find_char, rfind_char, starts_with_str, str_eq};
use crate::version::{Version, VersionV};

verus! {

/// An aliasing specifier `prefix:rest`.
#[derive(Debug)]
pub struct VersionSpecifierPrefixed {
    pub prefix: String,
    pub rest: String,
}

/// A version specifier as it appears in a manifest or lockfile.
#[derive(Debug)]
pub enum VersionSpecifier {
    /// A semver range expression, kept as its source text.
    Range(String),
    /// An alias such as `npm:real-name@^1.0.0`.
    Prefixed(VersionSpecifierPrefixed),
    /// An absolute URL of a tarball.
    DirectUrl(String),
    /// A named tag, resolved through a registry's tag table.
    Other(String),
}

/// Mathematical image of a specifier.
pub enum SpecifierV {
    Range(Seq<char>),
    Prefixed(Seq<char>, Seq<char>),
    DirectUrl(Seq<char>),
    Other(Seq<char>),
}

impl View for VersionSpecifier {
    type V = SpecifierV;

    open spec fn view(&self) -> SpecifierV {
        match self {
            VersionSpecifier::Range(t) => SpecifierV::Range(t@),
            VersionSpecifier::Prefixed(p) => SpecifierV::Prefixed(p.prefix@, p.rest@),
            VersionSpecifier::DirectUrl(t) => SpecifierV::DirectUrl(t@),
            VersionSpecifier::Other(t) => SpecifierV::Other(t@),
        }
    }
}

/// A package request: the key of the dependency graph and the lockfile.
#[derive(Debug)]
pub struct PackageSpecifier {
    pub name: String,
    pub version: VersionSpecifier,
    pub optional: bool,
}

/// Mathematical image of a request.
pub struct ReqV {
    pub name: Seq<char>,
    pub spec: SpecifierV,
    pub optional: bool,
}

impl View for PackageSpecifier {
    type V = ReqV;

    open spec fn view(&self) -> ReqV {
        ReqV { name: self.name@, spec: self.version@, optional: self.optional }
    }
}

/// Index of the first occurrence of `c` in `s`, or `-1`.
pub open spec fn first_index_of_char(s: Seq<char>, c: char) -> int
    decreases s.len(),
{
    if s.len() == 0 {
        -1
    } else if s[0] == c {
        0
    } else {
        let r = first_index_of_char(s.skip(1), c);
        if r == -1 {
            -1
        } else {
            r + 1
        }
    }
}

/// Index of the last occurrence of `c` in `s`, or `-1`.
pub open spec fn last_index_of_char(s: Seq<char>, c: char) -> int
    decreases s.len(),
{
    if s.len() == 0 {
        -1
    } else if s[s.len() - 1] == c {
        s.len() - 1
    } else {
        last_index_of_char(s.take(s.len() - 1), c)
    }
}

pub proof fn lemma_first_index_char(s: Seq<char>, c: char)
    ensures
        ({
            let r = first_index_of_char(s, c);
            (r == -1 && (forall|j: int| 0 <= j < s.len() ==> s[j] != c)) || (0 <= r < s.len()
                && s[r] == c && (forall|j: int| 0 <= j < r ==> s[j] != c))
        }),
    decreases s.len(),
{
    if s.len() > 0 && s[0] != c {
        lemma_first_index_char(s.skip(1), c);
        let r2 = first_index_of_char(s.skip(1), c);
        if r2 == -1 {
            assert forall|j: int| 0 <= j < s.len() implies s[j] != c by {
                if j >= 1 {
                    assert(s.skip(1)[j - 1] == s[j]);
                }
            }
        } else {
            assert(s.skip(1)[r2] == s[r2 + 1]);
            assert forall|j: int| 0 <= j < r2 + 1 implies s[j] != c by {
                if j >= 1 {
                    assert(s.skip(1)[j - 1] == s[j]);
                }
            }
        }
    }
}

pub proof fn lemma_first_index_unique(s: Seq<char>, c: char, i: int)
    requires
        0 <= i < s.len(),
        s[i] == c,
        forall|j: int| 0 <= j < i ==> s[j] != c,
    ensures
        first_index_of_char(s, c) == i,
{
    lemma_first_index_char(s, c);
}

pub proof fn lemma_first_index_none(s: Seq<char>, c: char)
    requires
        forall|j: int| 0 <= j < s.len() ==> s[j] != c,
    ensures
        first_index_of_char(s, c) == -1,
{
    lemma_first_index_char(s, c);
}

pub proof fn lemma_last_index_char(s: Seq<char>, c: char)
    ensures
        ({
            let r = last_index_of_char(s, c);
            (r == -1 && (forall|j: int| 0 <= j < s.len() ==> s[j] != c)) || (0 <= r < s.len()
                && s[r] == c && (forall|j: int| r < j < s.len() ==> s[j] != c))
        }),
    decreases s.len(),
{
    if s.len() > 0 && s[s.len() - 1] != c {
        let t = s.take(s.len() - 1);
        lemma_last_index_char(t, c);
        let r2 = last_index_of_char(t, c);
        if r2 == -1 {
            assert forall|j: int| 0 <= j < s.len() implies s[j] != c by {
                if j < s.len() - 1 {
                    assert(t[j] == s[j]);
                }
            }
        } else {
            assert(t[r2] == s[r2]);
            assert forall|j: int| r2 < j < s.len() implies s[j] != c by {
                if j < s.len() - 1 {
                    assert(t[j] == s[j]);
                }
            }
        }
    }
}

pub proof fn lemma_last_index_unique(s: Seq<char>, c: char, i: int)
    requires
        0 <= i < s.len(),
        s[i] == c,
        forall|j: int| i < j < s.len() ==> s[j] != c,
    ensures
        last_index_of_char(s, c) == i,
{
    lemma_last_index_char(s, c);
}

pub proof fn lemma_last_index_none(s: Seq<char>, c: char)
    requires
        forall|j: int| 0 <= j < s.len() ==> s[j] != c,
    ensures
        last_index_of_char(s, c) == -1,
{
    lemma_last_index_char(s, c);
}

/// Whether a text begins with `http`, which bars it from being read as
/// an alias prefix.
pub open spec fn spec_starts_http(p: Seq<char>) -> bool {
    p.len() >= 4 && p.subrange(0, 4) == "http"@
}

/// How a bare specifier text is read: a valid range wins, then an
/// alias with a non-`http` prefix, then an absolute URL, then a tag.
/// Text the range engine would abort on is never read as a range.
pub open spec fn spec_parse_specifier(t: Seq<char>) -> SpecifierV {
    if !range_text_panics(t) && range_ok(t) {
        SpecifierV::Range(t)
    } else {
        let i = first_index_of_char(t, ':');
        if i >= 0 && !spec_starts_http(t.take(i)) {
            SpecifierV::Prefixed(t.take(i), t.skip(i + 1))
        } else if url_ok(t) {
            SpecifierV::DirectUrl(t)
        } else {
            SpecifierV::Other(t)
        }
    }
}

/// The text a specifier prints as.
pub open spec fn specifier_text(s: SpecifierV) -> Seq<char> {
    match s {
        SpecifierV::Range(t) => t,
        SpecifierV::Prefixed(p, r) => p + seq![':'] + r,
        SpecifierV::DirectUrl(t) => t,
        SpecifierV::Other(t) => t,
    }
}

/// Printing inverts parsing on every input text.
pub proof fn lemma_specifier_print_parse(t: Seq<char>)
    ensures
        specifier_text(spec_parse_specifier(t)) == t,
{
    if !(!range_text_panics(t) && range_ok(t)) {
        let i = first_index_of_char(t, ':');
        lemma_first_index_char(t, ':');
        if i >= 0 && !spec_starts_http(t.take(i)) {
            assert(t.take(i) + seq![':'] + t.skip(i + 1) =~= t);
        }
    }
}

/// A specifier is canonical when re-parsing its text yields it back;
/// every parsed specifier is canonical.
pub open spec fn wf_specifier(s: SpecifierV) -> bool {
    spec_parse_specifier(specifier_text(s)) == s
}

/// The range an alias `npm:inner@range` delegates to, if well formed.
pub open spec fn alias_inner_range(rest: Seq<char>) -> Option<Seq<char>> {
    let i = last_index_of_char(rest, '@');
    if i >= 0 {
        Some(rest.skip(i + 1))
    } else {
        None
    }
}

/// The parts of an alias rest `inner-name@inner-range`, split at the
/// last `@`.
pub open spec fn alias_parts(rest: Seq<char>) -> Option<(Seq<char>, Seq<char>)> {
    let i = last_index_of_char(rest, '@');
    if i >= 0 {
        Some((rest.take(i), rest.skip(i + 1)))
    } else {
        None
    }
}

/// Splits an alias rest at its last `@`.
pub fn split_alias(rest: &str) -> (r: Option<(String, String)>)
    ensures
        match r {
            Some(p) => alias_parts(rest@) == Some((p.0@, p.1@)),
            None => alias_parts(rest@) is None,
        },
{
    match rfind_char(rest, '@') {
        Some(i) => {
            proof {
                lemma_last_index_unique(rest@, '@', i as int);
            }
            let len = rest.unicode_len();
            let name = rest.substring_char(0, i);
            let rng = rest.substring_char(i + 1, len);
            proof {
                assert(name@ =~= rest@.take(i as int));
                assert(rng@ =~= rest@.skip(i as int + 1));
            }
            Some((name.to_owned(), rng.to_owned()))
        },
        None => {
            proof {
                lemma_last_index_none(rest@, '@');
            }
            None
        },
    }
}

/// What it means for a pinned version to satisfy a specifier: a range
/// consults the semver engine; a tag or direct URL is satisfied by the
/// version that resolution pinned for it; an alias delegates to its
/// inner range.
pub open spec fn spec_satisfies(s: SpecifierV, v: VersionV) -> bool {
    match s {
        SpecifierV::Range(t) => !range_text_panics(t) && range_sat(t, v),
        SpecifierV::Prefixed(p, rest) => p == "npm"@ && match alias_inner_range(rest) {
            Some(inner) => !range_text_panics(inner) && range_sat(inner, v),
            None => false,
        },
        SpecifierV::DirectUrl(_) => true,
        SpecifierV::Other(_) => true,
    }
}

impl VersionSpecifier {
    /// Decides `spec_satisfies` for a concrete version.
    pub fn satisfies(&self, v: &Version) -> (r: bool)
        ensures
            r == spec_satisfies(self@, v@),
    {
        match self {
            VersionSpecifier::Range(t) => {
                if range_text_guarded(t.as_str()) {
                    false
                } else {
                    range_satisfies(t.as_str(), v)
                }
            },
            VersionSpecifier::Prefixed(p) => {
                if !str_eq(p.prefix.as_str(), "npm") {
                    return false;
                }
                let rest = p.rest.as_str();
                match rfind_char(rest, '@') {
                    Some(i) => {
                        proof {
                            lemma_last_index_unique(rest@, '@', i as int);
                        }
                        let rlen = rest.unicode_len();
                        let inner = rest.substring_char(i + 1, rlen);
                        proof {
                            assert(inner@ =~= rest@.skip(i + 1));
                        }
                        if range_text_guarded(inner) {
                            false
                        } else {
                            range_satisfies(inner, v)
                        }
                    },
                    None => {
                        proof {
                            lemma_last_index_none(rest@, '@');
                        }
                        false
                    },
                }
            },
            VersionSpecifier::DirectUrl(_) => true,
            VersionSpecifier::Other(_) => true,
        }
    }

    /// Reads a bare specifier text.
    pub fn parse(s: &str) -> (r: VersionSpecifier)
        ensures
            r@ == spec_parse_specifier(s@),
    {
        if !range_text_guarded(s) && is_range(s) {
            return VersionSpecifier::Range(s.to_owned());
        }
        match find_char(s, ':') {
            Some(i) => {
                proof {
                    lemma_first_index_unique(s@, ':', i as int);
                }
                let prefix = s.substring_char(0, i);
                proof {
                    assert(prefix@ =~= s@.take(i as int));
                    reveal_strlit("http");
                }
                if !starts_with_str(prefix, "http") {
                    let slen = s.unicode_len();
                    let rest = s.substring_char(i + 1, slen);
                    proof {
                        assert(rest@ =~= s@.skip(i as int + 1));
                    }
                    return VersionSpecifier::Prefixed(
                        VersionSpecifierPrefixed {
                            prefix: prefix.to_owned(),
                            rest: rest.to_owned(),
                        },
                    );
                }
            },
            None => {
                proof {
                    lemma_first_index_none(s@, ':');
                }
            },
        }
        if is_url(s) {
            VersionSpecifier::DirectUrl(s.to_owned())
        } else {
            VersionSpecifier::Other(s.to_owned())
        }
    }

    /// Prints the specifier's text.
    pub fn to_text(&self) -> (r: String)
        ensures
            r@ == specifier_text(self@),
    {
        match self {
            VersionSpecifier::Range(t) => t.clone(),
            VersionSpecifier::Prefixed(p) => {
                let mut r = p.prefix.clone();
                r.append(":");
                r.append(p.rest.as_str());
                proof {
                    reveal_strlit(":");
                    assert(r@ =~= specifier_text(self@));
                }
                r
            },
            VersionSpecifier::DirectUrl(t) => t.clone(),
            VersionSpecifier::Other(t) => t.clone(),
        }
    }

    /// Equality of specifiers.
    pub fn eq_spec(&self, other: &VersionSpecifier) -> (r: bool)
        ensures
            r == (self@ == other@),
    {
        match (self, other) {
            (VersionSpecifier::Range(a), VersionSpecifier::Range(b)) => str_eq(
                a.as_str(),
                b.as_str(),
            ),
            (VersionSpecifier::Prefixed(a), VersionSpecifier::Prefixed(b)) => str_eq(
                a.prefix.as_str(),
                b.prefix.as_str(),
            ) && str_eq(a.rest.as_str(), b.rest.as_str()),
            (VersionSpecifier::DirectUrl(a), VersionSpecifier::DirectUrl(b)) => str_eq(
                a.as_str(),
                b.as_str(),
            ),
            (VersionSpecifier::Other(a), VersionSpecifier::Other(b)) => str_eq(
                a.as_str(),
                b.as_str(),
            ),
            _ => false,
        }
    }
}

impl Clone for VersionSpecifier {
    fn clone(&self) -> (r: Self)
        ensures
            r@ == self@,
    {
        match self {
            VersionSpecifier::Range(t) => VersionSpecifier::Range(t.clone()),
            VersionSpecifier::Prefixed(p) => VersionSpecifier::Prefixed(
                VersionSpecifierPrefixed { prefix: p.prefix.clone(), rest: p.rest.clone() },
            ),
            VersionSpecifier::DirectUrl(t) => VersionSpecifier::DirectUrl(t.clone()),
            VersionSpecifier::Other(t) => VersionSpecifier::Other(t.clone()),
        }
    }
}

impl Clone for PackageSpecifier {
    fn clone(&self) -> (r: Self)
        ensures
            r@ == self@,
    {
        PackageSpecifier {
            name: self.name.clone(),
            version: self.version.clone(),
            optional: self.optional,
        }
    }
}

/// `s` with every trailing `?` removed.
pub open spec fn trim_q(s: Seq<char>) -> Seq<char>
    decreases s.len(),
{
    if s.len() > 0 && s[s.len() - 1] == '?' {
        trim_q(s.take(s.len() - 1))
    } else {
        s
    }
}

proof fn lemma_trim_q(s: Seq<char>, end: int)
    requires
        0 <= end <= s.len(),
        forall|j: int| end <= j < s.len() ==> s[j] == '?',
        end > 0 ==> s[end - 1] != '?',
    ensures
        trim_q(s) == s.take(end),
    decreases s.len(),
{
    if s.len() > end {
        lemma_trim_q(s.take(s.len() - 1), end);
        assert(s.take(s.len() - 1).take(end) =~= s.take(end));
    } else {
        assert(s.take(end) =~= s);
    }
}

/// How a request text `name!specifier[?]` is read: split at the first
/// `!`, read a trailing `?` as the optional marker, and parse what is
/// between as a specifier.
pub open spec fn spec_parse_req(t: Seq<char>) -> Option<ReqV> {
    let i = first_index_of_char(t, '!');
    if i < 0 {
        None
    } else {
        let rest = t.skip(i + 1);
        Some(
            ReqV {
                name: t.take(i),
                spec: spec_parse_specifier(trim_q(rest)),
                optional: rest.len() > 0 && rest[rest.len() - 1] == '?',
            },
        )
    }
}

/// The text a request prints as.
pub open spec fn req_text(r: ReqV) -> Seq<char> {
    r.name + seq!['!'] + specifier_text(r.spec) + (if r.optional {
        seq!['?']
    } else {
        Seq::<char>::empty()
    })
}

/// A request round-trips through its text when its name holds no `!`
/// and its specifier is canonical and does not end in `?`.
pub open spec fn wf_req(r: ReqV) -> bool {
    &&& forall|j: int| 0 <= j < r.name.len() ==> r.name[j] != '!'
    &&& wf_specifier(r.spec)
    &&& ({
        let st = specifier_text(r.spec);
        st.len() == 0 || st[st.len() - 1] != '?'
    })
}

/// Parsing inverts printing on well-formed requests: the law behind
/// stable lockfile keys.
pub proof fn lemma_req_text_roundtrip(r: ReqV)
    requires
        wf_req(r),
    ensures
        spec_parse_req(req_text(r)) == Some(r),
{
    let st = specifier_text(r.spec);
    let t = req_text(r);
    assert(t[r.name.len() as int] == '!');
    lemma_first_index_unique(t, '!', r.name.len() as int);
    assert(t.take(r.name.len() as int) =~= r.name);
    let rest = t.skip(r.name.len() as int + 1);
    if r.optional {
        assert(rest =~= st + seq!['?']);
        lemma_trim_q(rest, st.len() as int);
        assert(rest.take(st.len() as int) =~= st);
        assert(rest[rest.len() - 1] == '?');
    } else {
        assert(rest =~= st);
        lemma_trim_q(rest, rest.len() as int);
        assert(rest.take(rest.len() as int) =~= rest);
        if rest.len() > 0 {
            assert(rest[rest.len() - 1] != '?');
        }
    }
}

impl PackageSpecifier {
    /// Reads a request from its `name!specifier[?]` text.
    pub fn parse(s: &str) -> (r: Option<PackageSpecifier>)
        ensures
            match r {
                Some(ps) => spec_parse_req(s@) == Some(ps@),
                None => spec_parse_req(s@) is None,
            },
    {
        match find_char(s, '!') {
            None => {
                proof {
                    lemma_first_index_none(s@, '!');
                }
                None
            },
            Some(i) => {
                proof {
                    lemma_first_index_unique(s@, '!', i as int);
                }
                let len = s.unicode_len();
                let name = s.substring_char(0, i);
                let rest = s.substring_char(i + 1, len);
                proof {
                    assert(name@ =~= s@.take(i as int));
                    assert(rest@ =~= s@.skip(i as int + 1));
                }
                let optional = ends_with_char(rest, '?');
                let mut end = rest.unicode_len();
                loop
                    invariant
                        end <= rest@.len(),
                        forall|j: int| end <= j < rest@.len() ==> rest@[j] == '?',
                    ensures
                        end <= rest@.len(),
                        forall|j: int| end <= j < rest@.len() ==> rest@[j] == '?',
                        end > 0 ==> rest@[end - 1] != '?',
                    decreases end,
                {
                    if end == 0 {
                        break;
                    }
                    if rest.get_char(end - 1) != '?' {
                        break;
                    }
                    end = end - 1;
                }
                let trimmed = rest.substring_char(0, end);
                proof {
                    lemma_trim_q(rest@, end as int);
                    assert(trimmed@ =~= rest@.take(end as int));
                }
                Some(
                    PackageSpecifier {
                        name: name.to_owned(),
                        version: VersionSpecifier::parse(trimmed),
                        optional,
                    },
                )
            },
        }
    }

    /// Prints the request's `name!specifier[?]` text.
    pub fn to_text(&self) -> (r: String)
        ensures
            r@ == req_text(self@),
    {
        let mut r = self.name.clone();
        r.append("!");
        let st = self.version.to_text();
        r.append(st.as_str());
        if self.optional {
            r.append("?");
        }
        proof {
            reveal_strlit("!");
            reveal_strlit("?");
            assert(r@ =~= req_text(self@));
        }
        r
    }

    /// The lexicographic order of two requests' texts: the order the
    /// persisted lockfile sorts its keys by. With
    /// `lemma_chars_lt_total`, `lemma_chars_lt_trans` and
    /// `lemma_chars_lt_asym` this is a total order on the texts.
    pub fn lt_req_text(&self, other: &PackageSpecifier) -> (r: bool)
        ensures
            r == crate::version::chars_lt(req_text(self@), req_text(other@)),
    {
        let a = self.to_text();
        let b = other.to_text();
        crate::version::str_lt(a.as_str(), b.as_str())
    }

    /// Equality of requests.
    pub fn eq_req(&self, other: &PackageSpecifier) -> (r: bool)
        ensures
            r == (self@ == other@),
    {
        str_eq(self.name.as_str(), other.name.as_str()) && self.version.eq_spec(&other.version)
            && self.optional == other.optional
    }
}

} // verus!
