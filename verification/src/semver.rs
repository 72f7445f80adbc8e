//! Trusted boundary to the `node-semver` range engine and the `url`
//! parser. Each wrapper's result is a function of its arguments alone,
//! so it is given a name that the rest of the library reasons with;
//! the tests exercise the real crates through these wrappers.

use vstd::prelude::*;
use vstd::string::*;
use crate::version::{PreId, Version, VersionV};

verus! {

/// A whitespace character as the range grammar skips it.
pub open spec fn range_blank(c: char) -> bool {
    c == ' ' || c == '\t'
}

/// A wildcard version component.
pub open spec fn wild_char(c: char) -> bool {
    c == 'x' || c == 'X' || c == '*'
}

/// Blanks, then a wildcard component.
pub open spec fn wild_after_blanks(s: Seq<char>, i: int) -> bool
    decreases s.len() - i,
    when 0 <= i <= s.len()
{
    if i >= s.len() {
        false
    } else if range_blank(s[i]) {
        wild_after_blanks(s, i + 1)
    } else {
        wild_char(s[i])
    }
}

/// Blanks, an optional `v`, blanks, then a wildcard component: the
/// shape of a partial version with a wildcard major.
pub open spec fn wild_after_v(s: Seq<char>, i: int) -> bool
    decreases s.len() - i,
    when 0 <= i <= s.len()
{
    if i >= s.len() {
        false
    } else if range_blank(s[i]) {
        wild_after_v(s, i + 1)
    } else if s[i] == 'v' {
        wild_after_blanks(s, i + 1)
    } else {
        wild_char(s[i])
    }
}

/// Blanks, an optional `>`, then a wildcard partial version: what may
/// follow a tilde.
pub open spec fn wild_after_gt(s: Seq<char>, i: int) -> bool
    decreases s.len() - i,
    when 0 <= i <= s.len()
{
    if i >= s.len() {
        false
    } else if range_blank(s[i]) {
        wild_after_gt(s, i + 1)
    } else if s[i] == '>' {
        wild_after_v(s, i + 1)
    } else if s[i] == 'v' {
        wild_after_blanks(s, i + 1)
    } else {
        wild_char(s[i])
    }
}

/// The range texts on which `node_semver::Range::parse` can abort
/// instead of returning: its exact-operator and tilde parsers hit an
/// unreachable arm when the major component is a wildcard, so any
/// `=` (not part of `>=`/`<=`) or `~` followed by an optionally
/// blank-, `>`- or `v`-prefixed wildcard is kept away from the
/// engine. This overapproximates the aborting set; the library treats
/// such text as not a range.
pub open spec fn range_text_panics(s: Seq<char>) -> bool {
    exists|i: int|
        #![trigger s[i]]
        0 <= i < s.len() && ((s[i] == '=' && (i == 0 || (s[i - 1] != '<' && s[i - 1] != '>'))
            && wild_after_v(s, i + 1)) || (s[i] == '~' && wild_after_gt(s, i + 1)))
}

fn wild_after_blanks_exec(s: &str, i: usize, len: usize) -> (r: bool)
    requires
        len == s@.len(),
        i <= len,
    ensures
        r == wild_after_blanks(s@, i as int),
    decreases len - i,
{
    if i >= len {
        false
    } else {
        let c = s.get_char(i);
        if c == ' ' || c == '\t' {
            wild_after_blanks_exec(s, i + 1, len)
        } else {
            c == 'x' || c == 'X' || c == '*'
        }
    }
}

fn wild_after_v_exec(s: &str, i: usize, len: usize) -> (r: bool)
    requires
        len == s@.len(),
        i <= len,
    ensures
        r == wild_after_v(s@, i as int),
    decreases len - i,
{
    if i >= len {
        false
    } else {
        let c = s.get_char(i);
        if c == ' ' || c == '\t' {
            wild_after_v_exec(s, i + 1, len)
        } else if c == 'v' {
            wild_after_blanks_exec(s, i + 1, len)
        } else {
            c == 'x' || c == 'X' || c == '*'
        }
    }
}

fn wild_after_gt_exec(s: &str, i: usize, len: usize) -> (r: bool)
    requires
        len == s@.len(),
        i <= len,
    ensures
        r == wild_after_gt(s@, i as int),
    decreases len - i,
{
    if i >= len {
        false
    } else {
        let c = s.get_char(i);
        if c == ' ' || c == '\t' {
            wild_after_gt_exec(s, i + 1, len)
        } else if c == '>' {
            wild_after_v_exec(s, i + 1, len)
        } else if c == 'v' {
            wild_after_blanks_exec(s, i + 1, len)
        } else {
            c == 'x' || c == 'X' || c == '*'
        }
    }
}

/// Decides whether a range text must be kept away from the range
/// engine because it could make the parser abort.
pub fn range_text_guarded(s: &str) -> (r: bool)
    ensures
        r == range_text_panics(s@),
{
    let len = s.unicode_len();
    let mut i: usize = 0;
    while i < len
        invariant
            len == s@.len(),
            i <= len,
            forall|j: int|
                #![trigger s@[j]]
                0 <= j < i ==> !((s@[j] == '=' && (j == 0 || (s@[j - 1] != '<' && s@[j - 1]
                    != '>')) && wild_after_v(s@, j + 1)) || (s@[j] == '~' && wild_after_gt(
                    s@,
                    j + 1,
                ))),
        decreases len - i,
    {
        let c = s.get_char(i);
        if c == '=' {
            let free = if i == 0 {
                true
            } else {
                let p = s.get_char(i - 1);
                p != '<' && p != '>'
            };
            if free && wild_after_v_exec(s, i + 1, len) {
                return true;
            }
        } else if c == '~' {
            if wild_after_gt_exec(s, i + 1, len) {
                return true;
            }
        }
        i += 1;
    }
    false
}

/// Whether `range` parses as a semver range expression and the version
/// satisfies it, as `node_semver::Range::parse` and
/// `node_semver::Range::satisfies` decide it.
pub uninterp spec fn range_sat(range: Seq<char>, v: VersionV) -> bool;

/// Whether `s` parses as a semver range expression, as
/// `node_semver::Range::parse` decides it.
pub uninterp spec fn range_ok(s: Seq<char>) -> bool;

/// Whether `s` parses as an absolute URL, as `url::Url::parse` decides it.
pub uninterp spec fn url_ok(s: Seq<char>) -> bool;

/// What `node_semver::Version::parse` yields on `s`, with any build
/// metadata discarded.
pub uninterp spec fn version_parse(s: Seq<char>) -> Option<VersionV>;

/// Relies on `node_semver::Range::parse` and `node_semver::Range::satisfies`:
/// both are deterministic in their inputs. An unparsable range satisfies
/// nothing. The parser aborts on the wildcard shapes `range_text_panics`
/// describes, so those texts are excluded from this wrapper's domain.
#[verifier::external_body]
pub fn range_satisfies(range: &str, v: &Version) -> (r: bool)
    requires
        !range_text_panics(range@),
    ensures
        r == range_sat(range@, v@),
{
    let pre: Vec<node_semver::Identifier> = v.prerelease.iter().map(|p| match p {
        PreId::Num(n) => node_semver::Identifier::Numeric(*n),
        PreId::Alpha(s) => node_semver::Identifier::AlphaNumeric(s.clone()),
    }).collect();
    let nv = node_semver::Version {
        major: v.major,
        minor: v.minor,
        patch: v.patch,
        pre_release: pre,
        build: Vec::new(),
    };
    match node_semver::Range::parse(range) {
        Ok(r) => r.satisfies(&nv),
        Err(_) => false,
    }
}

/// Relies on `node_semver::Range::parse`: whether the text is a valid
/// range expression. The parser aborts on the wildcard shapes
/// `range_text_panics` describes, so those texts are excluded from
/// this wrapper's domain.
#[verifier::external_body]
pub fn is_range(s: &str) -> (r: bool)
    requires
        !range_text_panics(s@),
    ensures
        r == range_ok(s@),
{
    node_semver::Range::parse(s).is_ok()
}

/// Relies on `url::Url::parse`: whether the text is an absolute URL.
#[verifier::external_body]
pub fn is_url(s: &str) -> (r: bool)
    ensures
        r == url_ok(s@),
{
    url::Url::parse(s).is_ok()
}

/// Relies on `node_semver::Version::parse`: parses a version, mapping
/// its pre-release identifiers into the library's model and discarding
/// build metadata.
#[verifier::external_body]
pub fn parse_version(s: &str) -> (r: Option<Version>)
    ensures
        match r {
            Some(v) => version_parse(s@) == Some(v@),
            None => version_parse(s@) is None,
        },
{
    match node_semver::Version::parse(s) {
        Ok(v) => Some(Version {
            major: v.major,
            minor: v.minor,
            patch: v.patch,
            prerelease: v.pre_release.into_iter().map(|i| match i {
                node_semver::Identifier::Numeric(n) => PreId::Num(n),
                node_semver::Identifier::AlphaNumeric(a) => PreId::Alpha(a),
            }).collect(),
        }),
        Err(_) => None,
    }
}

} // verus!
