//! Semantic versions: a plain data model with the semver precedence
//! order (pre-releases sort below stable releases on the same triple)
//! and the canonical textual rendering.

use vstd::prelude::*;
use vstd::string::*;
use crate::strutil::{spec_u64_digits, str_eq, u64_to_string};

verus! {

/// One dot-separated identifier of a pre-release tag.
#[derive(Debug)]
pub enum PreId {
    Num(u64),
    Alpha(String),
}

/// A semantic version. `prerelease` is empty for stable releases.
#[derive(Debug)]
pub struct Version {
    pub major: u64,
    pub minor: u64,
    pub patch: u64,
    pub prerelease: Vec<PreId>,
}

/// Mathematical image of a pre-release identifier.
pub enum PreIdV {
    Num(int),
    Alpha(Seq<char>),
}

/// Mathematical image of a version.
pub struct VersionV {
    pub major: int,
    pub minor: int,
    pub patch: int,
    pub pre: Seq<PreIdV>,
}

pub open spec fn preid_view(p: PreId) -> PreIdV {
    match p {
        PreId::Num(n) => PreIdV::Num(n as int),
        PreId::Alpha(s) => PreIdV::Alpha(s@),
    }
}

pub open spec fn version_view(v: Version) -> VersionV {
    VersionV {
        major: v.major as int,
        minor: v.minor as int,
        patch: v.patch as int,
        pre: v.prerelease@.map_values(|p: PreId| preid_view(p)),
    }
}

impl View for Version {
    type V = VersionV;

    open spec fn view(&self) -> VersionV {
        version_view(*self)
    }
}

pub open spec fn spec_is_prerelease(v: VersionV) -> bool {
    v.pre.len() > 0
}

impl Clone for PreId {
    fn clone(&self) -> (r: Self)
        ensures
            preid_view(r) == preid_view(*self),
    {
        match self {
            PreId::Num(n) => PreId::Num(*n),
            PreId::Alpha(s) => PreId::Alpha(s.clone()),
        }
    }
}

impl Clone for Version {
    fn clone(&self) -> (r: Self)
        ensures
            r@ == self@,
    {
        let mut pre: Vec<PreId> = Vec::new();
        let mut i: usize = 0;
        while i < self.prerelease.len()
            invariant
                i <= self.prerelease.len(),
                pre@.len() == i,
                forall|j: int|
                    0 <= j < i ==> preid_view(pre@[j]) == preid_view(self.prerelease@[j]),
            decreases self.prerelease.len() - i,
        {
            pre.push(self.prerelease[i].clone());
            i += 1;
        }
        let r = Version { major: self.major, minor: self.minor, patch: self.patch, prerelease: pre };
        proof {
            assert(r@.pre =~= self@.pre);
        }
        r
    }
}

/// Strict lexicographic order on character sequences.
pub open spec fn chars_lt(a: Seq<char>, b: Seq<char>) -> bool
    decreases a.len(),
{
    if b.len() == 0 {
        false
    } else if a.len() == 0 {
        true
    } else if a[0] == b[0] {
        chars_lt(a.skip(1), b.skip(1))
    } else {
        (a[0] as u32) < (b[0] as u32)
    }
}

/// Order on pre-release identifiers: numeric identifiers compare
/// numerically and sort below alphanumeric ones, which compare
/// lexicographically.
pub open spec fn preid_lt(a: PreIdV, b: PreIdV) -> bool {
    match (a, b) {
        (PreIdV::Num(x), PreIdV::Num(y)) => x < y,
        (PreIdV::Num(_), PreIdV::Alpha(_)) => true,
        (PreIdV::Alpha(_), PreIdV::Num(_)) => false,
        (PreIdV::Alpha(x), PreIdV::Alpha(y)) => chars_lt(x, y),
    }
}

/// Strict lexicographic order on pre-release identifier sequences.
pub open spec fn preids_lt(a: Seq<PreIdV>, b: Seq<PreIdV>) -> bool
    decreases a.len(),
{
    if b.len() == 0 {
        false
    } else if a.len() == 0 {
        true
    } else if a[0] == b[0] {
        preids_lt(a.skip(1), b.skip(1))
    } else {
        preid_lt(a[0], b[0])
    }
}

/// Semver precedence: compare the triple, then treat a stable version
/// as greater than any pre-release of the same triple, then compare
/// pre-release identifier sequences.
pub open spec fn version_lt(a: VersionV, b: VersionV) -> bool {
    if a.major != b.major {
        a.major < b.major
    } else if a.minor != b.minor {
        a.minor < b.minor
    } else if a.patch != b.patch {
        a.patch < b.patch
    } else if a.pre.len() == 0 {
        false
    } else if b.pre.len() == 0 {
        true
    } else {
        preids_lt(a.pre, b.pre)
    }
}

impl Version {
    pub fn new(major: u64, minor: u64, patch: u64) -> (r: Version)
        ensures
            r@ == (VersionV { major: major as int, minor: minor as int, patch: patch as int, pre: Seq::<PreIdV>::empty() }),
    {
        let r = Version { major, minor, patch, prerelease: Vec::new() };
        proof {
            assert(r@.pre =~= Seq::<PreIdV>::empty());
        }
        r
    }

    /// Whether this version carries a pre-release tag.
    pub fn is_prerelease(&self) -> (r: bool)
        ensures
            r == spec_is_prerelease(self@),
    {
        self.prerelease.len() > 0
    }
}

proof fn lemma_chars_lt_common_prefix(a: Seq<char>, b: Seq<char>, i: int)
    requires
        0 <= i <= a.len(),
        i <= b.len(),
        forall|j: int| 0 <= j < i ==> a[j] == b[j],
    ensures
        chars_lt(a, b) == chars_lt(a.skip(i), b.skip(i)),
    decreases i,
{
    if i > 0 {
        lemma_chars_lt_common_prefix(a.skip(1), b.skip(1), i - 1);
        assert(a.skip(1).skip(i - 1) =~= a.skip(i));
        assert(b.skip(1).skip(i - 1) =~= b.skip(i));
    } else {
        assert(a.skip(0) =~= a);
        assert(b.skip(0) =~= b);
    }
}

/// Lexicographic comparison of two string slices.
pub fn str_lt(a: &str, b: &str) -> (r: bool)
    ensures
        r == chars_lt(a@, b@),
{
    let alen = a.unicode_len();
    let blen = b.unicode_len();
    let mut i: usize = 0;
    loop
        invariant
            alen == a@.len(),
            blen == b@.len(),
            i <= alen,
            i <= blen,
            forall|j: int| 0 <= j < i ==> a@[j] == b@[j],
        decreases alen - i,
    {
        proof {
            lemma_chars_lt_common_prefix(a@, b@, i as int);
        }
        if i == alen || i == blen {
            return alen < blen;
        }
        let ca = a.get_char(i);
        let cb = b.get_char(i);
        if ca != cb {
            return (ca as u32) < (cb as u32);
        }
        i += 1;
    }
}

impl PreId {
    /// Equality of two pre-release identifiers.
    pub fn eq_id(&self, other: &PreId) -> (r: bool)
        ensures
            r == (preid_view(*self) == preid_view(*other)),
    {
        match (self, other) {
            (PreId::Num(x), PreId::Num(y)) => x == y,
            (PreId::Alpha(x), PreId::Alpha(y)) => str_eq(x.as_str(), y.as_str()),
            _ => false,
        }
    }

    /// Strict order on pre-release identifiers.
    pub fn lt_id(&self, other: &PreId) -> (r: bool)
        ensures
            r == preid_lt(preid_view(*self), preid_view(*other)),
    {
        match (self, other) {
            (PreId::Num(x), PreId::Num(y)) => x < y,
            (PreId::Num(_), PreId::Alpha(_)) => true,
            (PreId::Alpha(_), PreId::Num(_)) => false,
            (PreId::Alpha(x), PreId::Alpha(y)) => str_lt(x.as_str(), y.as_str()),
        }
    }
}

proof fn lemma_preids_lt_common_prefix(a: Seq<PreIdV>, b: Seq<PreIdV>, i: int)
    requires
        0 <= i <= a.len(),
        i <= b.len(),
        forall|j: int| 0 <= j < i ==> a[j] == b[j],
    ensures
        preids_lt(a, b) == preids_lt(a.skip(i), b.skip(i)),
    decreases i,
{
    if i > 0 {
        lemma_preids_lt_common_prefix(a.skip(1), b.skip(1), i - 1);
        assert(a.skip(1).skip(i - 1) =~= a.skip(i));
        assert(b.skip(1).skip(i - 1) =~= b.skip(i));
    } else {
        assert(a.skip(0) =~= a);
        assert(b.skip(0) =~= b);
    }
}

fn preids_lt_exec(a: &Vec<PreId>, b: &Vec<PreId>) -> (r: bool)
    ensures
        r == preids_lt(
            a@.map_values(|p: PreId| preid_view(p)),
            b@.map_values(|p: PreId| preid_view(p)),
        ),
{
    let ghost av = a@.map_values(|p: PreId| preid_view(p));
    let ghost bv = b@.map_values(|p: PreId| preid_view(p));
    let mut i: usize = 0;
    loop
        invariant
            av == a@.map_values(|p: PreId| preid_view(p)),
            bv == b@.map_values(|p: PreId| preid_view(p)),
            av.len() == a@.len(),
            bv.len() == b@.len(),
            i <= a.len(),
            i <= b.len(),
            forall|j: int| 0 <= j < i ==> av[j] == bv[j],
        decreases a.len() - i,
    {
        proof {
            lemma_preids_lt_common_prefix(av, bv, i as int);
        }
        if i == a.len() || i == b.len() {
            return a.len() < b.len();
        }
        let ea = &a[i];
        let eb = &b[i];
        if ea.eq_id(eb) {
            i += 1;
        } else {
            return ea.lt_id(eb);
        }
    }
}

impl Version {
    /// Equality of versions; the build of a version is not modelled.
    pub fn eq_version(&self, other: &Version) -> (r: bool)
        ensures
            r == (self@ == other@),
    {
        if !(self.major == other.major && self.minor == other.minor && self.patch
            == other.patch) {
            return false;
        }
        if self.prerelease.len() != other.prerelease.len() {
            proof {
                assert(self@.pre.len() != other@.pre.len());
            }
            return false;
        }
        let mut i: usize = 0;
        while i < self.prerelease.len()
            invariant
                self.prerelease.len() == other.prerelease.len(),
                i <= self.prerelease.len(),
                self.major == other.major,
                self.minor == other.minor,
                self.patch == other.patch,
                forall|j: int|
                    0 <= j < i ==> preid_view(self.prerelease@[j]) == preid_view(
                        other.prerelease@[j],
                    ),
            decreases self.prerelease.len() - i,
        {
            if !self.prerelease[i].eq_id(&other.prerelease[i]) {
                proof {
                    assert(self@.pre[i as int] != other@.pre[i as int]);
                }
                return false;
            }
            i += 1;
        }
        proof {
            assert(self@.pre =~= other@.pre);
        }
        true
    }

    /// Strict semver precedence order.
    pub fn lt_version(&self, other: &Version) -> (r: bool)
        ensures
            r == version_lt(self@, other@),
    {
        if self.major != other.major {
            return self.major < other.major;
        }
        if self.minor != other.minor {
            return self.minor < other.minor;
        }
        if self.patch != other.patch {
            return self.patch < other.patch;
        }
        if self.prerelease.len() == 0 {
            return false;
        }
        if other.prerelease.len() == 0 {
            return true;
        }
        preids_lt_exec(&self.prerelease, &other.prerelease)
    }
}

pub proof fn lemma_chars_lt_trans(a: Seq<char>, b: Seq<char>, c: Seq<char>)
    requires
        chars_lt(a, b),
        chars_lt(b, c),
    ensures
        chars_lt(a, c),
    decreases a.len() + b.len() + c.len(),
{
    if b.len() > 0 && c.len() > 0 && a.len() > 0 {
        if a[0] == b[0] && b[0] == c[0] {
            lemma_chars_lt_trans(a.skip(1), b.skip(1), c.skip(1));
        }
    }
}

pub proof fn lemma_preid_lt_trans(a: PreIdV, b: PreIdV, c: PreIdV)
    requires
        preid_lt(a, b),
        preid_lt(b, c),
    ensures
        preid_lt(a, c),
{
    match (a, b, c) {
        (PreIdV::Alpha(x), PreIdV::Alpha(y), PreIdV::Alpha(z)) => {
            lemma_chars_lt_trans(x, y, z);
        },
        _ => {},
    }
}

/// The lexicographic order is total: two texts are equal or one
/// precedes the other.
pub proof fn lemma_chars_lt_total(a: Seq<char>, b: Seq<char>)
    ensures
        a == b || chars_lt(a, b) || chars_lt(b, a),
    decreases a.len() + b.len(),
{
    if b.len() == 0 {
        if a.len() == 0 {
            assert(a =~= b);
        } else {
            assert(chars_lt(b, a));
        }
    } else if a.len() == 0 {
        assert(chars_lt(a, b));
    } else if a[0] == b[0] {
        lemma_chars_lt_total(a.skip(1), b.skip(1));
        if a.skip(1) == b.skip(1) {
            assert(a.skip(1).len() == a.len() - 1);
            assert(b.skip(1).len() == b.len() - 1);
            assert(a =~= b) by {
                assert forall|i: int| 0 <= i < a.len() implies a[i] == b[i] by {
                    if i >= 1 {
                        assert(a.skip(1)[i - 1] == a[i]);
                        assert(b.skip(1)[i - 1] == b[i]);
                    }
                }
            }
        }
    } else {
        if !((a[0] as u32) < (b[0] as u32)) {
            assert(a[0] as u32 != b[0] as u32) by {
                if a[0] as u32 == b[0] as u32 {
                    vstd::utf8::char_u32_cast(a[0], a[0] as u32);
                    vstd::utf8::char_u32_cast(b[0], b[0] as u32);
                    assert(a[0] == b[0]);
                }
            }
            assert((b[0] as u32) < (a[0] as u32));
            assert(chars_lt(b, a));
        }
    }
}

pub proof fn lemma_chars_lt_asym(a: Seq<char>, b: Seq<char>)
    requires
        chars_lt(a, b),
    ensures
        !chars_lt(b, a),
        a != b,
    decreases a.len() + b.len(),
{
    if a.len() > 0 && b.len() > 0 && a[0] == b[0] {
        lemma_chars_lt_asym(a.skip(1), b.skip(1));
        assert(a != b) by {
            assert(a.skip(1) != b.skip(1));
            if a == b {
                assert(a.skip(1) =~= b.skip(1));
            }
        }
    }
}

pub proof fn lemma_preid_lt_asym(a: PreIdV, b: PreIdV)
    requires
        preid_lt(a, b),
    ensures
        !preid_lt(b, a),
        a != b,
{
    match (a, b) {
        (PreIdV::Alpha(x), PreIdV::Alpha(y)) => {
            lemma_chars_lt_asym(x, y);
        },
        _ => {},
    }
}

pub proof fn lemma_preids_lt_trans(a: Seq<PreIdV>, b: Seq<PreIdV>, c: Seq<PreIdV>)
    requires
        preids_lt(a, b),
        preids_lt(b, c),
    ensures
        preids_lt(a, c),
    decreases a.len() + b.len() + c.len(),
{
    if b.len() > 0 && c.len() > 0 && a.len() > 0 {
        if a[0] == b[0] && b[0] == c[0] {
            lemma_preids_lt_trans(a.skip(1), b.skip(1), c.skip(1));
        } else if a[0] == b[0] {
        } else if b[0] == c[0] {
        } else {
            lemma_preid_lt_trans(a[0], b[0], c[0]);
            lemma_preid_lt_asym(a[0], b[0]);
            lemma_preid_lt_asym(b[0], c[0]);
            lemma_preid_lt_asym(a[0], c[0]);
        }
    }
}

pub proof fn lemma_chars_lt_irrefl(a: Seq<char>)
    ensures
        !chars_lt(a, a),
    decreases a.len(),
{
    if a.len() > 0 {
        lemma_chars_lt_irrefl(a.skip(1));
    }
}

pub proof fn lemma_preids_lt_irrefl(a: Seq<PreIdV>)
    ensures
        !preids_lt(a, a),
    decreases a.len(),
{
    if a.len() > 0 {
        lemma_preids_lt_irrefl(a.skip(1));
    }
}

/// No version precedes itself.
pub proof fn lemma_version_lt_irrefl(v: VersionV)
    ensures
        !version_lt(v, v),
{
    if v.pre.len() > 0 {
        lemma_preids_lt_irrefl(v.pre);
    }
}

/// The semver precedence order is transitive.
pub proof fn lemma_version_lt_trans(a: VersionV, b: VersionV, c: VersionV)
    requires
        version_lt(a, b),
        version_lt(b, c),
    ensures
        version_lt(a, c),
{
    if a.major == b.major && b.major == c.major && a.minor == b.minor && b.minor == c.minor
        && a.patch == b.patch && b.patch == c.patch && a.pre.len() > 0 && b.pre.len() > 0
        && c.pre.len() > 0 {
        lemma_preids_lt_trans(a.pre, b.pre, c.pre);
    }
}

/// Text of one pre-release identifier.
pub open spec fn preid_text(p: PreIdV) -> Seq<char> {
    match p {
        PreIdV::Num(n) => spec_u64_digits(n),
        PreIdV::Alpha(s) => s,
    }
}

/// Text of `.`-prefixed pre-release identifiers.
pub open spec fn dot_preids_text(s: Seq<PreIdV>) -> Seq<char>
    decreases s.len(),
{
    if s.len() == 0 {
        Seq::empty()
    } else {
        seq!['.'] + preid_text(s[0]) + dot_preids_text(s.skip(1))
    }
}

/// Text of a pre-release tag: identifiers joined with `.`.
pub open spec fn preids_text(s: Seq<PreIdV>) -> Seq<char> {
    if s.len() == 0 {
        Seq::empty()
    } else {
        preid_text(s[0]) + dot_preids_text(s.skip(1))
    }
}

/// Canonical text of a version: `major.minor.patch` with an optional
/// `-prerelease` tail.
pub open spec fn version_text(v: VersionV) -> Seq<char> {
    let core = spec_u64_digits(v.major) + seq!['.'] + spec_u64_digits(v.minor) + seq!['.']
        + spec_u64_digits(v.patch);
    if v.pre.len() == 0 {
        core
    } else {
        core + seq!['-'] + preids_text(v.pre)
    }
}

fn preid_to_string(p: &PreId) -> (r: String)
    ensures
        r@ == preid_text(preid_view(*p)),
{
    match p {
        PreId::Num(n) => u64_to_string(*n),
        PreId::Alpha(s) => s.clone(),
    }
}

fn dot_preids_to_string(ids: &Vec<PreId>, from: usize) -> (r: String)
    requires
        from <= ids.len(),
    ensures
        r@ == dot_preids_text(ids@.map_values(|p: PreId| preid_view(p)).skip(from as int)),
    decreases ids.len() - from,
{
    let ghost s = ids@.map_values(|p: PreId| preid_view(p));
    if from == ids.len() {
        proof {
            assert(s.skip(from as int) =~= Seq::<PreIdV>::empty());
        }
        String::new()
    } else {
        let mut r = String::from_str(".");
        let idt = preid_to_string(&ids[from]);
        r.append(idt.as_str());
        let rest = dot_preids_to_string(ids, from + 1);
        r.append(rest.as_str());
        proof {
            reveal_strlit(".");
            assert(s.skip(from as int)[0] == s[from as int]);
            assert(s.skip(from as int).skip(1) =~= s.skip(from as int + 1));
            assert(r@ =~= dot_preids_text(s.skip(from as int)));
        }
        r
    }
}

impl Version {
    /// Renders the canonical text of this version.
    pub fn to_text(&self) -> (r: String)
        ensures
            r@ == version_text(self@),
    {
        let mut r = u64_to_string(self.major);
        r.append(".");
        let minor = u64_to_string(self.minor);
        r.append(minor.as_str());
        r.append(".");
        let patch = u64_to_string(self.patch);
        r.append(patch.as_str());
        if self.prerelease.len() > 0 {
            r.append("-");
            let first = preid_to_string(&self.prerelease[0]);
            r.append(first.as_str());
            let rest = dot_preids_to_string(&self.prerelease, 1);
            r.append(rest.as_str());
            proof {
                reveal_strlit(".");
                reveal_strlit("-");
                let s = self@.pre;
                assert(s[0] == preid_view(self.prerelease@[0]));
                assert(r@ =~= version_text(self@));
            }
        } else {
            proof {
                reveal_strlit(".");
                assert(r@ =~= version_text(self@));
            }
        }
        r
    }
}

} // verus!
