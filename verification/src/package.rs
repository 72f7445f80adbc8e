//! Package data: platform constraint sets, executable entry points,
//! distribution info, and the package metadata that registries serve,
//! together with the child requests a package contributes to
//! resolution.

use vstd::prelude::*;
use vstd::string::*;
use crate::kmap::KeyMap;
use crate::specifier::{PackageSpecifier, ReqV, SpecifierV, VersionSpecifier};
use crate::strutil::str_eq;
use crate::version::{Version, VersionV};

verus! {

/// A set of platform tokens; a leading `!` denies the platform.
#[derive(Debug)]
pub struct PlatformMap {
    pub tokens: Vec<String>,
}

impl View for PlatformMap {
    type V = Seq<Seq<char>>;

    open spec fn view(&self) -> Seq<Seq<char>> {
        self.tokens@.map_values(|t: String| t@)
    }
}

/// Whether a token denies its platform.
pub open spec fn is_deny(t: Seq<char>) -> bool {
    t.len() > 0 && t[0] == '!'
}

/// The denied platform names in `toks`, with their `!` stripped.
pub open spec fn blocked_of(toks: Seq<Seq<char>>) -> Seq<Seq<char>>
    decreases toks.len(),
{
    if toks.len() == 0 {
        Seq::empty()
    } else {
        let rest = blocked_of(toks.drop_last());
        if is_deny(toks.last()) {
            rest.push(toks.last().skip(1))
        } else {
            rest
        }
    }
}

/// An empty constraint set allows every platform; otherwise the
/// platform must be allowed and must not be denied.
pub open spec fn platform_ok(tokens: Seq<Seq<char>>, platform: Seq<char>) -> bool {
    if tokens.len() == 0 {
        true
    } else {
        (exists|i: int| 0 <= i < tokens.len() && !is_deny(tokens[i]) && tokens[i] == platform)
            && !(exists|i: int|
            0 <= i < tokens.len() && is_deny(tokens[i]) && tokens[i].skip(1) == platform)
    }
}

impl PlatformMap {
    /// Whether this constraint set accepts the platform.
    pub open spec fn spec_supported(self, platform: Seq<char>) -> bool {
        platform_ok(self@, platform)
    }

    pub fn new() -> (r: PlatformMap)
        ensures
            r@ =~= Seq::<Seq<char>>::empty(),
    {
        PlatformMap { tokens: Vec::new() }
    }

    pub fn is_empty(&self) -> (r: bool)
        ensures
            r == (self@.len() == 0),
    {
        self.tokens.len() == 0
    }

    /// The allowing tokens, in order.
    pub fn allowed(&self) -> (r: Vec<String>)
        ensures
            r@.map_values(|t: String| t@) == self@.filter(|t: Seq<char>| !is_deny(t)),
    {
        let mut r: Vec<String> = Vec::new();
        let mut i: usize = 0;
        proof {
            reveal(Seq::<Seq<char>>::filter);
            assert(self@.take(0) =~= Seq::<Seq<char>>::empty());
            assert(r@.map_values(|t: String| t@) =~= self@.take(0).filter(
                |t: Seq<char>| !is_deny(t),
            ));
        }
        while i < self.tokens.len()
            invariant
                i <= self.tokens@.len(),
                r@.map_values(|t: String| t@) == self@.take(i as int).filter(
                    |t: Seq<char>| !is_deny(t),
                ),
            decreases self.tokens@.len() - i,
        {
            let tok = &self.tokens[i];
            let deny = if tok.as_str().unicode_len() > 0 {
                tok.as_str().get_char(0) == '!'
            } else {
                false
            };
            if !deny {
                r.push(tok.clone());
            }
            proof {
                reveal(Seq::<Seq<char>>::filter);
                assert(self@.take(i as int + 1).drop_last() =~= self@.take(i as int));
                assert(self@.take(i as int + 1).last() == self@[i as int]);
                assert(r@.map_values(|t: String| t@) =~= self@.take(i as int + 1).filter(
                    |t: Seq<char>| !is_deny(t),
                ));
            }
            i += 1;
        }
        proof {
            assert(self@.take(self@.len() as int) =~= self@);
        }
        r
    }

    /// The denied platforms, with their `!` stripped, in order.
    pub fn blocked(&self) -> (r: Vec<String>)
        ensures
            r@.map_values(|t: String| t@) == blocked_of(self@),
    {
        let mut r: Vec<String> = Vec::new();
        let mut i: usize = 0;
        proof {
            assert(self@.take(0) =~= Seq::<Seq<char>>::empty());
            assert(r@.map_values(|t: String| t@) =~= blocked_of(self@.take(0)));
        }
        while i < self.tokens.len()
            invariant
                i <= self.tokens@.len(),
                r@.map_values(|t: String| t@) == blocked_of(self@.take(i as int)),
            decreases self.tokens@.len() - i,
        {
            let tok = &self.tokens[i];
            let len = tok.as_str().unicode_len();
            if len > 0 && tok.as_str().get_char(0) == '!' {
                let stripped = tok.as_str().substring_char(1, len);
                proof {
                    assert(stripped@ =~= tok@.skip(1));
                }
                r.push(stripped.to_owned());
            }
            proof {
                assert(self@.take(i as int + 1).drop_last() =~= self@.take(i as int));
                assert(self@.take(i as int + 1).last() == self@[i as int]);
                assert(r@.map_values(|t: String| t@) =~= blocked_of(self@.take(i as int + 1)));
            }
            i += 1;
        }
        proof {
            assert(self@.take(self@.len() as int) =~= self@);
        }
        r
    }

    /// Decides `spec_supported` for a platform name.
    pub fn is_supported(&self, platform: &str) -> (r: bool)
        ensures
            r == self.spec_supported(platform@),
    {
        if self.tokens.len() == 0 {
            return true;
        }
        let mut allow = false;
        let mut deny = false;
        let mut i: usize = 0;
        while i < self.tokens.len()
            invariant
                i <= self.tokens@.len(),
                allow == (exists|j: int|
                    0 <= j < i && !is_deny(self@[j]) && self@[j] == platform@),
                deny == (exists|j: int|
                    0 <= j < i && is_deny(self@[j]) && self@[j].skip(1) == platform@),
            decreases self.tokens@.len() - i,
        {
            let tok = &self.tokens[i];
            let len = tok.as_str().unicode_len();
            if len > 0 && tok.as_str().get_char(0) == '!' {
                let stripped = tok.as_str().substring_char(1, len);
                proof {
                    assert(stripped@ =~= tok@.skip(1));
                }
                if str_eq(stripped, platform) {
                    deny = true;
                    proof {
                        assert(is_deny(self@[i as int]) && self@[i as int].skip(1) == platform@);
                    }
                }
            } else {
                if str_eq(tok.as_str(), platform) {
                    allow = true;
                    proof {
                        assert(!is_deny(self@[i as int]) && self@[i as int] == platform@);
                    }
                }
            }
            i += 1;
        }
        allow && !deny
    }

    pub fn duplicate(&self) -> (r: PlatformMap)
        ensures
            r@ == self@,
    {
        let mut toks: Vec<String> = Vec::new();
        let mut i: usize = 0;
        while i < self.tokens.len()
            invariant
                i <= self.tokens@.len(),
                toks@.len() == i,
                forall|j: int| 0 <= j < i ==> toks@[j]@ == self.tokens@[j]@,
            decreases self.tokens@.len() - i,
        {
            toks.push(self.tokens[i].clone());
            i += 1;
        }
        let r = PlatformMap { tokens: toks };
        proof {
            assert(r@ =~= self@);
        }
        r
    }
}

/// The executable entry points a package declares: one unnamed command
/// or a map from command names to paths.
#[derive(Debug)]
pub enum Bin {
    Single(String),
    Multi(KeyMap<String>),
}

/// Mathematical image of `Bin`.
#[verifier::ext_equal]
pub enum BinV {
    Single(Seq<char>),
    Multi(Seq<(Seq<char>, Seq<char>)>),
}

impl View for Bin {
    type V = BinV;

    open spec fn view(&self) -> BinV {
        match self {
            Bin::Single(p) => BinV::Single(p@),
            Bin::Multi(m) => BinV::Multi(m@),
        }
    }
}

/// Distribution info: where the package's tarball lives.
#[derive(Debug)]
pub struct Dist {
    pub tarball: String,
}

impl View for Dist {
    type V = Seq<char>;

    open spec fn view(&self) -> Seq<char> {
        self.tarball@
    }
}

impl Dist {
    pub fn duplicate(&self) -> (r: Dist)
        ensures
            r@ == self@,
    {
        Dist { tarball: self.tarball.clone() }
    }
}

/// Duplicates a name-to-text map, preserving its entries.
pub fn dup_string_map(m: &KeyMap<String>) -> (r: KeyMap<String>)
    ensures
        r@ == m@,
        r.entries@.len() == m.entries@.len(),
{
    let mut entries: Vec<(String, String)> = Vec::new();
    let mut i: usize = 0;
    while i < m.entries.len()
        invariant
            i <= m.entries@.len(),
            entries@.len() == i,
            forall|j: int|
                0 <= j < i ==> entries@[j].0@ == m.entries@[j].0@ && entries@[j].1@
                    == m.entries@[j].1@,
        decreases m.entries@.len() - i,
    {
        entries.push((m.entries[i].0.clone(), m.entries[i].1.clone()));
        i += 1;
    }
    let r = KeyMap { entries };
    proof {
        assert(r@ =~= m@);
    }
    r
}

/// Duplicates a name-to-specifier map, preserving its entries.
pub fn dup_spec_map(m: &KeyMap<VersionSpecifier>) -> (r: KeyMap<VersionSpecifier>)
    ensures
        r@ == m@,
        r.entries@.len() == m.entries@.len(),
{
    let mut entries: Vec<(String, VersionSpecifier)> = Vec::new();
    let mut i: usize = 0;
    while i < m.entries.len()
        invariant
            i <= m.entries@.len(),
            entries@.len() == i,
            forall|j: int|
                0 <= j < i ==> entries@[j].0@ == m.entries@[j].0@ && entries@[j].1@
                    == m.entries@[j].1@,
        decreases m.entries@.len() - i,
    {
        entries.push((m.entries[i].0.clone(), m.entries[i].1.clone()));
        i += 1;
    }
    let r = KeyMap { entries };
    proof {
        assert(r@ =~= m@);
    }
    r
}

impl Bin {
    pub fn duplicate(&self) -> (r: Bin)
        ensures
            r@ == self@,
    {
        match self {
            Bin::Single(p) => Bin::Single(p.clone()),
            Bin::Multi(m) => Bin::Multi(dup_string_map(m)),
        }
    }
}

/// The slice of package metadata that resolution and installation keep.
#[derive(Debug)]
pub struct PackageInfo {
    pub name: String,
    pub dist: Dist,
    pub dependencies: KeyMap<VersionSpecifier>,
    pub optional_dependencies: KeyMap<VersionSpecifier>,
    pub os: PlatformMap,
    pub cpu: PlatformMap,
    pub bin: Option<Bin>,
    pub scripts: KeyMap<String>,
}

/// Mathematical image of `PackageInfo`.
#[verifier::ext_equal]
pub struct InfoV {
    pub name: Seq<char>,
    pub dist: Seq<char>,
    pub dependencies: Seq<(Seq<char>, SpecifierV)>,
    pub optional_dependencies: Seq<(Seq<char>, SpecifierV)>,
    pub os: Seq<Seq<char>>,
    pub cpu: Seq<Seq<char>>,
    pub bin: Option<BinV>,
    pub scripts: Seq<(Seq<char>, Seq<char>)>,
}

impl View for PackageInfo {
    type V = InfoV;

    open spec fn view(&self) -> InfoV {
        InfoV {
            name: self.name@,
            dist: self.dist@,
            dependencies: self.dependencies@,
            optional_dependencies: self.optional_dependencies@,
            os: self.os@,
            cpu: self.cpu@,
            bin: match self.bin {
                Some(b) => Some(b@),
                None => None,
            },
            scripts: self.scripts@,
        }
    }
}

/// Full registry metadata for one version of a package.
#[derive(Debug)]
pub struct PackageMetadata {
    pub name: String,
    pub version: Option<Version>,
    pub bin: Option<Bin>,
    pub dist: Dist,
    pub dependencies: KeyMap<VersionSpecifier>,
    pub optional_dependencies: KeyMap<VersionSpecifier>,
    pub dev_dependencies: KeyMap<VersionSpecifier>,
    pub os: PlatformMap,
    pub cpu: PlatformMap,
    pub scripts: KeyMap<String>,
}

/// Mathematical image of `PackageMetadata`.
pub struct MetaV {
    pub name: Seq<char>,
    pub version: Option<VersionV>,
    pub bin: Option<BinV>,
    pub dist: Seq<char>,
    pub dependencies: Seq<(Seq<char>, SpecifierV)>,
    pub optional_dependencies: Seq<(Seq<char>, SpecifierV)>,
    pub dev_dependencies: Seq<(Seq<char>, SpecifierV)>,
    pub os: Seq<Seq<char>>,
    pub cpu: Seq<Seq<char>>,
    pub scripts: Seq<(Seq<char>, Seq<char>)>,
}

impl View for PackageMetadata {
    type V = MetaV;

    open spec fn view(&self) -> MetaV {
        MetaV {
            name: self.name@,
            version: match self.version {
                Some(v) => Some(v@),
                None => None,
            },
            bin: match self.bin {
                Some(b) => Some(b@),
                None => None,
            },
            dist: self.dist@,
            dependencies: self.dependencies@,
            optional_dependencies: self.optional_dependencies@,
            dev_dependencies: self.dev_dependencies@,
            os: self.os@,
            cpu: self.cpu@,
            scripts: self.scripts@,
        }
    }
}

/// Whether an info record accepts the platform.
pub open spec fn info_supported(i: InfoV, os: Seq<char>, cpu: Seq<char>) -> bool {
    platform_ok(i.os, os) && platform_ok(i.cpu, cpu)
}

/// The info slice a metadata record reduces to.
pub open spec fn spec_info_of(m: MetaV) -> InfoV {
    InfoV {
        name: m.name,
        dist: m.dist,
        dependencies: m.dependencies,
        optional_dependencies: m.optional_dependencies,
        os: m.os,
        cpu: m.cpu,
        bin: m.bin,
        scripts: m.scripts,
    }
}

/// A package pinned to a concrete version.
#[derive(Debug)]
pub struct VersionedPackageInfo {
    pub package: PackageInfo,
    pub version: Version,
}

/// Mathematical image of `VersionedPackageInfo`.
#[verifier::ext_equal]
pub struct PinnedV {
    pub package: InfoV,
    pub version: VersionV,
}

impl View for VersionedPackageInfo {
    type V = PinnedV;

    open spec fn view(&self) -> PinnedV {
        PinnedV { package: self.package@, version: self.version@ }
    }
}

impl PackageMetadata {
    /// Keeps the fields that outlive resolution.
    pub fn info(self) -> (r: PackageInfo)
        ensures
            r@ == spec_info_of(self@),
    {
        PackageInfo {
            name: self.name,
            dist: self.dist,
            dependencies: self.dependencies,
            optional_dependencies: self.optional_dependencies,
            os: self.os,
            cpu: self.cpu,
            bin: self.bin,
            scripts: self.scripts,
        }
    }
}

/// The child request a dependency entry contributes: it is optional
/// exactly when its name is among the optional dependencies.
pub open spec fn spec_req_of(info: InfoV, entry: (Seq<char>, SpecifierV)) -> ReqV {
    ReqV {
        name: entry.0,
        spec: entry.1,
        optional: crate::kmap::key_index(
            info.optional_dependencies.map_values(|e: (Seq<char>, SpecifierV)| e.0),
            entry.0,
        ) >= 0,
    }
}

/// The child requests of a package: its dependencies, then its
/// optional dependencies.
pub open spec fn spec_child_reqs(info: InfoV) -> Seq<ReqV> {
    info.dependencies.map_values(|e: (Seq<char>, SpecifierV)| spec_req_of(info, e))
        + info.optional_dependencies.map_values(|e: (Seq<char>, SpecifierV)| spec_req_of(info, e))
}

impl PackageInfo {
    /// Supported on a platform when both the OS and CPU constraint
    /// sets accept it.
    pub open spec fn spec_supported(self, os: Seq<char>, cpu: Seq<char>) -> bool {
        self.os.spec_supported(os) && self.cpu.spec_supported(cpu)
    }

    /// Decides platform support for the given OS and CPU names.
    pub fn supported(&self, os: &str, cpu: &str) -> (r: bool)
        ensures
            r == self.spec_supported(os@, cpu@),
    {
        self.os.is_supported(os) && self.cpu.is_supported(cpu)
    }

    /// The commands this package exposes: a `Multi` bin as is, a
    /// `Single` bin under the package's own name, none otherwise.
    pub fn bins(&self) -> (r: KeyMap<String>)
        ensures
            match self@.bin {
                Some(BinV::Multi(m)) => r@ == m,
                Some(BinV::Single(p)) => r@ =~= seq![(self@.name, p)],
                None => r@ =~= Seq::<(Seq<char>, Seq<char>)>::empty(),
            },
    {
        match &self.bin {
            Some(Bin::Multi(m)) => dup_string_map(m),
            Some(Bin::Single(p)) => {
                let mut entries: Vec<(String, String)> = Vec::new();
                entries.push((self.name.clone(), p.clone()));
                KeyMap { entries }
            },
            None => KeyMap { entries: Vec::new() },
        }
    }

    /// The child requests this package contributes to resolution.
    pub fn iter(&self) -> (r: Vec<PackageSpecifier>)
        ensures
            r@.map_values(|p: PackageSpecifier| p@) == spec_child_reqs(self@),
    {
        let ghost iv = self@;
        let mut r: Vec<PackageSpecifier> = Vec::new();
        let mut i: usize = 0;
        while i < self.dependencies.entries.len()
            invariant
                i <= self.dependencies.entries@.len(),
                iv == self@,
                r@.len() == i,
                forall|j: int|
                    0 <= j < i ==> r@[j]@ == spec_req_of(iv, iv.dependencies[j]),
            decreases self.dependencies.entries@.len() - i,
        {
            let e = &self.dependencies.entries[i];
            let opt = self.optional_dependencies.contains_key(e.0.as_str());
            proof {
                crate::kmap::lemma_key_index(self.optional_dependencies.keys(), e.0@);
                assert(self.optional_dependencies.keys() =~= iv.optional_dependencies.map_values(
                    |e2: (Seq<char>, SpecifierV)| e2.0,
                ));
            }
            r.push(
                PackageSpecifier { name: e.0.clone(), version: e.1.clone(), optional: opt },
            );
            i += 1;
        }
        let mut k: usize = 0;
        while k < self.optional_dependencies.entries.len()
            invariant
                k <= self.optional_dependencies.entries@.len(),
                iv == self@,
                r@.len() == iv.dependencies.len() + k,
                forall|j: int|
                    0 <= j < iv.dependencies.len() ==> r@[j]@ == spec_req_of(
                        iv,
                        iv.dependencies[j],
                    ),
                forall|j: int|
                    0 <= j < k ==> r@[iv.dependencies.len() + j]@ == spec_req_of(
                        iv,
                        iv.optional_dependencies[j],
                    ),
            decreases self.optional_dependencies.entries@.len() - k,
        {
            let e = &self.optional_dependencies.entries[k];
            let opt = self.optional_dependencies.contains_key(e.0.as_str());
            proof {
                crate::kmap::lemma_key_index(self.optional_dependencies.keys(), e.0@);
                assert(self.optional_dependencies.keys() =~= iv.optional_dependencies.map_values(
                    |e2: (Seq<char>, SpecifierV)| e2.0,
                ));
            }
            r.push(
                PackageSpecifier { name: e.0.clone(), version: e.1.clone(), optional: opt },
            );
            k += 1;
        }
        proof {
            assert(r@.map_values(|p: PackageSpecifier| p@) =~= spec_child_reqs(iv));
        }
        r
    }

    pub fn duplicate(&self) -> (r: PackageInfo)
        ensures
            r@ == self@,
    {
        let r = PackageInfo {
            name: self.name.clone(),
            dist: self.dist.duplicate(),
            dependencies: dup_spec_map(&self.dependencies),
            optional_dependencies: dup_spec_map(&self.optional_dependencies),
            os: self.os.duplicate(),
            cpu: self.cpu.duplicate(),
            bin: match &self.bin {
                Some(b) => Some(b.duplicate()),
                None => None,
            },
            scripts: dup_string_map(&self.scripts),
        };
        r
    }
}

impl VersionedPackageInfo {
    pub fn duplicate(&self) -> (r: VersionedPackageInfo)
        ensures
            r@ == self@,
    {
        VersionedPackageInfo { package: self.package.duplicate(), version: self.version.clone() }
    }
}

/// The requests a project manifest contributes as roots: dependencies,
/// then development dependencies, then optional dependencies.
pub open spec fn spec_root_reqs(m: MetaV) -> Seq<ReqV> {
    let base = spec_info_of(m);
    m.dependencies.map_values(|e: (Seq<char>, SpecifierV)| spec_req_of(base, e))
        + m.dev_dependencies.map_values(|e: (Seq<char>, SpecifierV)| spec_req_of(base, e))
        + m.optional_dependencies.map_values(|e: (Seq<char>, SpecifierV)| spec_req_of(base, e))
}

impl PackageMetadata {
    /// The root requests of this manifest, development dependencies
    /// included.
    pub fn iter_all(&self) -> (r: Vec<PackageSpecifier>)
        ensures
            r@.map_values(|p: PackageSpecifier| p@) == spec_root_reqs(self@),
    {
        let ghost sv = spec_root_reqs(self@);
        let mut r: Vec<PackageSpecifier> = Vec::new();
        let n1 = self.dependencies.entries.len();
        let n2 = self.dev_dependencies.entries.len();
        let mut i: usize = 0;
        while i < n1
            invariant
                n1 == self.dependencies.entries@.len(),
                sv == spec_root_reqs(self@),
                i <= n1,
                r@.len() == i,
                forall|j: int| 0 <= j < i ==> r@[j]@ == sv[j],
            decreases n1 - i,
        {
            let e = &self.dependencies.entries[i];
            let opt = self.optional_dependencies.contains_key(e.0.as_str());
            proof {
                crate::kmap::lemma_key_index(self.optional_dependencies.keys(), e.0@);
                assert(self.optional_dependencies.keys()
                    =~= self.optional_dependencies@.map_values(
                    |e2: (Seq<char>, SpecifierV)| e2.0,
                ));
            }
            r.push(
                PackageSpecifier { name: e.0.clone(), version: e.1.clone(), optional: opt },
            );
            i += 1;
        }
        let mut k: usize = 0;
        while k < n2
            invariant
                n1 == self.dependencies.entries@.len(),
                n2 == self.dev_dependencies.entries@.len(),
                sv == spec_root_reqs(self@),
                k <= n2,
                r@.len() == n1 + k,
                forall|j: int| 0 <= j < n1 + k ==> r@[j]@ == sv[j],
            decreases n2 - k,
        {
            let e = &self.dev_dependencies.entries[k];
            let opt = self.optional_dependencies.contains_key(e.0.as_str());
            proof {
                crate::kmap::lemma_key_index(self.optional_dependencies.keys(), e.0@);
                assert(self.optional_dependencies.keys()
                    =~= self.optional_dependencies@.map_values(
                    |e2: (Seq<char>, SpecifierV)| e2.0,
                ));
            }
            r.push(
                PackageSpecifier { name: e.0.clone(), version: e.1.clone(), optional: opt },
            );
            k += 1;
        }
        let n3 = self.optional_dependencies.entries.len();
        let mut t: usize = 0;
        while t < n3
            invariant
                n1 == self.dependencies.entries@.len(),
                n2 == self.dev_dependencies.entries@.len(),
                n3 == self.optional_dependencies.entries@.len(),
                sv == spec_root_reqs(self@),
                t <= n3,
                r@.len() == n1 + n2 + t,
                forall|j: int| 0 <= j < n1 + n2 + t ==> r@[j]@ == sv[j],
            decreases n3 - t,
        {
            let e = &self.optional_dependencies.entries[t];
            let opt = self.optional_dependencies.contains_key(e.0.as_str());
            proof {
                crate::kmap::lemma_key_index(self.optional_dependencies.keys(), e.0@);
                assert(self.optional_dependencies.keys()
                    =~= self.optional_dependencies@.map_values(
                    |e2: (Seq<char>, SpecifierV)| e2.0,
                ));
            }
            r.push(
                PackageSpecifier { name: e.0.clone(), version: e.1.clone(), optional: opt },
            );
            t += 1;
        }
        proof {
            assert(r@.map_values(|p: PackageSpecifier| p@) =~= sv);
        }
        r
    }

    pub fn duplicate(&self) -> (r: PackageMetadata)
        ensures
            r@ == self@,
    {
        PackageMetadata {
            name: self.name.clone(),
            version: match &self.version {
                Some(v) => Some(v.clone()),
                None => None,
            },
            bin: match &self.bin {
                Some(b) => Some(b.duplicate()),
                None => None,
            },
            dist: self.dist.duplicate(),
            dependencies: dup_spec_map(&self.dependencies),
            optional_dependencies: dup_spec_map(&self.optional_dependencies),
            dev_dependencies: dup_spec_map(&self.dev_dependencies),
            os: self.os.duplicate(),
            cpu: self.cpu.duplicate(),
            scripts: dup_string_map(&self.scripts),
        }
    }
}

} // verus!
