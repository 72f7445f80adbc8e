//! What a registry answers for a package, and how one request is
//! pinned against that answer: a range picks the greatest matching
//! version preferring stable releases, a tag is looked up in the tag
//! table, an alias delegates to its inner range and is renamed, and a
//! direct URL is pinned to the version its tarball's manifest declares.

use vstd::prelude::*;
use vstd::string::*;
use crate::errors::{ErrV, ResolveError};
use crate::kmap::KeyMap;
use crate::package::{spec_info_of, InfoV, MetaV, PackageMetadata, VersionedPackageInfo};
use crate::semver::{
    parse_version, range_sat, range_satisfies, range_text_guarded, range_text_panics,
    version_parse,
};
use crate::specifier::{
    alias_parts, split_alias, spec_satisfies, PackageSpecifier, SpecifierV, VersionSpecifier,
};
use crate::strutil::str_eq;
use crate::version::{
    lemma_version_lt_irrefl, lemma_version_lt_trans, spec_is_prerelease, version_lt, Version,
    VersionV,
};

verus! {

/// A registry's answer for one package name: its tag table and its
/// versions in publication order.
#[derive(Debug)]
pub struct RegistryResponse {
    pub dist_tags: KeyMap<String>,
    pub versions: Vec<(Version, PackageMetadata)>,
}

/// Mathematical image of a registry answer.
pub struct RespV {
    pub dist_tags: Seq<(Seq<char>, Seq<char>)>,
    pub versions: Seq<(VersionV, MetaV)>,
}

impl View for RegistryResponse {
    type V = RespV;

    open spec fn view(&self) -> RespV {
        RespV {
            dist_tags: self.dist_tags@,
            versions: self.versions@.map_values(|e: (Version, PackageMetadata)| (e.0@, e.1@)),
        }
    }
}

/// What a correct range pick looks like: the picked version matches,
/// is stable unless nothing stable matches, and no matching version of
/// the same class is greater.
pub open spec fn spec_pick_ok(vs: Seq<(VersionV, MetaV)>, range: Seq<char>, i: int) -> bool {
    &&& 0 <= i < vs.len()
    &&& range_sat(range, vs[i].0)
    &&& (spec_is_prerelease(vs[i].0) ==> forall|j: int|
        0 <= j < vs.len() && range_sat(range, vs[j].0) ==> spec_is_prerelease(vs[j].0)
            && !version_lt(vs[i].0, vs[j].0))
    &&& (!spec_is_prerelease(vs[i].0) ==> forall|j: int|
        0 <= j < vs.len() && range_sat(range, vs[j].0) && !spec_is_prerelease(vs[j].0)
            ==> !version_lt(vs[i].0, vs[j].0))
}

impl RegistryResponse {
    /// Picks the version a range pins: the greatest matching version,
    /// preferring stable releases over pre-releases. Text the range
    /// engine would abort on matches nothing.
    pub fn pick_version(&self, range: &str) -> (r: Option<usize>)
        ensures
            match r {
                Some(i) => !range_text_panics(range@) && spec_pick_ok(
                    self@.versions,
                    range@,
                    i as int,
                ),
                None => range_text_panics(range@) || (forall|j: int|
                    0 <= j < self@.versions.len() ==> !range_sat(range@, self@.versions[j].0)),
            },
    {
        if range_text_guarded(range) {
            return None;
        }
        let ghost vs = self@.versions;
        let mut best: Option<usize> = None;
        let mut i: usize = 0;
        while i < self.versions.len()
            invariant
                !range_text_panics(range@),
                vs == self@.versions,
                i <= self.versions@.len(),
                vs.len() == self.versions@.len(),
                match best {
                    None => forall|j: int| 0 <= j < i ==> !range_sat(range@, vs[j].0),
                    Some(b) => b < i && range_sat(range@, vs[b as int].0) && (spec_is_prerelease(
                        vs[b as int].0,
                    ) ==> forall|j: int|
                        0 <= j < i && range_sat(range@, vs[j].0) ==> spec_is_prerelease(vs[j].0)
                            && !version_lt(vs[b as int].0, vs[j].0)) && (!spec_is_prerelease(
                        vs[b as int].0,
                    ) ==> forall|j: int|
                        0 <= j < i && range_sat(range@, vs[j].0) && !spec_is_prerelease(vs[j].0)
                            ==> !version_lt(vs[b as int].0, vs[j].0)),
                },
            decreases self.versions@.len() - i,
        {
            proof {
                assert(vs[i as int].0 == self.versions@[i as int].0@);
            }
            let sat = range_satisfies(range, &self.versions[i].0);
            if sat {
                match best {
                    None => {
                        proof {
                            lemma_version_lt_irrefl(vs[i as int].0);
                        }
                        best = Some(i);
                    },
                    Some(b) => {
                        let bpre = self.versions[b].0.is_prerelease();
                        let ipre = self.versions[i].0.is_prerelease();
                        let replace = if bpre && !ipre {
                            true
                        } else if bpre == ipre {
                            self.versions[b].0.lt_version(&self.versions[i].0)
                        } else {
                            false
                        };
                        if replace {
                            proof {
                                lemma_version_lt_irrefl(vs[i as int].0);
                                assert forall|j: int|
                                    0 <= j < i && range_sat(range@, vs[j].0) && (
                                    spec_is_prerelease(vs[i as int].0) || !spec_is_prerelease(
                                        vs[j].0,
                                    )) implies !version_lt(vs[i as int].0, vs[j].0) by {
                                    if version_lt(vs[i as int].0, vs[j].0) {
                                        if version_lt(vs[b as int].0, vs[i as int].0) {
                                            lemma_version_lt_trans(
                                                vs[b as int].0,
                                                vs[i as int].0,
                                                vs[j].0,
                                            );
                                        }
                                    }
                                }
                            }
                            best = Some(i);
                        }
                    },
                }
            }
            i += 1;
        }
        best
    }
}

/// Index of the first listed version equal to `v`, or `-1`.
pub open spec fn spec_find_version(vs: Seq<(VersionV, MetaV)>, v: VersionV) -> int
    decreases vs.len(),
{
    if vs.len() == 0 {
        -1
    } else if vs[0].0 == v {
        0
    } else {
        let r = spec_find_version(vs.skip(1), v);
        if r == -1 {
            -1
        } else {
            r + 1
        }
    }
}

proof fn lemma_find_version(vs: Seq<(VersionV, MetaV)>, v: VersionV)
    ensures
        ({
            let r = spec_find_version(vs, v);
            (r == -1 && (forall|j: int| 0 <= j < vs.len() ==> vs[j].0 != v)) || (0 <= r < vs.len()
                && vs[r].0 == v && (forall|j: int| 0 <= j < r ==> vs[j].0 != v))
        }),
    decreases vs.len(),
{
    if vs.len() > 0 && vs[0].0 != v {
        lemma_find_version(vs.skip(1), v);
        let r2 = spec_find_version(vs.skip(1), v);
        if r2 == -1 {
            assert forall|j: int| 0 <= j < vs.len() implies vs[j].0 != v by {
                if j >= 1 {
                    assert(vs.skip(1)[j - 1] == vs[j]);
                }
            }
        } else {
            assert(vs.skip(1)[r2] == vs[r2 + 1]);
            assert forall|j: int| 0 <= j < r2 + 1 implies vs[j].0 != v by {
                if j >= 1 {
                    assert(vs.skip(1)[j - 1] == vs[j]);
                }
            }
        }
    }
}

impl RegistryResponse {
    /// Finds the listed entry for an exact version.
    pub fn find_version(&self, v: &Version) -> (r: Option<usize>)
        ensures
            match r {
                Some(i) => spec_find_version(self@.versions, v@) == i && i
                    < self@.versions.len(),
                None => spec_find_version(self@.versions, v@) == -1,
            },
    {
        let ghost vs = self@.versions;
        let mut i: usize = 0;
        while i < self.versions.len()
            invariant
                vs == self@.versions,
                i <= self.versions@.len(),
                vs.len() == self.versions@.len(),
                forall|j: int| 0 <= j < i ==> vs[j].0 != v@,
            decreases self.versions@.len() - i,
        {
            if self.versions[i].0.eq_version(v) {
                proof {
                    assert(vs[i as int].0 == self.versions@[i as int].0@);
                    lemma_find_version(vs, v@);
                }
                return Some(i);
            }
            proof {
                assert(vs[i as int].0 == self.versions@[i as int].0@);
            }
            i += 1;
        }
        proof {
            lemma_find_version(vs, v@);
        }
        None
    }
}

/// An info record with its local name replaced, as aliasing demands.
pub open spec fn info_renamed(i: InfoV, name: Seq<char>) -> InfoV {
    InfoV { name, ..i }
}

/// Where the answer for a request comes from: a registry, fetched
/// under the given name, or the tarball behind a direct URL.
#[derive(Debug)]
pub enum FetchPlan {
    Registry { name: String },
    Tarball { url: String },
}

/// Decides what must be fetched to resolve `req`: a plain request or a
/// tag fetches its own name's metadata, an alias fetches the aliased
/// name, and a direct URL fetches the tarball itself.
pub fn fetch_plan(req: &PackageSpecifier) -> (r: Result<FetchPlan, ResolveError>)
    ensures
        match req@.spec {
            SpecifierV::Range(_) => r matches Ok(FetchPlan::Registry { name }) && name@
                == req@.name,
            SpecifierV::Other(_) => r matches Ok(FetchPlan::Registry { name }) && name@
                == req@.name,
            SpecifierV::DirectUrl(u) => r matches Ok(FetchPlan::Tarball { url }) && url@ == u,
            SpecifierV::Prefixed(p, rest) => {
                if p != "npm"@ {
                    r matches Err(e) && e@ == (ErrV::UnsupportedPrefix { prefix: p })
                } else {
                    match alias_parts(rest) {
                        Some(parts) => r matches Ok(FetchPlan::Registry { name }) && name@
                            == parts.0,
                        None => r matches Err(e) && e@ == (ErrV::InvalidAlias { rest }),
                    }
                }
            },
        },
{
    match &req.version {
        VersionSpecifier::Range(_) => Ok(FetchPlan::Registry { name: req.name.clone() }),
        VersionSpecifier::Other(_) => Ok(FetchPlan::Registry { name: req.name.clone() }),
        VersionSpecifier::DirectUrl(u) => Ok(FetchPlan::Tarball { url: u.clone() }),
        VersionSpecifier::Prefixed(p) => {
            if !str_eq(p.prefix.as_str(), "npm") {
                return Err(ResolveError::UnsupportedPrefix { prefix: p.prefix.clone() });
            }
            match split_alias(p.rest.as_str()) {
                Some(parts) => Ok(FetchPlan::Registry { name: parts.0 }),
                None => Err(ResolveError::InvalidAlias { rest: p.rest.clone() }),
            }
        },
    }
}

/// Pins a request against the registry answer that `fetch_plan` asked
/// for. On success the pinned version satisfies the request's
/// specifier.
pub fn resolve_from_response(req: &PackageSpecifier, resp: &RegistryResponse) -> (r: Result<
    VersionedPackageInfo,
    ResolveError,
>)
    requires
        !(req@.spec is DirectUrl),
    ensures
        r matches Ok(vp) ==> spec_satisfies(req@.spec, vp@.version),
        match req@.spec {
            SpecifierV::Range(t) => match r {
                Ok(vp) => !range_text_panics(t) && (exists|i: int|
                    #[trigger] spec_pick_ok(resp@.versions, t, i) && vp@.version
                        == resp@.versions[i].0 && vp@.package == spec_info_of(
                        resp@.versions[i].1,
                    )),
                Err(e) => e@ == (ErrV::Unsatisfiable {
                    name: req@.name,
                    spec: t,
                }) && (range_text_panics(t) || (forall|j: int|
                    0 <= j < resp@.versions.len() ==> !range_sat(t, resp@.versions[j].0))),
            },
            SpecifierV::Other(tag) => match resp.dist_tags.spec_get_v(tag) {
                None => r matches Err(e) && e@ == (ErrV::Unsatisfiable {
                    name: req@.name,
                    spec: tag,
                }),
                Some(vt) => match version_parse(vt) {
                    None => r matches Err(e) && e@ == (ErrV::BadVersionText {
                        name: req@.name,
                        text: vt,
                    }),
                    Some(v) => {
                        let i = spec_find_version(resp@.versions, v);
                        if i >= 0 {
                            r matches Ok(vp) && vp@.version == v && vp@.package == spec_info_of(
                                resp@.versions[i].1,
                            )
                        } else {
                            r matches Err(e) && e@ matches ErrV::TagMissingVersion {
                                name,
                                ..
                            } && name == req@.name
                        }
                    },
                },
            },
            SpecifierV::Prefixed(p, rest) => {
                if p != "npm"@ {
                    r matches Err(e) && e@ == (ErrV::UnsupportedPrefix { prefix: p })
                } else {
                    match alias_parts(rest) {
                        None => r matches Err(e) && e@ == (ErrV::InvalidAlias { rest }),
                        Some(parts) => match r {
                            Ok(vp) => !range_text_panics(parts.1) && (exists|i: int|
                                #[trigger] spec_pick_ok(resp@.versions, parts.1, i)
                                    && vp@.version == resp@.versions[i].0 && vp@.package
                                    == info_renamed(
                                    spec_info_of(resp@.versions[i].1),
                                    req@.name,
                                )),
                            Err(e) => e@ == (ErrV::Unsatisfiable {
                                name: parts.0,
                                spec: parts.1,
                            }) && (range_text_panics(parts.1) || (forall|j: int|
                                0 <= j < resp@.versions.len() ==> !range_sat(
                                    parts.1,
                                    resp@.versions[j].0,
                                ))),
                        },
                    }
                }
            },
            SpecifierV::DirectUrl(_) => true,
        },
{
    match &req.version {
        VersionSpecifier::Range(t) => {
            match resp.pick_version(t.as_str()) {
                Some(i) => {
                    let meta = resp.versions[i].1.duplicate();
                    let version = resp.versions[i].0.clone();
                    let package = meta.info();
                    let vp = VersionedPackageInfo { package, version };
                    proof {
                        assert(resp@.versions[i as int]
                            == (resp.versions@[i as int].0@, resp.versions@[i as int].1@));
                        assert(spec_pick_ok(resp@.versions, t@, i as int) && vp@.version
                            == resp@.versions[i as int].0 && vp@.package == spec_info_of(
                            resp@.versions[i as int].1,
                        ));
                    }
                    Ok(vp)
                },
                None => Err(
                    ResolveError::Unsatisfiable { name: req.name.clone(), spec: t.clone() },
                ),
            }
        },
        VersionSpecifier::Other(tag) => {
            let vt = resp.dist_tags.get(tag.as_str());
            match vt {
                None => Err(
                    ResolveError::Unsatisfiable { name: req.name.clone(), spec: tag.clone() },
                ),
                Some(vt) => {
                    match parse_version(vt.as_str()) {
                        None => Err(
                            ResolveError::BadVersionText {
                                name: req.name.clone(),
                                text: vt.clone(),
                            },
                        ),
                        Some(v) => {
                            match resp.find_version(&v) {
                                Some(i) => {
                                    let meta = resp.versions[i].1.duplicate();
                                    let package = meta.info();
                                    let vp = VersionedPackageInfo { package, version: v };
                                    proof {
                                        assert(resp@.versions[i as int] == (
                                            resp.versions@[i as int].0@,
                                            resp.versions@[i as int].1@,
                                        ));
                                    }
                                    Ok(vp)
                                },
                                None => Err(
                                    ResolveError::TagMissingVersion {
                                        name: req.name.clone(),
                                        version: v.to_text(),
                                    },
                                ),
                            }
                        },
                    }
                },
            }
        },
        VersionSpecifier::Prefixed(p) => {
            if !str_eq(p.prefix.as_str(), "npm") {
                return Err(ResolveError::UnsupportedPrefix { prefix: p.prefix.clone() });
            }
            match split_alias(p.rest.as_str()) {
                None => Err(ResolveError::InvalidAlias { rest: p.rest.clone() }),
                Some(parts) => {
                    match resp.pick_version(parts.1.as_str()) {
                        Some(i) => {
                            let meta = resp.versions[i].1.duplicate();
                            let version = resp.versions[i].0.clone();
                            let mut package = meta.info();
                            package.name = req.name.clone();
                            let vp = VersionedPackageInfo { package, version };
                            proof {
                                assert(resp@.versions[i as int]
                                    == (resp.versions@[i as int].0@, resp.versions@[i as int].1@));
                                let ap = alias_parts(p.rest@);
                                assert(ap == Some((parts.0@, parts.1@)));
                                assert(ap matches Some(pv) && spec_pick_ok(
                                    resp@.versions,
                                    pv.1,
                                    i as int,
                                ) && vp@.version == resp@.versions[i as int].0 && vp@.package
                                    == info_renamed(
                                    spec_info_of(resp@.versions[i as int].1),
                                    req@.name,
                                ));
                            }
                            Ok(vp)
                        },
                        None => Err(
                            ResolveError::Unsatisfiable { name: parts.0, spec: parts.1 },
                        ),
                    }
                },
            }
        },
        VersionSpecifier::DirectUrl(_) => {
            proof {
                assert(false);
            }
            Err(ResolveError::UnsupportedPrefix { prefix: String::new() })
        },
    }
}

/// Pins a direct-URL request to the version its tarball's manifest
/// declares, with the download source rewritten to that URL.
pub fn resolve_from_tarball_manifest(
    req: &PackageSpecifier,
    meta: PackageMetadata,
    url: &str,
) -> (r: Result<VersionedPackageInfo, ResolveError>)
    requires
        req@.spec is DirectUrl,
    ensures
        r matches Ok(vp) ==> spec_satisfies(req@.spec, vp@.version),
        match meta@.version {
            None => r matches Err(e) && e@ == (ErrV::MissingManifestVersion { url: url@ }),
            Some(v) => r matches Ok(vp) && vp@.version == v && vp@.package == (InfoV {
                dist: url@,
                ..spec_info_of(meta@)
            }),
        },
{
    let ghost metav = meta@;
    let mut m = meta;
    let version = m.version;
    m.version = None;
    match version {
        None => Err(ResolveError::MissingManifestVersion { url: url.to_owned() }),
        Some(v) => {
            m.dist.tarball = url.to_owned();
            let ghost mv = m@;
            let package = m.info();
            proof {
                assert(spec_info_of(mv) == (InfoV { dist: url@, ..spec_info_of(metav) }));
            }
            Ok(VersionedPackageInfo { package, version: v })
        },
    }
}

} // verus!
