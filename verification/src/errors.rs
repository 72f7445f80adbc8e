//! The failures the core distinguishes, with the exact text each one
//! reports. A missing graph entry carries the immutability flag so the
//! report can suggest the right remedy.

use vstd::prelude::*;
use vstd::string::*;

verus! {

/// A resolution or planning failure.
#[derive(Debug)]
pub enum ResolveError {
    /// No version in the registry matches the request.
    Unsatisfiable { name: String, spec: String },
    /// A tag names a version that the registry does not list.
    TagMissingVersion { name: String, version: String },
    /// A tag's version text does not parse.
    BadVersionText { name: String, text: String },
    /// A required dependency rejects the current platform.
    UnsupportedPlatform { name: String, version: String },
    /// A request is absent from the graph: the lockfile is stale.
    MissingFromGraph { req: String, immutable: bool },
    /// An aliasing specifier has a prefix other than `npm`.
    UnsupportedPrefix { prefix: String },
    /// An aliasing specifier's rest holds no `@`.
    InvalidAlias { rest: String },
    /// A tarball's manifest declares no version.
    MissingManifestVersion { url: String },
}

/// Mathematical image of a failure.
pub enum ErrV {
    Unsatisfiable { name: Seq<char>, spec: Seq<char> },
    TagMissingVersion { name: Seq<char>, version: Seq<char> },
    BadVersionText { name: Seq<char>, text: Seq<char> },
    UnsupportedPlatform { name: Seq<char>, version: Seq<char> },
    MissingFromGraph { req: Seq<char>, immutable: bool },
    UnsupportedPrefix { prefix: Seq<char> },
    InvalidAlias { rest: Seq<char> },
    MissingManifestVersion { url: Seq<char> },
}

impl View for ResolveError {
    type V = ErrV;

    open spec fn view(&self) -> ErrV {
        match self {
            ResolveError::Unsatisfiable { name, spec } => ErrV::Unsatisfiable {
                name: name@,
                spec: spec@,
            },
            ResolveError::TagMissingVersion { name, version } => ErrV::TagMissingVersion {
                name: name@,
                version: version@,
            },
            ResolveError::BadVersionText { name, text } => ErrV::BadVersionText {
                name: name@,
                text: text@,
            },
            ResolveError::UnsupportedPlatform { name, version } => ErrV::UnsupportedPlatform {
                name: name@,
                version: version@,
            },
            ResolveError::MissingFromGraph { req, immutable } => ErrV::MissingFromGraph {
                req: req@,
                immutable: *immutable,
            },
            ResolveError::UnsupportedPrefix { prefix } => ErrV::UnsupportedPrefix {
                prefix: prefix@,
            },
            ResolveError::InvalidAlias { rest } => ErrV::InvalidAlias { rest: rest@ },
            ResolveError::MissingManifestVersion { url } => ErrV::MissingManifestVersion {
                url: url@,
            },
        }
    }
}

/// The text a failure reports.
pub open spec fn err_text(e: ErrV) -> Seq<char> {
    match e {
        ErrV::Unsatisfiable { name, spec } => "Version cannot be satisfied: "@ + name + seq![' ']
            + spec,
        ErrV::TagMissingVersion { name, version } => "Tag refers to a version that does not exist: "@
            + name + seq![' '] + version,
        ErrV::BadVersionText { name, text } => "Tag version does not parse: "@ + name + seq![' ']
            + text,
        ErrV::UnsupportedPlatform { name, version } => "Required dependency is not supported on this platform: "@
            + name + seq!['@'] + version,
        ErrV::MissingFromGraph { req, immutable } => "A dependency could not be found: "@ + req + (
        if immutable {
            " Make sure that the lockfile is up-to-date. Passing --immutable prevents any changes to the lockfile."@
        } else {
            " Make sure that the lockfile is consistent."@
        }),
        ErrV::UnsupportedPrefix { prefix } => "Unsupported version prefix: "@ + prefix,
        ErrV::InvalidAlias { rest } => "Invalid prefixed version: "@ + rest,
        ErrV::MissingManifestVersion { url } => "Package does not specify a version: "@ + url,
    }
}

impl ResolveError {
    /// Renders the report text for this failure.
    pub fn message(&self) -> (r: String)
        ensures
            r@ == err_text(self@),
    {
        match self {
            ResolveError::Unsatisfiable { name, spec } => {
                let mut m = String::from_str("Version cannot be satisfied: ");
                m.append(name.as_str());
                m.append(" ");
                m.append(spec.as_str());
                proof {
                    reveal_strlit(" ");
                    assert(m@ =~= err_text(self@));
                }
                m
            },
            ResolveError::TagMissingVersion { name, version } => {
                let mut m = String::from_str("Tag refers to a version that does not exist: ");
                m.append(name.as_str());
                m.append(" ");
                m.append(version.as_str());
                proof {
                    reveal_strlit(" ");
                    assert(m@ =~= err_text(self@));
                }
                m
            },
            ResolveError::BadVersionText { name, text } => {
                let mut m = String::from_str("Tag version does not parse: ");
                m.append(name.as_str());
                m.append(" ");
                m.append(text.as_str());
                proof {
                    reveal_strlit(" ");
                    assert(m@ =~= err_text(self@));
                }
                m
            },
            ResolveError::UnsupportedPlatform { name, version } => {
                let mut m = String::from_str(
                    "Required dependency is not supported on this platform: ",
                );
                m.append(name.as_str());
                m.append("@");
                m.append(version.as_str());
                proof {
                    reveal_strlit("@");
                    assert(m@ =~= err_text(self@));
                }
                m
            },
            ResolveError::MissingFromGraph { req, immutable } => {
                let mut m = String::from_str("A dependency could not be found: ");
                m.append(req.as_str());
                if *immutable {
                    m.append(
                        " Make sure that the lockfile is up-to-date. Passing --immutable prevents any changes to the lockfile.",
                    );
                } else {
                    m.append(" Make sure that the lockfile is consistent.");
                }
                proof {
                    assert(m@ =~= err_text(self@));
                }
                m
            },
            ResolveError::UnsupportedPrefix { prefix } => {
                let mut m = String::from_str("Unsupported version prefix: ");
                m.append(prefix.as_str());
                proof {
                    assert(m@ =~= err_text(self@));
                }
                m
            },
            ResolveError::InvalidAlias { rest } => {
                let mut m = String::from_str("Invalid prefixed version: ");
                m.append(rest.as_str());
                proof {
                    assert(m@ =~= err_text(self@));
                }
                m
            },
            ResolveError::MissingManifestVersion { url } => {
                let mut m = String::from_str("Package does not specify a version: ");
                m.append(url.as_str());
                proof {
                    assert(m@ =~= err_text(self@));
                }
                m
            },
        }
    }
}

} // verus!
