//! Project configuration: the registry list with per-registry
//! authentication, and the flag that gates install scripts. The
//! decisions — which registry serves a package, and where a secret
//! comes from — are made here; reading the configuration file and the
//! process environment stays with the caller.

use vstd::prelude::*;
use vstd::string::*;
use crate::strutil::starts_with_str;

verus! {

/// Where a secret comes from: written inline, or read from the named
/// environment variable.
#[derive(Debug)]
pub enum AuthSource {
    Inline(String),
    FromEnv { from_env: String },
}

/// How a registry authenticates requests.
#[derive(Debug)]
pub enum RegistryAuth {
    Token { token: AuthSource },
    Basic { username: AuthSource, password: Option<AuthSource> },
}

/// One registry: its URL, an optional name-prefix scope, and optional
/// authentication.
#[derive(Debug)]
pub struct Registry {
    pub url: String,
    pub scope: Option<String>,
    pub auth: Option<RegistryAuth>,
}

/// The configuration file's content.
#[derive(Debug)]
pub struct Config {
    pub registry: Vec<Registry>,
    pub allow_install_scripts: bool,
}

impl AuthSource {
    /// The environment variable this source reads, if any.
    pub fn env_name(&self) -> (r: Option<&String>)
        ensures
            match self {
                AuthSource::Inline(_) => r is None,
                AuthSource::FromEnv { from_env } => r == Some(from_env),
            },
    {
        match self {
            AuthSource::Inline(_) => None,
            AuthSource::FromEnv { from_env } => Some(from_env),
        }
    }

    /// Resolves the secret. `env_value` is the value of the variable
    /// named by `env_name`, as the caller found it; a missing variable
    /// is an error.
    pub fn read_token(&self, env_value: Option<String>) -> (r: Result<String, ()>)
        ensures
            match self {
                AuthSource::Inline(x) => r matches Ok(t) && t@ == x@,
                AuthSource::FromEnv { .. } => match env_value {
                    Some(v) => r matches Ok(t) && t@ == v@,
                    None => r is Err,
                },
            },
    {
        match self {
            AuthSource::Inline(x) => Ok(x.clone()),
            AuthSource::FromEnv { .. } => match env_value {
                Some(v) => Ok(v),
                None => Err(()),
            },
        }
    }
}

/// Whether a registry's scope claims the package: it has a scope and
/// that scope is a prefix of the package's name.
pub open spec fn spec_scope_matches(r: Registry, name: Seq<char>) -> bool {
    match r.scope {
        Some(s) => name.len() >= s@.len() && name.subrange(0, s@.len() as int) == s@,
        None => false,
    }
}

/// Whether a registry carries no scope at all.
pub open spec fn spec_scopeless(r: Registry) -> bool {
    r.scope is None
}

/// The registry that serves `name`: the first whose scope is a prefix
/// of the name; if no scope matches, the first scope-less registry;
/// `None` means the default public registry is used.
pub fn select_registry<'a>(regs: &'a Vec<Registry>, name: &str) -> (r: Option<&'a Registry>)
    ensures
        match r {
            Some(reg) => (exists|i: int|
                0 <= i < regs@.len() && regs@[i] == *reg && spec_scope_matches(regs@[i], name@)
                    && (forall|j: int| 0 <= j < i ==> !spec_scope_matches(regs@[j], name@)))
                || ((forall|i: int|
                0 <= i < regs@.len() ==> !spec_scope_matches(regs@[i], name@)) && (exists|i: int|
                0 <= i < regs@.len() && regs@[i] == *reg && spec_scopeless(regs@[i]) && (forall|
                    j: int,
                |
                    0 <= j < i ==> !spec_scopeless(regs@[j])))),
            None => forall|i: int|
                0 <= i < regs@.len() ==> !spec_scope_matches(regs@[i], name@) && !spec_scopeless(
                    regs@[i],
                ),
        },
{
    let mut i: usize = 0;
    while i < regs.len()
        invariant
            i <= regs@.len(),
            forall|j: int| 0 <= j < i ==> !spec_scope_matches(regs@[j], name@),
        decreases regs@.len() - i,
    {
        let reg = &regs[i];
        let matched = match &reg.scope {
            Some(s) => starts_with_str(name, s.as_str()),
            None => false,
        };
        if matched {
            proof {
                assert(spec_scope_matches(regs@[i as int], name@));
            }
            return Some(reg);
        }
        i += 1;
    }
    let mut k: usize = 0;
    while k < regs.len()
        invariant
            k <= regs@.len(),
            forall|j: int| 0 <= j < regs@.len() ==> !spec_scope_matches(regs@[j], name@),
            forall|j: int| 0 <= j < k ==> !spec_scopeless(regs@[j]),
        decreases regs@.len() - k,
    {
        let reg = &regs[k];
        if reg.scope.is_none() {
            return Some(reg);
        }
        k += 1;
    }
    None
}

/// The metadata URL for a package: `base/name`.
pub fn package_url(base: &str, name: &str) -> (r: String)
    ensures
        r@ == base@ + seq!['/'] + name@,
{
    let mut r = base.to_owned();
    r.append("/");
    r.append(name);
    proof {
        reveal_strlit("/");
        assert(r@ =~= base@ + seq!['/'] + name@);
    }
    r
}

/// Bounded retry bookkeeping: an operation may be attempted until the
/// configured number of attempts is used up.
#[derive(Debug)]
pub struct RetryState {
    pub attempts: u64,
    pub limit: u64,
}

impl RetryState {
    pub fn new(limit: u64) -> (r: RetryState)
        ensures
            r.attempts == 0,
            r.limit == limit,
    {
        RetryState { attempts: 0, limit }
    }

    /// Whether another attempt is allowed.
    pub fn should_try(&self) -> (r: bool)
        ensures
            r == (self.attempts < self.limit),
    {
        self.attempts < self.limit
    }

    /// Records a failed attempt.
    pub fn record_failure(&mut self)
        requires
            old(self).attempts < old(self).limit,
        ensures
            final(self).attempts == old(self).attempts + 1,
            final(self).limit == old(self).limit,
    {
        self.attempts = self.attempts + 1;
    }
}

} // verus!
