//! Small mappings the installer needs: Rust platform names to the
//! names the package ecosystem uses.

use vstd::prelude::*;
use vstd::string::*;
use crate::strutil::str_eq;

verus! {

/// The ecosystem's name for a Rust OS name, for the platforms the
/// tool runs on.
pub fn get_node_os(os: &str) -> (r: Option<String>)
    ensures
        match r {
            Some(t) => (os@ == "linux"@ && t@ == "linux"@) || (os@ == "macos"@ && t@
                == "darwin"@) || (os@ == "freebsd"@ && t@ == "freebsd"@) || (os@ == "openbsd"@
                && t@ == "openbsd"@) || (os@ == "windows"@ && t@ == "win32"@),
            None => os@ != "linux"@ && os@ != "macos"@ && os@ != "freebsd"@ && os@ != "openbsd"@
                && os@ != "windows"@,
        },
{
    if str_eq(os, "linux") {
        Some(String::from_str("linux"))
    } else if str_eq(os, "macos") {
        Some(String::from_str("darwin"))
    } else if str_eq(os, "freebsd") {
        Some(String::from_str("freebsd"))
    } else if str_eq(os, "openbsd") {
        Some(String::from_str("openbsd"))
    } else if str_eq(os, "windows") {
        Some(String::from_str("win32"))
    } else {
        None
    }
}

/// The ecosystem's name for a Rust CPU architecture name.
pub fn get_node_cpu(arch: &str) -> (r: String)
    ensures
        arch@ == "x86_64"@ ==> r@ == "x64"@,
        arch@ != "x86_64"@ ==> r@ == arch@,
{
    if str_eq(arch, "x86_64") {
        String::from_str("x64")
    } else {
        arch.to_owned()
    }
}

} // verus!
