use vstd::prelude::*;

verus! {

/// Major version of the library.
pub const YAML_VERSION_MAJOR: i32 = 0;

/// Minor version of the library.
pub const YAML_VERSION_MINOR: i32 = 2;

/// Patch level of the library.
pub const YAML_VERSION_PATCH: i32 = 5;

/// The version as `"major.minor.patch"`.
pub fn yaml_get_version_string() -> (r: &'static str)
    ensures
        r@ == "0.2.5"@,
{
    "0.2.5"
}

/// Stores the major, minor and patch numbers of the version.
pub fn yaml_get_version(major: &mut i32, minor: &mut i32, patch: &mut i32)
    ensures
        *final(major) == YAML_VERSION_MAJOR,
        *final(minor) == YAML_VERSION_MINOR,
        *final(patch) == YAML_VERSION_PATCH,
{
    *major = YAML_VERSION_MAJOR;
    *minor = YAML_VERSION_MINOR;
    *patch = YAML_VERSION_PATCH;
}

} // verus!
