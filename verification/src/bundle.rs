//! Platform worker bundles: the manifest that names the worker binary and its digest, and
//! the rules for relative fixture paths used when exporting reference thumbnails.
use vstd::prelude::*;

use crate::platform::{is_absolute_path, native_components, NativeComponent};
use crate::text::{chars_of, slice_eq, string_from};
use crate::worker_client::{is_lower_sha256, WorkerRunError};

verus! {

pub const WORKER_BUNDLE_SCHEMA: u32 = 1;

/// The largest bundle description accepted, in bytes.
pub const MAX_BUNDLE_DESCRIPTION_BYTES: u64 = 16384;

/// The timeout of a bundled worker, in milliseconds.
pub const BUNDLED_WORKER_TIMEOUT_MS: u64 = 5000;

/// What a bundle declares about its worker.
#[derive(Debug, Clone, PartialEq, Eq)]
pub struct WorkerBundleManifest {
    pub schema: u32,
    pub platform: String,
    pub architecture: String,
    pub provider_id: String,
    pub provider_version: String,
    pub executable: String,
    pub sha256: String,
}

/// Why a bundle could not be opened.
#[derive(Debug, Clone, PartialEq, Eq)]
pub enum WorkerBundleError {
    InvalidPath,
    Io(String),
    InvalidManifest(&'static str),
    InvalidJson(String),
    Client(WorkerRunError),
}

/// An executable name is a single normal component: not empty, not absolute.
pub open spec fn leaf_name(text_empty: bool, absolute: bool, components: Seq<NativeComponent>) -> bool {
    !text_empty && !absolute && components.len() == 1 && components[0] is Normal
}

/// The first refusal of a manifest: schema, platform, architecture, provider identity,
/// executable name, then its SHA-256.
pub open spec fn manifest_error(
    m: WorkerBundleManifest,
    os: Seq<char>,
    arch: Seq<char>,
    provider_id: Seq<char>,
    provider_version: Seq<char>,
    executable_absolute: bool,
    executable_components: Seq<NativeComponent>,
) -> Option<&'static str> {
    if m.schema != WORKER_BUNDLE_SCHEMA {
        Some("schema")
    } else if m.platform@ != os {
        Some("platform")
    } else if m.architecture@ != arch {
        Some("architecture")
    } else if m.provider_id@ != provider_id || m.provider_version@ != provider_version {
        Some("provider identity")
    } else if !leaf_name(m.executable@.len() == 0, executable_absolute, executable_components) {
        Some("executable name")
    } else if !is_lower_sha256(m.sha256@) {
        Some("SHA-256")
    } else {
        None
    }
}

fn text_eq(a: &str, b: &str) -> (r: bool)
    ensures
        r == (a@ == b@),
{
    slice_eq(&chars_of(a), &chars_of(b))
}

/// Validates a manifest for this platform and provider, given how the platform parses
/// the executable name.
pub fn validate_manifest_with(
    manifest: &WorkerBundleManifest,
    os: &str,
    arch: &str,
    provider_id: &str,
    provider_version: &str,
    executable_absolute: bool,
    executable_components: &Vec<NativeComponent>,
) -> (r: Result<(), WorkerBundleError>)
    ensures
        match manifest_error(*manifest, os@, arch@, provider_id@, provider_version@, executable_absolute, executable_components@) {
            None => r is Ok,
            Some(field) => r == Err::<(), WorkerBundleError>(WorkerBundleError::InvalidManifest(field)),
        },
{
    if manifest.schema != WORKER_BUNDLE_SCHEMA {
        return Err(WorkerBundleError::InvalidManifest("schema"));
    }
    if !text_eq(manifest.platform.as_str(), os) {
        return Err(WorkerBundleError::InvalidManifest("platform"));
    }
    if !text_eq(manifest.architecture.as_str(), arch) {
        return Err(WorkerBundleError::InvalidManifest("architecture"));
    }
    if !text_eq(manifest.provider_id.as_str(), provider_id) || !text_eq(manifest.provider_version.as_str(), provider_version) {
        return Err(WorkerBundleError::InvalidManifest("provider identity"));
    }
    let empty = chars_of(manifest.executable.as_str()).len() == 0;
    let single_normal = executable_components.len() == 1 && match &executable_components[0] {
        NativeComponent::Normal(_) => true,
        _ => false,
    };
    if empty || executable_absolute || !single_normal {
        return Err(WorkerBundleError::InvalidManifest("executable name"));
    }
    if !crate::worker_client::is_lower_sha256_exec(manifest.sha256.as_str()) {
        return Err(WorkerBundleError::InvalidManifest("SHA-256"));
    }
    Ok(())
}

/// Validates a manifest with this platform's path rules for the executable name. How the
/// platform parses a path is its own, so the name check is stated over what it gave: a
/// name taken as absolute begins with a root or prefix, and a plain name splits into its
/// documented components.
pub fn validate_manifest(
    manifest: &WorkerBundleManifest,
    os: &str,
    arch: &str,
    provider_id: &str,
    provider_version: &str,
) -> (r: Result<(), WorkerBundleError>)
    ensures
        exists|absolute: bool, components: Seq<NativeComponent>|
            (absolute ==> crate::platform::rooted_text(manifest.executable@)) && (crate::platform::plain_path(
                manifest.executable@,
            ) ==> crate::events::path_key(components) == crate::platform::plain_key(manifest.executable@))
                && match #[trigger] manifest_error(*manifest, os@, arch@, provider_id@, provider_version@, absolute, components) {
                None => r is Ok,
                Some(field) => r == Err::<(), WorkerBundleError>(WorkerBundleError::InvalidManifest(field)),
            },
{
    let absolute = is_absolute_path(manifest.executable.as_str());
    let components = native_components(manifest.executable.as_str());
    let r = validate_manifest_with(manifest, os, arch, provider_id, provider_version, absolute, &components);
    assert(match manifest_error(*manifest, os@, arch@, provider_id@, provider_version@, absolute, components@) {
        None => r is Ok,
        Some(field) => r == Err::<(), WorkerBundleError>(WorkerBundleError::InvalidManifest(field)),
    });
    r
}

/// A fixture path stays under its root: not empty, not absolute, and only normal
/// components (no root, prefix, `.` or `..`).
pub open spec fn relative_fixture_path(path: Seq<char>, absolute: bool, components: Seq<NativeComponent>) -> bool {
    &&& path.len() > 0
    &&& !absolute
    &&& forall|i: int| 0 <= i < components.len() ==> (#[trigger] components[i]) is Normal
}

/// Checks a fixture path, given how the platform parses it.
pub fn validate_relative_with(path: &str, absolute: bool, components: &Vec<NativeComponent>) -> (r: Result<(), String>)
    ensures
        r is Ok <==> relative_fixture_path(path@, absolute, components@),
        r matches Err(m) ==> m@ == "fixture paths must contain only relative normal components"@,
{
    let empty = chars_of(path).len() == 0;
    let mut all_normal = true;
    let mut i: usize = 0;
    while i < components.len()
        invariant
            i <= components@.len(),
            all_normal == forall|j: int| 0 <= j < i ==> (#[trigger] components@[j]) is Normal,
        decreases components@.len() - i,
    {
        match &components[i] {
            NativeComponent::Normal(_) => {},
            _ => {
                all_normal = false;
            },
        }
        i = i + 1;
    }
    if empty || absolute || !all_normal {
        return Err(string_from(&chars_of("fixture paths must contain only relative normal components")));
    }
    Ok(())
}

/// Checks a fixture path with this platform's path rules: a path taken as absolute begins
/// with a root or prefix, and a plain path splits into its documented components.
pub fn validate_relative(path: &str) -> (r: Result<(), String>)
    ensures
        path@.len() == 0 ==> r is Err,
        exists|absolute: bool, components: Seq<NativeComponent>|
            (absolute ==> crate::platform::rooted_text(path@)) && (crate::platform::plain_path(path@)
                ==> crate::events::path_key(components) == crate::platform::plain_key(path@)) && (r is Ok
                <==> #[trigger] relative_fixture_path(path@, absolute, components)),
        r matches Err(m) ==> m@ == "fixture paths must contain only relative normal components"@,
{
    let absolute = is_absolute_path(path);
    let components = native_components(path);
    let r = validate_relative_with(path, absolute, &components);
    assert(r is Ok <==> relative_fixture_path(path@, absolute, components@));
    r
}

} // verus!
