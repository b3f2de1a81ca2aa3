use asset_library::library::{
    access_status_for, add_root_to, ensure_no_overlap, normalize_ignore, normalize_name, overlap_kind,
    remove_root_from, root_for_request, update_root_in, validate_config, AddLibraryRoot, IoFailureKind,
    LibraryConfig, LibraryRoot, LibraryRootError, RootAccessStatus, RootOverlapKind, RootProbe,
    RootScanSettings, UpdateLibraryRoot,
};
use asset_library::platform::{PathRelation, PlatformFamily};

fn root(id: u128, path: &str) -> LibraryRoot {
    LibraryRoot {
        id,
        path: path.into(),
        name: format!("root {id}"),
        enabled: true,
        scan: RootScanSettings::default(),
    }
}

#[test]
fn names_are_trimmed_and_bounded() {
    assert_eq!(normalize_name("  Photos ").expect("name"), "Photos");
    assert_eq!(normalize_name("   "), Err(LibraryRootError::InvalidName(String::new())));
    assert!(normalize_name(&"x".repeat(128)).is_ok());
    assert!(normalize_name(&"x".repeat(129)).is_err());
}

#[test]
fn ignore_rules_become_a_sorted_set() {
    let rules = vec![" *.tmp ".to_string(), "cache/".into(), "*.tmp".into(), "Build".into()];
    assert_eq!(
        normalize_ignore(&rules).expect("rules"),
        vec!["*.tmp".to_string(), "Build".into(), "cache/".into()]
    );
    assert_eq!(
        normalize_ignore(&vec!["ok".into(), " ".into()]),
        Err(LibraryRootError::InvalidIgnore("rules cannot be empty".into()))
    );
}

#[test]
fn overlapping_roots_are_refused_with_their_kind() {
    assert_eq!(overlap_kind(PathRelation::Same), Some(RootOverlapKind::Duplicate));
    assert_eq!(overlap_kind(PathRelation::Descendant), Some(RootOverlapKind::InsideExisting));
    assert_eq!(overlap_kind(PathRelation::Ancestor), Some(RootOverlapKind::ContainsExisting));
    assert_eq!(overlap_kind(PathRelation::Distinct), None);
    let existing = vec![root(1, "/library/photos")];
    assert!(ensure_no_overlap("/library/video", &existing, 1, PlatformFamily::Linux).is_ok());
    match ensure_no_overlap("/library/photos/2024", &existing, 1, PlatformFamily::Linux) {
        Err(LibraryRootError::Overlap { kind, existing_path, .. }) => {
            assert_eq!(kind, RootOverlapKind::InsideExisting);
            assert_eq!(existing_path, "/library/photos");
        }
        other => panic!("unexpected {other:?}"),
    }
    assert!(matches!(
        ensure_no_overlap("/library", &existing, 1, PlatformFamily::Linux),
        Err(LibraryRootError::Overlap { kind: RootOverlapKind::ContainsExisting, .. })
    ));
}

#[test]
fn configurations_keep_their_rules() {
    let mut config = LibraryConfig::empty();
    let added = root_for_request(
        &AddLibraryRoot {
            path: "/ignored".into(),
            name: " Photos ".into(),
            ignore: vec!["b".into(), "a".into()],
        },
        7,
        "/library/photos".into(),
    )
    .expect("root");
    assert_eq!(added.name, "Photos");
    assert_eq!(added.scan.ignore, vec!["a".to_string(), "b".into()]);
    assert!(added.enabled && added.scan.recursive && !added.scan.follow_symlinks);
    add_root_to(&mut config, added, PlatformFamily::Linux).expect("add");
    assert!(validate_config(&config, PlatformFamily::Linux).is_ok());

    let duplicate = root(8, "/library/photos");
    assert!(add_root_to(&mut config, duplicate, PlatformFamily::Linux).is_err());
    assert_eq!(config.roots.len(), 1);

    let at = update_root_in(
        &mut config,
        UpdateLibraryRoot {
            id: 7,
            name: Some(" Pictures ".into()),
            enabled: Some(false),
            ignore: None,
        },
    )
    .expect("update");
    assert_eq!(config.roots[at].name, "Pictures");
    assert!(!config.roots[at].enabled);
    assert_eq!(config.roots[at].path, "/library/photos");
    assert_eq!(
        update_root_in(
            &mut config,
            UpdateLibraryRoot { id: 9, name: None, enabled: None, ignore: None }
        ),
        Err(LibraryRootError::NotFound(9))
    );
    assert!(update_root_in(
        &mut config,
        UpdateLibraryRoot { id: 7, name: Some(" ".into()), enabled: Some(true), ignore: None }
    )
    .is_err());
    assert!(!config.roots[0].enabled);

    assert_eq!(remove_root_from(&mut config, 7).expect("remove").id, 7);
    assert!(config.roots.is_empty());
    assert_eq!(remove_root_from(&mut config, 7), Err(LibraryRootError::NotFound(7)));
}

#[test]
fn invalid_configurations_are_refused() {
    let mut config = LibraryConfig::empty();
    config.schema = 2;
    assert_eq!(
        validate_config(&config, PlatformFamily::Linux),
        Err(LibraryRootError::InvalidConfig("unsupported schema 2".into()))
    );
    let mut twice = LibraryConfig::empty();
    twice.roots = vec![root(1, "/a"), root(1, "/b")];
    assert!(matches!(validate_config(&twice, PlatformFamily::Linux), Err(LibraryRootError::InvalidConfig(_))));
    let mut following = LibraryConfig::empty();
    let mut r = root(1, "/a");
    r.scan.follow_symlinks = true;
    following.roots = vec![r];
    assert_eq!(
        validate_config(&following, PlatformFamily::Linux),
        Err(LibraryRootError::InvalidConfig("root /a enables forbidden symlink traversal".into()))
    );
    let mut nested = LibraryConfig::empty();
    nested.roots = vec![root(1, "/a"), root(2, "/a/b")];
    assert!(matches!(validate_config(&nested, PlatformFamily::Linux), Err(LibraryRootError::Overlap { .. })));
    let mut relative = LibraryConfig::empty();
    relative.roots = vec![root(1, "relative")];
    assert_eq!(
        validate_config(&relative, PlatformFamily::Linux),
        Err(LibraryRootError::InvalidPath("relative".into()))
    );
}

#[test]
fn probes_map_to_access_statuses() {
    assert_eq!(access_status_for(RootProbe::Listed), RootAccessStatus::Available);
    assert_eq!(access_status_for(RootProbe::NotDirectory), RootAccessStatus::NotDirectory);
    assert_eq!(
        access_status_for(RootProbe::MetadataFailed(IoFailureKind::NotFound)),
        RootAccessStatus::Missing
    );
    assert_eq!(
        access_status_for(RootProbe::ListingFailed(IoFailureKind::PermissionDenied)),
        RootAccessStatus::PermissionDenied
    );
    assert_eq!(
        access_status_for(RootProbe::ListingFailed(IoFailureKind::Other)),
        RootAccessStatus::Unavailable
    );
    assert_eq!(RootAccessStatus::PermissionDenied.label(), "permission-denied");
    assert_eq!(RootOverlapKind::InsideExisting.label(), "is inside");
}

#[test]
fn identical_paths_are_duplicates_and_no_roots_refuse_nothing() {
    let existing = vec![root(1, "relative/photos")];
    assert!(ensure_no_overlap("anything", &existing, 0, PlatformFamily::Linux).is_ok());
    assert!(matches!(
        ensure_no_overlap("relative/photos", &existing, 1, PlatformFamily::Windows),
        Err(LibraryRootError::Overlap { kind: RootOverlapKind::Duplicate, .. })
    ));
    let mut config = LibraryConfig::empty();
    assert!(validate_config(&config, PlatformFamily::Linux).is_ok());
    add_root_to(&mut config, root(2, "/first"), PlatformFamily::MacOs).expect("first root");
    assert_eq!(config.roots.len(), 1);
}

#[test]
fn add_requests_fail_on_their_first_invalid_field() {
    let request = |name: &str, ignore: Vec<String>| AddLibraryRoot { path: "/x".into(), name: name.into(), ignore };
    assert_eq!(
        root_for_request(&request("  ", vec![" ".into()]), 1, "/x".into()),
        Err(LibraryRootError::InvalidName(String::new()))
    );
    assert_eq!(
        root_for_request(&request("Photos", vec![" ".into()]), 1, "/x".into()),
        Err(LibraryRootError::InvalidIgnore("rules cannot be empty".into()))
    );
    assert!(root_for_request(&request("Photos", vec![]), 1, "/x".into()).is_ok());
}
