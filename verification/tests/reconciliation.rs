use asset_library::reconciliation::{
    check_relink_asset, check_relink_sidecar, is_asset_sidecar_name, mark_ambiguity, orphan_diagnostic,
    sidecar_asset_name, OrphanRead, OrphanSidecarState, ReconciliationError, RelinkCandidate, RelinkSidecarRead,
    CHANGED_ASSET_MESSAGE, CHANGED_SIDECAR_MESSAGE, MISSING_FINGERPRINT_MESSAGE, REMOVED_FINGERPRINT_MESSAGE,
};

fn candidate(id: u128) -> RelinkCandidate {
    RelinkCandidate {
        candidate_id: id,
        root_id: 1,
        sidecar_id: 9,
        sidecar_path: "/r/old.png.asset.yml".into(),
        sidecar_digest: "digest".into(),
        asset_key: "/r/new.png".into(),
        asset_path: "/r/new.png".into(),
        size: 68,
        quick_fingerprint: None,
        sha256: "abc".into(),
        ambiguous: false,
    }
}

#[test]
fn sidecar_names_map_to_their_asset() {
    assert!(is_asset_sidecar_name("photo.png.asset.yml"));
    assert!(!is_asset_sidecar_name("photo.png"));
    assert_eq!(sidecar_asset_name("photo.png.asset.yml"), "photo.png");
    assert_eq!(sidecar_asset_name("x.asset.yml.asset.yml"), "x");
    assert_eq!(sidecar_asset_name("plain.txt"), "plain.txt");
}

#[test]
fn orphan_sidecars_are_classified_without_guessing() {
    let ready = orphan_diagnostic("/s".into(), "/a".into(), OrphanRead::Read { id: 4, has_fingerprint: true }, 2);
    assert_eq!(ready.state, OrphanSidecarState::Ready);
    assert_eq!(ready.candidate_count, 2);
    assert_eq!(ready.sidecar_id, Some(4));
    let bare = orphan_diagnostic("/s".into(), "/a".into(), OrphanRead::Read { id: 4, has_fingerprint: false }, 2);
    assert_eq!(bare.state, OrphanSidecarState::MissingFingerprint);
    assert_eq!(bare.candidate_count, 0);
    assert_eq!(bare.message.as_deref(), Some(MISSING_FINGERPRINT_MESSAGE));
    let broken = orphan_diagnostic("/s".into(), "/a".into(), OrphanRead::Failed("bad yaml".into()), 2);
    assert_eq!(broken.state, OrphanSidecarState::Invalid);
    assert_eq!(broken.sidecar_id, None);
    assert_eq!(broken.message.as_deref(), Some("bad yaml"));
}

#[test]
fn several_candidates_are_all_ambiguous() {
    let mut one = vec![candidate(1)];
    mark_ambiguity(&mut one);
    assert!(!one[0].ambiguous);
    let mut two = vec![candidate(1), candidate(2)];
    mark_ambiguity(&mut two);
    assert!(two.iter().all(|c| c.ambiguous));
    assert_eq!(two[1].candidate_id, 2);
}

#[test]
fn relinks_are_revalidated_before_any_move() {
    let c = candidate(1);
    let fresh = RelinkSidecarRead::Read {
        id: 9,
        digest: "digest".into(),
        fingerprint: Some(("abc".into(), 68)),
    };
    let fingerprint = check_relink_sidecar(&c, fresh).expect("still the displayed Sidecar");
    assert_eq!(fingerprint, ("abc".to_owned(), 68));
    assert_eq!(check_relink_asset(&c, &fingerprint, true), Ok(()));
    assert_eq!(
        check_relink_asset(&c, &fingerprint, false),
        Err(ReconciliationError::Stale(CHANGED_ASSET_MESSAGE.into()))
    );
    assert_eq!(
        check_relink_asset(&c, &("abd".to_owned(), 68), true),
        Err(ReconciliationError::Stale(CHANGED_ASSET_MESSAGE.into()))
    );
    let edited = RelinkSidecarRead::Read {
        id: 9,
        digest: "other".into(),
        fingerprint: Some(("abc".into(), 68)),
    };
    assert_eq!(check_relink_sidecar(&c, edited), Err(ReconciliationError::Stale(CHANGED_SIDECAR_MESSAGE.into())));
    let stripped = RelinkSidecarRead::Read {
        id: 9,
        digest: "digest".into(),
        fingerprint: None,
    };
    assert_eq!(
        check_relink_sidecar(&c, stripped),
        Err(ReconciliationError::Stale(REMOVED_FINGERPRINT_MESSAGE.into()))
    );
    assert_eq!(
        check_relink_sidecar(&c, RelinkSidecarRead::Failed("gone".into())),
        Err(ReconciliationError::Stale("gone".into()))
    );
    assert_eq!(
        ReconciliationError::Io { path: "/x".into(), message: "denied".into() }.message(),
        "relink file operation failed at /x: denied"
    );
    assert_eq!(ReconciliationError::Stale("s".into()).message(), "relink candidate is stale: s");
}
