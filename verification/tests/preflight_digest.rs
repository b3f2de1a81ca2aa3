use asset_library::batch::{confirmation_digest, DigestTarget};
use sha2::{Digest, Sha256};
use uuid::Uuid;

fn expected(operation_id: Uuid, snapshot_id: Uuid, revision: u64, requested: usize, patch: &str, targets: &[DigestTarget]) -> String {
    let mut digest = Sha256::new();
    digest.update(b"material-eagle-batch-preflight-v1\0");
    digest.update(operation_id.as_bytes());
    digest.update(snapshot_id.as_bytes());
    digest.update(revision.to_le_bytes());
    digest.update(requested.to_le_bytes());
    digest.update(patch.as_bytes());
    for target in targets {
        digest.update(target.key.as_bytes());
        digest.update([0]);
        digest.update(Uuid::from_u128(target.root_id).as_bytes());
        digest.update(target.source_digest.as_bytes());
        if let Some((sidecar_digest, size, modified)) = &target.sidecar {
            digest.update(sidecar_digest.as_bytes());
            digest.update(size.to_le_bytes());
            digest.update(modified.to_le_bytes());
        }
    }
    format!("{:x}", digest.finalize())
}

#[test]
fn confirmation_digests_cover_the_plan_and_every_target() {
    let operation = Uuid::from_u128(0x0123_4567_89ab_cdef_0011_2233_4455_6677);
    let snapshot = Uuid::from_u128(42);
    let targets = vec![
        DigestTarget { key: "/r/a.png".into(), root_id: 7, source_digest: "aa".into(), sidecar: None },
        DigestTarget {
            key: "/r/b.png".into(),
            root_id: 7,
            source_digest: "bb".into(),
            sidecar: Some(("cc".into(), 120, -5)),
        },
    ];
    let patch = "MetadataPatch { favorite: Some(true) }";
    let digest = confirmation_digest(operation.as_u128(), snapshot.as_u128(), 9, 2, patch, &targets);
    assert_eq!(digest, expected(operation, snapshot, 9, 2, patch, &targets));
    assert_eq!(digest.len(), 64);
    let other = confirmation_digest(operation.as_u128(), snapshot.as_u128(), 10, 2, patch, &targets);
    assert_ne!(digest, other);
}
