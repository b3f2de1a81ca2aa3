use asset_library::bundle::{validate_manifest, validate_relative, WorkerBundleError, WorkerBundleManifest};
use asset_library::heif_backend::{
    check_source_snapshot, describe_primary_image, fit_dimensions, heif_failure, pack_rows, plane_layout,
    png_payload, restrict_u32, restrict_u64, security_limits_for, unix_nanoseconds, validate_dimensions,
    BoundedWriter, HeifErrorCodeKind, HeifErrorSubCodeKind, SecurityLimits,
};
use asset_library::protocol::{
    HeifProperties, NativePath, PngPayload, WorkerErrorCode, WorkerLimits, WorkerOperation, WorkerOutcome,
    WorkerRequest, WorkerResponseHeader,
};
use asset_library::worker_client::{
    exit_status, interpret_response, redact_diagnostic, redact_message, replace_all, response_capture_limit,
    validate_png, validate_spec_with, WorkerClient, WorkerRunError, WorkerSpec, WorkerSuccess,
};

const ABC_SHA256: &str = "ba7816bf8f01cfea414140de5dae2223b00361a396177a9cb410ff61f20015ad";

#[test]
fn fitting_dimensions_never_upscales_and_preserves_a_nonzero_edge() {
    assert_eq!(fit_dimensions(16, 8, 32), (16, 8));
    assert_eq!(fit_dimensions(4_000, 2_000, 1_000), (1_000, 500));
    assert_eq!(fit_dimensions(1, 4_000, 16), (1, 16));
}

#[test]
fn bounded_writer_rejects_before_exceeding_its_allocation() {
    let mut writer = BoundedWriter::new(4).expect("writer");
    assert_eq!(writer.write(b"1234").expect("write"), 4);
    assert!(writer.write(b"5").is_err());
    assert_eq!(writer.bytes(), b"1234");
    assert!(writer.overflowed());
}

#[test]
fn zero_defaults_are_replaced_instead_of_disabling_security_limits() {
    assert_eq!(restrict_u64(0, 256), 256);
    assert_eq!(restrict_u64(128, 256), 128);
    assert_eq!(restrict_u32(0, 1_024), 1_024);
    assert_eq!(restrict_u32(2_048, 1_024), 1_024);
}

#[test]
fn reference_export_paths_cannot_escape_the_fixture_root() {
    assert!(validate_relative("sources/avif/example.avif").is_ok());
    for path in ["", "../example.avif", "a/../b.png"] {
        assert!(validate_relative(path).is_err(), "{path}");
    }
    assert!(validate_relative("/tmp/example.avif").is_err());
}

fn limits(max_edge: Option<u32>) -> WorkerLimits {
    WorkerLimits {
        max_edge,
        max_source_dimension: 1_000,
        max_decode_bytes: 4_000_000,
        max_output_bytes: 1_000,
        timeout_ms: 1_000,
    }
}

fn request(operation: WorkerOperation, max_edge: Option<u32>) -> WorkerRequest {
    WorkerRequest {
        schema: 1,
        request_id: 0x0198_e8c0_7451_7af1_8bca_0123_4567_89ab,
        provider_id: "libheif".into(),
        provider_version: "1.23.1".into(),
        operation,
        source_path: NativePath::Utf8("/library/a.heic".into()),
        source_size: 10,
        source_modified_unix_ns: 20,
        limits: limits(max_edge),
    }
}

fn properties() -> HeifProperties {
    HeifProperties {
        width: 640,
        height: 480,
        orientation: Some(1),
        color_space: None,
        has_alpha: Some(false),
        image_count: 1,
    }
}

fn header(request: &WorkerRequest, outcome: WorkerOutcome) -> WorkerResponseHeader {
    WorkerResponseHeader {
        schema: 1,
        request_id: request.request_id,
        provider_id: request.provider_id.clone(),
        provider_version: request.provider_version.clone(),
        outcome,
    }
}

fn tiny_png(width: u32, height: u32) -> Vec<u8> {
    let mut png = b"\x89PNG\r\n\x1a\n\0\0\0\x0dIHDR".to_vec();
    png.extend_from_slice(&width.to_be_bytes());
    png.extend_from_slice(&height.to_be_bytes());
    png.extend_from_slice(b"rest");
    png
}

#[test]
fn dimensions_are_bounded_by_the_request() {
    let r = request(WorkerOperation::Metadata, None);
    assert!(validate_dimensions(&r, 1_000, 1_000).is_ok());
    assert_eq!(
        validate_dimensions(&r, 0, 10).expect_err("zero").code,
        WorkerErrorCode::ResourceLimited
    );
    assert!(validate_dimensions(&r, 1_001, 10).is_err());
    let mut small = r.clone();
    small.limits.max_decode_bytes = 400;
    assert!(validate_dimensions(&small, 10, 10).is_ok());
    assert!(validate_dimensions(&small, 10, 11).is_err());
}

#[test]
fn primary_image_description_prefers_nclx_and_bounds_the_image_count() {
    let r = request(WorkerOperation::Metadata, None);
    let p = describe_primary_image(&r, 640, 480, 2, true, true, true).expect("ok");
    assert_eq!(p.color_space.as_deref(), Some("nclx"));
    assert_eq!(p.orientation, Some(1));
    assert_eq!(p.image_count, 2);
    let icc = describe_primary_image(&r, 640, 480, 1, false, true, false).expect("ok");
    assert_eq!(icc.color_space.as_deref(), Some("icc"));
    assert_eq!(icc.has_alpha, Some(false));
    assert!(describe_primary_image(&r, 640, 480, 1, false, false, false).expect("ok").color_space.is_none());
    assert!(describe_primary_image(&r, 640, 480, 0, false, false, false).is_err());
    assert!(describe_primary_image(&r, 640, 480, 1_025, false, false, false).is_err());
}

#[test]
fn security_limits_are_tightened_to_the_request() {
    let existing = SecurityLimits {
        max_image_size_pixels: 0,
        max_memory_block_size: 10,
        max_total_memory: u64::MAX,
        max_color_profile_size: 0,
        max_items: 5,
        max_number_of_tiles: 1_000_000,
    };
    let tightened = security_limits_for(existing, &limits(None));
    assert_eq!(tightened.max_image_size_pixels, 1_000_000);
    assert_eq!(tightened.max_memory_block_size, 10);
    assert_eq!(tightened.max_total_memory, 4_000_000);
    assert_eq!(tightened.max_color_profile_size, 1_048_576);
    assert_eq!(tightened.max_items, 5);
    assert_eq!(tightened.max_number_of_tiles, 65_536);
}

#[test]
fn planes_are_packed_without_row_padding() {
    assert_eq!(plane_layout(2, 3, true).expect("layout"), (8, 24));
    assert_eq!(plane_layout(2, 3, false).expect("layout"), (6, 18));
    let data = [1, 2, 9, 3, 4, 9];
    assert_eq!(pack_rows(&data, 3, 2, 2).expect("packed"), vec![1, 2, 3, 4]);
    assert_eq!(
        pack_rows(&data, 2, 2, 3).expect_err("short stride").code,
        WorkerErrorCode::DecodeFailed
    );
    assert!(pack_rows(&data, 3, 3, 2).is_err());
}

#[test]
fn decoder_failures_map_to_stable_codes() {
    assert_eq!(
        heif_failure(HeifErrorCodeKind::InvalidInput, HeifErrorSubCodeKind::SecurityLimitExceeded).code,
        WorkerErrorCode::ResourceLimited
    );
    assert_eq!(
        heif_failure(HeifErrorCodeKind::Other, HeifErrorSubCodeKind::UnsupportedCodec).code,
        WorkerErrorCode::CodecUnavailable
    );
    assert_eq!(
        heif_failure(HeifErrorCodeKind::UnsupportedFileType, HeifErrorSubCodeKind::Other).code,
        WorkerErrorCode::InvalidContent
    );
    assert_eq!(
        heif_failure(HeifErrorCodeKind::InputDoesNotExist, HeifErrorSubCodeKind::Other).code,
        WorkerErrorCode::Unreadable
    );
    assert_eq!(
        heif_failure(HeifErrorCodeKind::DecoderPluginError, HeifErrorSubCodeKind::Other).code,
        WorkerErrorCode::DecodeFailed
    );
}

#[test]
fn snapshots_and_times_are_compared_exactly() {
    let r = request(WorkerOperation::Metadata, None);
    assert!(check_source_snapshot(&r, true, 10, 20).is_ok());
    assert_eq!(
        check_source_snapshot(&r, true, 11, 20).expect_err("size").code,
        WorkerErrorCode::SourceChanged
    );
    assert!(check_source_snapshot(&r, false, 10, 20).is_err());
    assert_eq!(unix_nanoseconds(false, 5), 5);
    assert_eq!(unix_nanoseconds(true, 5), -5);
    assert_eq!(unix_nanoseconds(false, u128::MAX), i128::MAX);
}

#[test]
fn png_payload_describes_length_and_digest() {
    let payload = png_payload(b"abc", 3, 4);
    assert_eq!(payload.byte_length, 3);
    assert_eq!(payload.sha256, ABC_SHA256);
    assert_eq!((payload.width, payload.height), (3, 4));
}

#[test]
fn png_validation_checks_signature_header_and_digest() {
    let png = tiny_png(2, 3);
    let payload = png_payload(&png, 2, 3);
    assert!(validate_png(&png, &payload).is_ok());
    let wrong_size = PngPayload { width: 3, ..payload.clone() };
    assert_eq!(validate_png(&png, &wrong_size), Err(WorkerRunError::InvalidPng));
    let wrong_digest = PngPayload { sha256: ABC_SHA256.into(), ..payload.clone() };
    assert!(validate_png(&png, &wrong_digest).is_err());
    assert!(validate_png(&png[..20], &payload).is_err());
}

#[test]
fn responses_are_judged_against_their_request() {
    let metadata = request(WorkerOperation::Metadata, None);
    let ready = header(&metadata, WorkerOutcome::Ready { properties: properties(), payload: None });
    assert_eq!(
        interpret_response(&metadata, ready.clone(), Vec::new(), "/library/a.heic"),
        Ok(WorkerSuccess { properties: properties(), png: None })
    );
    let mut stranger = ready.clone();
    stranger.request_id += 1;
    assert_eq!(
        interpret_response(&metadata, stranger, Vec::new(), ""),
        Err(WorkerRunError::IdentityMismatch)
    );
    let mut large = properties();
    large.width = 1_001;
    assert_eq!(
        interpret_response(
            &metadata,
            header(&metadata, WorkerOutcome::Ready { properties: large, payload: None }),
            Vec::new(),
            ""
        ),
        Err(WorkerRunError::ResourceLimitViolation)
    );
    assert_eq!(
        interpret_response(&metadata, ready, vec![1], ""),
        Err(WorkerRunError::InvalidPng)
    );

    let thumbnail = request(WorkerOperation::Thumbnail, Some(4));
    let png = tiny_png(2, 3);
    let payload = png_payload(&png, 2, 3);
    let answer = header(
        &thumbnail,
        WorkerOutcome::Ready { properties: properties(), payload: Some(payload.clone()) },
    );
    assert_eq!(
        interpret_response(&thumbnail, answer, png.clone(), ""),
        Ok(WorkerSuccess { properties: properties(), png: Some(png.clone()) })
    );
    let too_wide = header(
        &request(WorkerOperation::Thumbnail, Some(1)),
        WorkerOutcome::Ready { properties: properties(), payload: Some(payload) },
    );
    assert_eq!(
        interpret_response(&request(WorkerOperation::Thumbnail, Some(1)), too_wide, png, ""),
        Err(WorkerRunError::InvalidPng)
    );

    let failed = header(
        &metadata,
        WorkerOutcome::Error {
            code: WorkerErrorCode::Unreadable,
            message: "cannot read /library/a.heic now".into(),
        },
    );
    assert_eq!(
        interpret_response(&metadata, failed, Vec::new(), "/library/a.heic"),
        Err(WorkerRunError::Worker {
            code: WorkerErrorCode::Unreadable,
            message: "cannot read <source> now".into(),
        })
    );
}

#[test]
fn redaction_replaces_every_occurrence_and_bounds_diagnostics() {
    let replaced: String = replace_all(
        &"aaa".chars().collect::<Vec<_>>(),
        &"aa".chars().collect::<Vec<_>>(),
        &"b".chars().collect::<Vec<_>>(),
    )
    .into_iter()
    .collect();
    assert_eq!(replaced, "ba");
    assert_eq!(redact_message("x /s y /s".into(), "/s"), "x <source> y <source>");
    assert_eq!(redact_message("keep".into(), ""), "keep");
    assert_eq!(redact_diagnostic(b"  error at /src/a.heic  ", "/src/a.heic", 64), "error at <source>");
    assert_eq!(redact_diagnostic("é1234".as_bytes(), "", 1), "");
    assert_eq!(redact_diagnostic("ab é".as_bytes(), "", 4), "ab");
}

#[test]
fn worker_specifications_are_bounded() {
    let spec = WorkerSpec::new(
        "/opt/worker".into(),
        "/opt".into(),
        ABC_SHA256.into(),
        "libheif".into(),
        "1.23.1".into(),
    );
    assert!(validate_spec_with(&spec, true, true).is_ok());
    assert_eq!(
        validate_spec_with(&spec, false, true),
        Err(WorkerRunError::InvalidConfiguration("worker spec"))
    );
    let mut upper = spec.clone();
    upper.expected_sha256 = ABC_SHA256.to_uppercase();
    assert!(validate_spec_with(&upper, true, true).is_err());
    let mut slow = spec.clone();
    slow.timeout_ms = 10_001;
    assert!(validate_spec_with(&slow, true, true).is_err());
    assert_eq!(response_capture_limit(&spec), Ok(4 + 65_536 + 33_554_432));

    let client = WorkerClient::bind(spec.clone(), "/opt/worker".into(), "/opt".into(), true, true, true, true, ABC_SHA256)
        .expect("client");
    assert_eq!(client.provider_id(), "libheif");
    assert_eq!(client.provider_version(), "1.23.1");
    assert!(client.check_executable_digest(ABC_SHA256).is_ok());
    assert_eq!(
        client.check_executable_digest("00").expect_err("changed"),
        WorkerRunError::ExecutableChanged
    );
    assert_eq!(
        WorkerClient::bind(spec.clone(), "/opt/worker".into(), "/opt".into(), true, false, true, true, ABC_SHA256)
            .expect_err("not a file"),
        WorkerRunError::InvalidConfiguration("worker paths")
    );
    assert_eq!(exit_status(None), "terminated-by-signal");
    assert_eq!(exit_status(Some(3)), "code-3");
    assert_eq!(exit_status(Some(-2)), "code--2");
}

#[test]
fn manifests_name_one_leaf_executable_and_a_lower_case_digest() {
    let manifest = WorkerBundleManifest {
        schema: 1,
        platform: "linux".into(),
        architecture: "x86_64".into(),
        provider_id: "libheif".into(),
        provider_version: "1.23.1".into(),
        executable: "format-worker".into(),
        sha256: ABC_SHA256.into(),
    };
    assert!(validate_manifest(&manifest, "linux", "x86_64", "libheif", "1.23.1").is_ok());
    assert_eq!(
        validate_manifest(&manifest, "macos", "x86_64", "libheif", "1.23.1"),
        Err(WorkerBundleError::InvalidManifest("platform"))
    );
    let nested = WorkerBundleManifest { executable: "bin/worker".into(), ..manifest.clone() };
    assert_eq!(
        validate_manifest(&nested, "linux", "x86_64", "libheif", "1.23.1"),
        Err(WorkerBundleError::InvalidManifest("executable name"))
    );
    let digest = WorkerBundleManifest { sha256: "AB".into(), ..manifest };
    assert_eq!(
        validate_manifest(&digest, "linux", "x86_64", "libheif", "1.23.1"),
        Err(WorkerBundleError::InvalidManifest("SHA-256"))
    );
}
