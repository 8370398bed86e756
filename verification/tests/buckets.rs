use aresadb::storage::bucket::{
    allows_http, emulator_service_account_json, normalize_gcs_emulator_url, BucketError,
    BucketStorage, Provider,
};

#[test]
fn normalize_appends_storage_v1_when_missing() {
    assert_eq!(
        normalize_gcs_emulator_url("http://localhost:4443"),
        "http://localhost:4443/storage/v1/b"
    );
    assert_eq!(
        normalize_gcs_emulator_url("http://localhost:4443/"),
        "http://localhost:4443/storage/v1/b"
    );
}

#[test]
fn normalize_keeps_storage_v1_when_present() {
    assert_eq!(
        normalize_gcs_emulator_url("http://localhost:4443/storage/v1/b"),
        "http://localhost:4443/storage/v1/b"
    );
}

#[test]
fn emulator_json_contains_required_fields() {
    let json = emulator_service_account_json("http://localhost:4443/storage/v1/b");
    assert!(json.contains(r#""gcs_base_url":"http://localhost:4443/storage/v1/b""#));
    assert!(json.contains(r#""disable_oauth":true"#));
    assert!(json.contains(r#""client_email""#));
}

#[test]
fn buckets_are_read_off_their_addresses() {
    let s3 = BucketStorage::connect("s3://data/team/db").ok().unwrap();
    assert_eq!(s3.provider, Provider::S3);
    assert_eq!(s3.bucket_name(), "data");
    assert_eq!(s3.base_path(), "team/db");
    assert_eq!(s3.object_path("a.bin"), "team/db/a.bin");
    assert_eq!(s3.relative_path("team/db/a.bin"), "a.bin");
    let gcs = BucketStorage::connect("gs://data").ok().unwrap();
    assert_eq!(gcs.provider, Provider::Gcs);
    assert_eq!(gcs.object_path("a.bin"), "a.bin");
    match BucketStorage::connect("ftp://data") {
        Err(BucketError::UnsupportedUrl) => assert_eq!(
            BucketError::UnsupportedUrl.message(),
            "Unsupported storage URL. Use s3://bucket/path or gs://bucket/path"
        ),
        _ => panic!("Expected an unsupported address"),
    }
    assert!(allows_http("http://localhost:9000"));
    assert!(!allows_http("https://s3.example.com"));
}

#[test]
fn a_readonly_bucket_is_not_written() {
    let mut bucket = BucketStorage::connect("s3://data/db").ok().unwrap();
    assert!(bucket.check_writable().is_ok());
    bucket.set_readonly(true);
    match bucket.check_writable() {
        Err(e) => assert_eq!(e.message(), "Cannot write to readonly bucket"),
        Ok(()) => panic!("Expected a refusal"),
    }
}

#[test]
fn files_are_synced_towards_the_newer() {
    let bucket = BucketStorage::connect("s3://data/db").ok().unwrap();
    let file = |name: &str, time: i128| (name.to_string(), time);
    let local = vec![file("both_old", 1), file("only_local", 5), file("both_new", 9)];
    let remote = vec![file("both_old", 2), file("both_new", 3), file("only_remote", 1)];
    let plan = bucket.sync_with_local(&local, &remote);
    assert_eq!(plan.uploads, vec![1, 2]);
    assert_eq!(plan.downloads, vec![0, 2]);
}
