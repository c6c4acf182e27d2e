use infino::storage::credentials::{
    aws_credential, azure_credential, current_credential, is_azure_credential_key,
    is_s3_credential_key, AwsCredential, AwsProvider, OptionCells, SharedStorageOptions,
};
use infino::storage::options::{apply, ParsedOption, StorageOptions};
use infino::storage::s3::{
    normalize_prefix, put_if_match, settle_delete, short_read, tail, transient_backoff, translate,
    PutCondition, RangeAction, RangeEvent, RangeRead, S3StorageProvider, TailRequest,
    MAX_SHORT_READ_RETRIES, MAX_TRANSIENT_RETRIES,
};
use infino::storage::StorageError;
use object_store::aws::AmazonS3Builder;
use object_store::Error as ObjError;

fn opts(pairs: &[(&str, &str)]) -> StorageOptions {
    let mut options = StorageOptions::new();
    for (key, value) in pairs {
        options.insert(key, value);
    }
    options
}

// ---- credentials -------------------------------------------------------

#[test]
fn aws_provider_present_only_with_static_credentials() {
    let mut cells = OptionCells::new();
    let cell = SharedStorageOptions::new(
        &mut cells,
        opts(&[("aws_access_key_id", "ak"), ("aws_secret_access_key", "sk")]),
    );
    assert!(cell.aws_provider(&cells).expect("parse").is_some());
    assert!(cell.azure_provider(&cells).expect("parse").is_none());

    // Non-credential options alone → ambient identity, no provider.
    let ambient = SharedStorageOptions::new(&mut cells, opts(&[("aws_region", "us-east-1")]));
    assert!(ambient.aws_provider(&cells).expect("parse").is_none());
}

#[test]
fn partial_s3_credentials_error() {
    let mut cells = OptionCells::new();
    let cell = SharedStorageOptions::new(&mut cells, opts(&[("aws_access_key_id", "ak")]));
    assert!(cell.aws_provider(&cells).is_err());
}

#[test]
fn azure_account_key_validated() {
    let mut cells = OptionCells::new();
    // "a2V5" is valid base64; a bare "key" is not.
    let ok =
        SharedStorageOptions::new(&mut cells, opts(&[("azure_storage_account_key", "a2V5")]));
    assert!(ok.azure_provider(&cells).expect("parse").is_some());

    let bad = SharedStorageOptions::new(
        &mut cells,
        opts(&[("azure_storage_account_key", "not-base64!")]),
    );
    assert!(bad.azure_provider(&cells).is_err());
}

#[test]
fn get_credential_reflects_latest_update() {
    let mut cells = OptionCells::new();
    let cell = SharedStorageOptions::new(
        &mut cells,
        opts(&[("aws_access_key_id", "ak"), ("aws_secret_access_key", "sk")]),
    );
    let provider = cell.aws_provider(&cells).expect("parse").expect("some");
    assert_eq!(provider.get_credential(&cells).expect("cred").key_id, "ak");

    cell.update(&mut cells, &opts(&[("aws_access_key_id", "ak2")])).expect("update");
    // Merge keeps the old secret; the swapped access key is now served.
    assert_eq!(provider.get_credential(&cells).expect("cred").key_id, "ak2");
    assert_eq!(provider.get_credential(&cells).expect("cred").secret_key, "sk");
}

#[test]
fn update_merges_and_rejects_malformed() {
    let mut cells = OptionCells::new();
    let cell = SharedStorageOptions::new(
        &mut cells,
        opts(&[("aws_access_key_id", "ak"), ("aws_secret_access_key", "sk")]),
    );
    // A non-credential key merges cleanly (takes effect on future stores).
    assert!(cell.update(&mut cells, &opts(&[("aws_region", "eu-west-1")])).is_ok());
    // A malformed azure key is rejected; the old options stay live.
    assert!(cell
        .update(&mut cells, &opts(&[("azure_storage_account_key", "not-base64!")]))
        .is_err());
    assert_eq!(cell.snapshot(&cells).get("aws_access_key_id"), Some("ak"));
    assert_eq!(cell.snapshot(&cells).get("aws_region"), Some("eu-west-1"));
    assert_eq!(cell.snapshot(&cells).get("azure_storage_account_key"), None);
}

#[test]
fn every_clone_sees_an_update() {
    let mut cells = OptionCells::new();
    let azure = opts(&[("azure_storage_account_key", "a2V5")]);
    let first = SharedStorageOptions::new(&mut cells, azure);
    let other = SharedStorageOptions::new(&mut cells, opts(&[("aws_region", "us-east-1")]));
    let second = first.clone();
    assert!(first.is_in(&cells) && second.is_in(&cells));
    assert!(!first.is_in(&OptionCells::new()));
    let provider = second.azure_provider(&cells).expect("parse").expect("some");

    first
        .update(&mut cells, &opts(&[("azure_storage_account_key", "bmV3")]))
        .expect("update");
    assert_eq!(second.snapshot(&cells).get("azure_storage_account_key"), Some("bmV3"));
    assert_eq!(provider.get_credential(&cells).expect("cred").account_key, "bmV3");
    assert_eq!(other.snapshot(&cells).len(), 1);

    second
        .update(&mut cells, &opts(&[("azure_storage_account_key", "not-base64!")]))
        .expect_err("malformed");
    assert_eq!(first.snapshot(&cells).get("azure_storage_account_key"), Some("bmV3"));

    let without = other.aws_provider(&cells).expect("parse");
    assert!(without.is_none());
    let unserved = AwsProvider { options: other };
    assert_eq!(
        unserved.get_credential(&cells).expect_err("none"),
        "storage options no longer carry a credential"
    );
}

#[test]
fn credential_key_classification() {
    assert!(is_s3_credential_key("aws_secret_access_key"));
    assert!(is_s3_credential_key("session_token")); // alias
    assert!(!is_s3_credential_key("aws_region"));
    assert!(is_azure_credential_key("account_key")); // alias
    assert!(!is_azure_credential_key("azure_storage_account_name"));
}

#[test]
fn every_alias_of_a_credential_is_known() {
    for key in [
        "aws_access_key_id",
        "access_key_id",
        "aws_secret_access_key",
        "secret_access_key",
        "aws_session_token",
        "aws_token",
        "session_token",
        "token",
    ] {
        assert!(is_s3_credential_key(key), "{key}");
    }
    for key in [
        "azure_storage_account_key",
        "azure_storage_access_key",
        "azure_storage_master_key",
        "master_key",
        "account_key",
        "access_key",
    ] {
        assert!(is_azure_credential_key(key), "{key}");
    }
    assert!(!is_s3_credential_key("AWS_TOKEN"));
    assert!(!is_s3_credential_key("bucket"));
    assert!(!is_azure_credential_key("no_such_key"));
}

#[test]
fn a_session_token_is_served_with_the_keys() {
    let with_token = aws_credential(&opts(&[
        ("access_key_id", "ak"),
        ("secret_access_key", "sk"),
        ("token", "t"),
    ]));
    assert_eq!(
        with_token,
        Ok(Some(AwsCredential {
            key_id: "ak".to_string(),
            secret_key: "sk".to_string(),
            token: Some("t".to_string()),
        }))
    );
    assert!(azure_credential(&opts(&[("access_key", "a2V5")])).expect("parse").is_some());
    assert!(current_credential(aws_credential(&opts(&[]))).is_err());
}

// ---- options -----------------------------------------------------------

#[test]
fn a_later_option_replaces_an_earlier_one() {
    let mut options = opts(&[("a", "1"), ("b", "2")]);
    options.extend(&opts(&[("b", "3"), ("c", "4")]));
    assert_eq!(options.len(), 3);
    assert_eq!(options.get("a"), Some("1"));
    assert_eq!(options.get("b"), Some("3"));
    assert_eq!(options.get("c"), Some("4"));
    let copy = options.copy();
    options.insert("a", "9");
    assert_eq!(copy.get("a"), Some("1"));
}

#[test]
fn options_are_applied_in_order_up_to_an_unknown_one() {
    let known = |n: u32, value: &str| ParsedOption {
        key: format!("key{n}"),
        value: value.to_string(),
        parsed: Ok(n),
    };
    let joined = apply(String::new(), vec![known(1, "x"), known(2, "y")], "s3", |acc, k, v: &str| {
        format!("{acc}[{k}={v}]")
    });
    assert_eq!(joined, Ok("[1=x][2=y]".to_string()));

    let unknown = ParsedOption {
        key: "nope".to_string(),
        value: "z".to_string(),
        parsed: Err("unknown key".to_string()),
    };
    let refused = apply(String::new(), vec![known(1, "x"), unknown], "s3", |acc, k, v: &str| {
        format!("{acc}{k}{v}")
    });
    assert!(refused.is_err());
}

// ---- translate ---------------------------------------------------------

#[test]
fn translate_not_found_to_typed_variant() {
    let err = translate(
        "some/key",
        ObjError::NotFound { path: "some/key".into(), source: "raw".into() },
    );
    match err {
        StorageError::NotFound { uri } => assert_eq!(uri, "some/key"),
        other => panic!("expected NotFound; got {other:?}"),
    }
}

#[test]
fn translate_already_exists_to_precondition_failed() {
    let err = translate("k", ObjError::AlreadyExists { path: "k".into(), source: "raw".into() });
    assert!(matches!(err, StorageError::PreconditionFailed { uri } if uri == "k"));
}

#[test]
fn translate_precondition_to_precondition_failed() {
    let err = translate("k", ObjError::Precondition { path: "k".into(), source: "raw".into() });
    assert!(matches!(err, StorageError::PreconditionFailed { uri } if uri == "k"));
}

#[test]
fn translate_generic_to_transient_exhausted() {
    let err = translate("k", ObjError::Generic { store: "S3", source: "boom".into() });
    match err {
        StorageError::TransientExhausted { uri, .. } => assert_eq!(uri, "k"),
        other => panic!("expected TransientExhausted; got {other:?}"),
    }
}

#[test]
fn translate_other_variant_to_permanent() {
    let err = translate(
        "k",
        ObjError::UnknownConfigurationKey { store: "S3", key: "foo".into() },
    );
    match err {
        StorageError::Permanent { uri, .. } => assert_eq!(uri, "k"),
        other => panic!("expected Permanent; got {other:?}"),
    }
}

#[test]
fn storage_errors_say_what_and_why() {
    let text = |e: StorageError| e.message();
    let uri = || "u".to_string();
    assert_eq!(text(StorageError::NotFound { uri: uri() }), "not found: u");
    assert_eq!(text(StorageError::PreconditionFailed { uri: uri() }), "precondition failed: u");
    assert_eq!(
        text(StorageError::TransientExhausted { uri: uri(), source: "s".to_string() }),
        "transient failure: u: s"
    );
    assert_eq!(
        text(StorageError::Permanent { uri: uri(), source: "s".to_string() }),
        "permanent failure: u: s"
    );
}

#[test]
fn deleting_what_is_not_there_succeeds() {
    assert_eq!(settle_delete(Ok(())), Ok(()));
    assert_eq!(settle_delete(Err(StorageError::NotFound { uri: "k".to_string() })), Ok(()));
    let other = StorageError::PreconditionFailed { uri: "k".to_string() };
    assert_eq!(settle_delete(Err(other.clone())), Err(other));
}

// ---- path --------------------------------------------------------------

fn endpoint_provider() -> S3StorageProvider {
    S3StorageProvider::new_with_endpoint(
        "http://127.0.0.1:1",
        "test-bucket",
        "AKIATESTKEY",
        "secret/example",
        "us-east-1",
    )
    .expect("construct with endpoint")
}

#[test]
fn path_parses_simple_uri() {
    let p = endpoint_provider().path("foo/bar.txt").expect("parse");
    assert_eq!(p.to_string(), "foo/bar.txt");
}

#[test]
fn path_parses_nested_uri() {
    let p = endpoint_provider().path("manifest-lists/list-000042.json").expect("parse");
    assert_eq!(p.to_string(), "manifest-lists/list-000042.json");
}

#[test]
fn a_prefix_goes_in_front_of_the_key() {
    assert_eq!(normalize_prefix("/a/b//"), "a/b");
    assert_eq!(normalize_prefix("///"), "");
    let p = endpoint_provider().with_prefix("/tables/t1/");
    assert_eq!(p.prefix(), "tables/t1");
    assert_eq!(p.key("/x/y"), "tables/t1/x/y");
    assert_eq!(endpoint_provider().key("/x/y"), "x/y");
    assert!(p.path("a//b").is_err(), "an empty segment is no path");
}

// ---- constructors ------------------------------------------------------

#[test]
fn new_with_endpoint_builds_succeeds_and_exposes_bucket() {
    let p = endpoint_provider();
    assert_eq!(p.bucket(), "test-bucket");
}

#[test]
fn a_prefix_given_with_the_endpoint_is_normalized() {
    let p = S3StorageProvider::new_with_endpoint_and_prefix(
        "http://127.0.0.1:1",
        "test-bucket",
        "AKIATESTKEY",
        "secret/example",
        "us-east-1",
        "/tables/a//",
    )
    .expect("construct with endpoint and prefix");
    assert_eq!(p.bucket(), "test-bucket");
    assert_eq!(p.prefix(), "tables/a");
    assert_eq!(p.key("x"), "tables/a/x");
    assert_eq!(p.list_key("/manifests/"), "tables/a/manifests/");
    assert_eq!(p.listed_uri("tables/a/manifests/m"), Some("manifests/m".to_string()));
    assert_eq!(p.listed_uri("tables/ab/m"), None);
    assert_eq!(p.listed_uri("tables"), None);
    assert_eq!(endpoint_provider().listed_uri("m"), Some("m".to_string()));
}

#[test]
fn from_object_store_preserves_bucket() {
    let store = AmazonS3Builder::new()
        .with_endpoint("http://127.0.0.1:1")
        .with_bucket_name("hatch-bucket")
        .with_access_key_id("AKIATESTKEY")
        .with_secret_access_key("secret")
        .with_region("us-east-1")
        .with_allow_http(true)
        .with_virtual_hosted_style_request(false)
        .build()
        .expect("build AmazonS3");
    let p = S3StorageProvider::from_object_store("hatch-bucket", store);
    assert_eq!(p.bucket(), "hatch-bucket");
}

#[test]
fn debug_impl_does_not_panic() {
    let p = endpoint_provider();
    let s = format!("{p:?}");
    assert!(s.contains("S3StorageProvider"));
}

// ---- ranges ------------------------------------------------------------

fn transient() -> StorageError {
    StorageError::TransientExhausted { uri: "u".to_string(), source: "reset".to_string() }
}

#[test]
fn the_wait_doubles_up_to_two_seconds() {
    let waits: Vec<u64> = (0..8).map(transient_backoff).collect();
    assert_eq!(waits, vec![50, 100, 200, 400, 800, 1600, 2000, 2000]);
}

#[test]
fn a_short_response_is_followed_by_a_request_for_the_rest() {
    let (read, action) = RangeRead::begin("u", 10, 16);
    assert_eq!(action, RangeAction::Fetch { after_ms: 0, start: 10, end: 16 });
    let (read, action) = read.get_range(RangeEvent::Chunk(vec![1, 2]));
    assert_eq!(action, RangeAction::Fetch { after_ms: 0, start: 12, end: 16 });
    let (read, action) = read.get_range(RangeEvent::Failed(transient()));
    assert_eq!(action, RangeAction::Fetch { after_ms: 50, start: 12, end: 16 });
    let (_, action) = read.get_range(RangeEvent::Chunk(vec![3, 4, 5, 6]));
    assert_eq!(action, RangeAction::Done(vec![1, 2, 3, 4, 5, 6]));
}

#[test]
fn an_empty_range_needs_no_request() {
    let (_, action) = RangeRead::begin("u", 5, 5);
    assert_eq!(action, RangeAction::Done(Vec::new()));
}

#[test]
fn an_empty_response_means_the_object_is_too_small() {
    let (read, _) = RangeRead::begin("u", 10, 16);
    let (_, action) = read.get_range(RangeEvent::Chunk(Vec::new()));
    assert_eq!(action, RangeAction::Fail(short_read("u", 10, 6, 0)));
    assert_eq!(
        short_read("u", 10, 6, 0).message(),
        "permanent failure: u: get_range short read: object returned 0 of 6 bytes from offset 10"
    );
}

#[test]
fn retries_are_bounded() {
    let (mut read, _) = RangeRead::begin("u", 0, 100);
    for _ in 0..MAX_TRANSIENT_RETRIES {
        let (next, action) = read.get_range(RangeEvent::Failed(transient()));
        assert!(matches!(action, RangeAction::Fetch { .. }));
        read = next;
    }
    let (_, action) = read.get_range(RangeEvent::Failed(transient()));
    assert_eq!(action, RangeAction::Fail(transient()));

    let (mut read, _) = RangeRead::begin("u", 0, 100);
    for _ in 0..MAX_SHORT_READ_RETRIES {
        let (next, action) = read.get_range(RangeEvent::Chunk(vec![7]));
        assert!(matches!(action, RangeAction::Fetch { .. }));
        read = next;
    }
    let (_, action) = read.get_range(RangeEvent::Chunk(vec![7]));
    assert_eq!(action, RangeAction::Fail(short_read("u", 0, 100, 5)));

    let (read, _) = RangeRead::begin("u", 0, 100);
    let permanent = StorageError::NotFound { uri: "u".to_string() };
    let (_, action) = read.get_range(RangeEvent::Failed(permanent.clone()));
    assert_eq!(action, RangeAction::Fail(permanent));
}

#[test]
fn a_write_without_a_tag_must_create_the_object() {
    assert_eq!(put_if_match(None), PutCondition::Create);
    assert_eq!(put_if_match(Some("v1")), PutCondition::Match("v1".to_string()));
}

#[test]
fn an_empty_tail_asks_for_the_size_alone() {
    assert_eq!(tail(0), TailRequest::Head);
    assert_eq!(tail(4096), TailRequest::Suffix(4096));
}
