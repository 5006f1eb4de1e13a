use nailgun::digest::{empty_digest, Digest};
use nailgun::fingerprint::{digest, encode};
use nailgun::request::{
    Env, ExecuteProcessRequest, ExecuteProcessRequestMetadata, PathSet, Platform, Timeout,
};
use nailgun::translator::construct_nailgun_server_request;

fn bare() -> ExecuteProcessRequest {
    ExecuteProcessRequest {
        argv: Vec::new(),
        env: Env::new(),
        input_files: empty_digest(),
        output_files: PathSet::new(),
        output_directories: PathSet::new(),
        timeout: Timeout { secs: 0, nanos: 0 },
        description: String::new(),
        unsafe_local_only_files_because_we_favor_speed_over_correctness_for_this_rule:
            empty_digest(),
        jdk_home: None,
        target_platform: Platform::Unspecified,
        is_nailgunnable: false,
    }
}

fn no_metadata() -> ExecuteProcessRequestMetadata {
    ExecuteProcessRequestMetadata {
        instance_name: None,
        cache_key_gen_version: None,
        platform_properties: Vec::new(),
    }
}

fn number(n: u64) -> Vec<u8> {
    n.to_le_bytes().to_vec()
}

#[test]
fn encoding_of_the_bare_request() {
    let empty = empty_digest();
    let mut expected: Vec<u8> = Vec::new();
    expected.push(0);
    expected.push(0);
    expected.extend(number(0));
    expected.extend(number(0));
    expected.extend(number(0));
    expected.extend(empty.0 .0);
    expected.extend(number(0));
    expected.extend(number(0));
    expected.extend(number(0));
    expected.extend(number(0));
    expected.extend(number(0));
    expected.extend(number(0));
    expected.extend(empty.0 .0);
    expected.extend(number(0));
    expected.push(0);
    expected.push(0);
    expected.push(0);
    assert_eq!(encode(&bare(), &no_metadata()), expected);
    assert_eq!(expected.len(), 149);
}

#[test]
fn encoding_of_every_field() {
    let mut request = bare();
    request.argv = vec!["ab".to_string(), "\u{e9}".to_string()];
    request.env.insert("K".to_string(), "v".to_string());
    request.input_files = Digest::of_bytes(b"in");
    request.output_files.insert("f".to_string());
    request.output_directories.insert("d".to_string());
    request.timeout = Timeout { secs: 258, nanos: 3 };
    request.description = "go".to_string();
    request.jdk_home = Some("/j".to_string());
    request.target_platform = Platform::Linux;
    request.is_nailgunnable = true;
    let metadata = ExecuteProcessRequestMetadata {
        instance_name: Some("i".to_string()),
        cache_key_gen_version: None,
        platform_properties: vec![("p".to_string(), "q".to_string())],
    };
    let mut expected: Vec<u8> = Vec::new();
    expected.push(1);
    expected.extend(number(1));
    expected.extend(b"i");
    expected.push(0);
    expected.extend(number(1));
    expected.extend(number(1));
    expected.extend(b"p");
    expected.extend(number(1));
    expected.extend(b"q");
    expected.extend(number(2));
    expected.extend(number(2));
    expected.extend(b"ab");
    expected.extend(number(2));
    expected.extend([0xc3u8, 0xa9u8]);
    expected.extend(number(1));
    expected.extend(number(1));
    expected.extend(b"K");
    expected.extend(number(1));
    expected.extend(b"v");
    expected.extend(Digest::of_bytes(b"in").0 .0);
    expected.extend(number(2));
    expected.extend(number(1));
    expected.extend(number(1));
    expected.extend(b"f");
    expected.extend(number(1));
    expected.extend(number(1));
    expected.extend(b"d");
    expected.extend([2u8, 1, 0, 0, 0, 0, 0, 0]);
    expected.extend(number(3));
    expected.extend(number(2));
    expected.extend(b"go");
    expected.extend(empty_digest().0 .0);
    expected.extend(number(0));
    expected.push(1);
    expected.extend(number(2));
    expected.extend(b"/j");
    expected.push(2);
    expected.push(1);
    assert_eq!(encode(&request, &metadata), expected);
}

#[test]
fn digest_is_the_hash_of_the_encoding() {
    let request = bare();
    let bytes = encode(&request, &no_metadata());
    let d = digest(&request, &no_metadata());
    assert_eq!(d, Digest::of_bytes(&bytes));
    assert_eq!(d.1, bytes.len());
}

#[test]
fn equal_server_requests_have_equal_digests() {
    let make = || {
        construct_nailgun_server_request(
            "nailgun_server_a.B",
            vec!["-cp".to_string(), "a.jar".to_string()],
            "/jdk".to_string(),
            Platform::Linux,
        )
    };
    assert_eq!(digest(&make(), &no_metadata()), digest(&make(), &no_metadata()));
}

#[test]
fn a_changed_classpath_changes_the_digest() {
    let with = |classpath: &str| {
        construct_nailgun_server_request(
            "nailgun_server_a.B",
            vec!["-cp".to_string(), classpath.to_string()],
            "/jdk".to_string(),
            Platform::Linux,
        )
    };
    let m = no_metadata();
    assert_ne!(digest(&with("a.jar"), &m), digest(&with("a.jar:b.jar"), &m));
    let other = ExecuteProcessRequestMetadata {
        instance_name: Some("x".to_string()),
        cache_key_gen_version: None,
        platform_properties: Vec::new(),
    };
    assert_ne!(digest(&with("a.jar"), &m), digest(&with("a.jar"), &other));
}

#[test]
fn where_a_string_ends_matters() {
    let mut a = bare();
    a.argv = vec!["ab".to_string(), "c".to_string()];
    let mut b = bare();
    b.argv = vec!["a".to_string(), "bc".to_string()];
    let m = no_metadata();
    assert_ne!(encode(&a, &m), encode(&b, &m));
    assert_ne!(digest(&a, &m), digest(&b, &m));
}

#[test]
fn the_order_of_building_a_request_does_not_change_its_digest() {
    let mut a = bare();
    a.env.insert("B".to_string(), "2".to_string());
    a.env.insert("A".to_string(), "1".to_string());
    a.output_files.insert("z".to_string());
    a.output_files.insert("y".to_string());
    let mut b = bare();
    b.env.insert("A".to_string(), "1".to_string());
    b.env.insert("B".to_string(), "2".to_string());
    b.output_files.insert("y".to_string());
    b.output_files.insert("z".to_string());
    assert_eq!(a, b);
    let m = no_metadata();
    assert_eq!(encode(&a, &m), encode(&b, &m));
    assert_eq!(digest(&a, &m), digest(&b, &m));
}
