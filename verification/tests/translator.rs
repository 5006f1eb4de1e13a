use nailgun::digest::{empty_digest, Digest};
use nailgun::request::{Env, ExecuteProcessRequest, PathSet, Platform, Timeout};
use nailgun::translator::{
    construct_nailgun_client_request, construct_nailgun_server_request, ARG_TO_START_NAILGUN,
    NAILGUN_MAIN_CLASS, NAILGUN_PORT_ENV_VAR_FOR_CLIENT, NG_CLIENT_PATH,
};

fn strings(items: &[&str]) -> Vec<String> {
    items.iter().map(|s| s.to_string()).collect()
}

fn original() -> ExecuteProcessRequest {
    let mut env = Env::new();
    env.insert("LANG".to_string(), "C".to_string());
    let mut files = PathSet::new();
    files.insert("out/Main.class".to_string());
    let mut dirs = PathSet::new();
    dirs.insert("out".to_string());
    ExecuteProcessRequest {
        argv: strings(&["-cp", "libs/a.jar", "-Xmx512m", "com.example.Main", "--flag", "x"]),
        env,
        input_files: Digest::of_bytes(b"inputs"),
        output_files: files,
        output_directories: dirs,
        timeout: Timeout { secs: 30, nanos: 500 },
        description: "compile things".to_string(),
        unsafe_local_only_files_because_we_favor_speed_over_correctness_for_this_rule:
            Digest::of_bytes(b"local"),
        jdk_home: Some("/usr/lib/jvm".to_string()),
        target_platform: Platform::Darwin,
        is_nailgunnable: true,
    }
}

#[test]
fn the_fixed_names() {
    assert_eq!(NAILGUN_MAIN_CLASS, "com.martiansoftware.nailgun.NGServer");
    assert_eq!(ARG_TO_START_NAILGUN, ":0");
    assert_eq!(NAILGUN_PORT_ENV_VAR_FOR_CLIENT, "NAILGUN_PORT");
    assert_eq!(NG_CLIENT_PATH, "bin/ng/1.0.0/ng");
}

#[test]
fn server_request_boots_the_server() {
    let request = construct_nailgun_server_request(
        "nailgun_server_com.example.Main",
        strings(&["-cp", "libs/a.jar", "-Xmx512m"]),
        "/usr/lib/jvm".to_string(),
        Platform::Linux,
    );
    assert_eq!(
        request.argv,
        strings(&[
            "-cp",
            "libs/a.jar",
            "-Xmx512m",
            "com.martiansoftware.nailgun.NGServer",
            ":0"
        ])
    );
    assert_eq!(request.env, Env::new());
    assert_eq!(request.input_files, empty_digest());
    assert_eq!(request.output_files, PathSet::new());
    assert_eq!(request.output_directories, PathSet::new());
    assert_eq!(request.timeout, Timeout { secs: 1000, nanos: 0 });
    assert_eq!(
        request.description,
        "Start a nailgun server for nailgun_server_com.example.Main"
    );
    assert_eq!(
        request.unsafe_local_only_files_because_we_favor_speed_over_correctness_for_this_rule,
        empty_digest()
    );
    assert_eq!(request.jdk_home, Some("/usr/lib/jvm".to_string()));
    assert_eq!(request.target_platform, Platform::Linux);
    assert!(request.is_nailgunnable);
}

#[test]
fn server_request_without_jvm_arguments() {
    let request = construct_nailgun_server_request(
        "n",
        Vec::new(),
        "".to_string(),
        Platform::Unspecified,
    );
    assert_eq!(
        request.argv,
        strings(&["com.martiansoftware.nailgun.NGServer", ":0"])
    );
    assert_eq!(request.description, "Start a nailgun server for n");
    assert_eq!(request.jdk_home, Some("".to_string()));
}

#[test]
fn server_request_is_a_function_of_its_arguments() {
    let a = construct_nailgun_server_request("n", strings(&["-cp", "a"]), "/j".to_string(), Platform::Linux);
    let b = construct_nailgun_server_request("n", strings(&["-cp", "a"]), "/j".to_string(), Platform::Linux);
    assert_eq!(a, b);
}

#[test]
fn client_request_replaces_argv_env_and_jdk_only() {
    let before = original();
    let client = construct_nailgun_client_request(
        original(),
        "/opt/python".to_string(),
        "com.example.Main".to_string(),
        strings(&["--flag", "x"]),
        4242,
    );
    assert_eq!(
        client.argv,
        strings(&[
            "/opt/python",
            "bin/ng/1.0.0/ng",
            "--",
            "com.example.Main",
            "--flag",
            "x"
        ])
    );
    assert_eq!(client.env.get("NAILGUN_PORT"), Some("4242".to_string()));
    assert_eq!(client.env.get("LANG"), Some("C".to_string()));
    assert_eq!(client.env.len(), 2);
    assert_eq!(client.jdk_home, None);
    assert_eq!(client.input_files, before.input_files);
    assert_eq!(client.output_files, before.output_files);
    assert_eq!(client.output_directories, before.output_directories);
    assert_eq!(client.timeout, before.timeout);
    assert_eq!(client.description, before.description);
    assert_eq!(
        client.unsafe_local_only_files_because_we_favor_speed_over_correctness_for_this_rule,
        before.unsafe_local_only_files_because_we_favor_speed_over_correctness_for_this_rule
    );
    assert_eq!(client.target_platform, before.target_platform);
    assert_eq!(client.is_nailgunnable, before.is_nailgunnable);
}

#[test]
fn client_request_overwrites_a_port_that_was_set() {
    let mut request = original();
    request.env.insert("NAILGUN_PORT".to_string(), "1".to_string());
    request.env.insert("AFTER".to_string(), "x".to_string());
    let client = construct_nailgun_client_request(
        request,
        "py".to_string(),
        "M".to_string(),
        Vec::new(),
        65535,
    );
    assert_eq!(
        client.env.entries(),
        &vec![
            ("AFTER".to_string(), "x".to_string()),
            ("LANG".to_string(), "C".to_string()),
            ("NAILGUN_PORT".to_string(), "65535".to_string()),
        ]
    );
    assert_eq!(client.argv, strings(&["py", "bin/ng/1.0.0/ng", "--", "M"]));
}
