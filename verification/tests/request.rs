use nailgun::digest::empty_digest;
use nailgun::request::{
    clone_optional, clone_strings, Env, ExecuteProcessRequest, PathSet, Platform, Timeout,
};

fn pair(k: &str, v: &str) -> (String, String) {
    (k.to_string(), v.to_string())
}

#[test]
fn env_starts_empty() {
    let env = Env::new();
    assert_eq!(env.len(), 0);
    assert_eq!(env.get("HOME"), None);
    assert!(env.entries().is_empty());
}

#[test]
fn env_keeps_names_in_ascending_order() {
    let mut env = Env::new();
    env.insert("B".to_string(), "2".to_string());
    env.insert("A".to_string(), "1".to_string());
    env.insert("C".to_string(), "3".to_string());
    env.insert("AB".to_string(), "12".to_string());
    assert_eq!(env.len(), 4);
    assert_eq!(
        env.entries(),
        &vec![pair("A", "1"), pair("AB", "12"), pair("B", "2"), pair("C", "3")]
    );
    assert_eq!(env.get("A"), Some("1".to_string()));
    assert_eq!(env.get("D"), None);
}

#[test]
fn env_does_not_depend_on_the_order_of_binding() {
    let mut one = Env::new();
    one.insert("X".to_string(), "1".to_string());
    one.insert("A".to_string(), "2".to_string());
    one.insert("M".to_string(), "3".to_string());
    let mut other = Env::new();
    other.insert("M".to_string(), "0".to_string());
    other.insert("A".to_string(), "2".to_string());
    other.insert("X".to_string(), "1".to_string());
    other.insert("M".to_string(), "3".to_string());
    assert_eq!(one, other);
}

#[test]
fn env_insert_overwrites_in_place() {
    let mut env = Env::new();
    env.insert("A".to_string(), "1".to_string());
    env.insert("B".to_string(), "2".to_string());
    env.insert("A".to_string(), "one".to_string());
    assert_eq!(env.len(), 2);
    assert_eq!(env.entries(), &vec![pair("A", "one"), pair("B", "2")]);
    assert_eq!(env.get("A"), Some("one".to_string()));
}

#[test]
fn env_names_are_compared_exactly() {
    let mut env = Env::new();
    env.insert("PATH".to_string(), "/bin".to_string());
    env.insert("Path".to_string(), "/usr/bin".to_string());
    env.insert("".to_string(), "empty".to_string());
    assert_eq!(env.len(), 3);
    assert_eq!(env.get("PATH"), Some("/bin".to_string()));
    assert_eq!(env.get("Path"), Some("/usr/bin".to_string()));
    assert_eq!(env.get(""), Some("empty".to_string()));
    assert_eq!(env.get("PAT"), None);
    assert_eq!(
        env.entries(),
        &vec![pair("", "empty"), pair("PATH", "/bin"), pair("Path", "/usr/bin")]
    );
}

#[test]
fn env_clone_is_equal_and_independent() {
    let mut env = Env::new();
    env.insert("A".to_string(), "1".to_string());
    let copy = env.clone();
    assert_eq!(copy, env);
    env.insert("B".to_string(), "2".to_string());
    assert_eq!(copy.len(), 1);
    assert_ne!(copy, env);
}

#[test]
fn path_set_holds_each_path_once_in_ascending_order() {
    let mut set = PathSet::new();
    assert_eq!(set.len(), 0);
    assert!(set.insert("out/b.class".to_string()));
    assert!(set.insert("out/a.class".to_string()));
    assert!(!set.insert("out/b.class".to_string()));
    assert!(set.insert("out".to_string()));
    assert_eq!(set.len(), 3);
    assert!(set.contains("out/a.class"));
    assert!(!set.contains("out/c.class"));
    assert!(!set.contains(""));
    assert_eq!(
        set.paths(),
        &vec!["out".to_string(), "out/a.class".to_string(), "out/b.class".to_string()]
    );
    let copy = set.clone();
    assert_eq!(copy, set);
    let mut other = PathSet::new();
    other.insert("out".to_string());
    other.insert("out/b.class".to_string());
    other.insert("out/a.class".to_string());
    assert_eq!(other, set);
}

#[test]
fn clone_helpers_copy_what_they_are_given() {
    let list = vec!["a".to_string(), "".to_string(), "caf\u{e9}".to_string()];
    assert_eq!(clone_strings(&list), list);
    assert_eq!(clone_strings(&Vec::new()), Vec::<String>::new());
    assert_eq!(clone_optional(&Some("x".to_string())), Some("x".to_string()));
    assert_eq!(clone_optional(&None), None);
}

#[test]
fn request_clone_keeps_every_field() {
    let mut env = Env::new();
    env.insert("K".to_string(), "V".to_string());
    let mut outputs = PathSet::new();
    outputs.insert("o".to_string());
    let request = ExecuteProcessRequest {
        argv: vec!["java".to_string(), "-version".to_string()],
        env,
        input_files: empty_digest(),
        output_files: outputs,
        output_directories: PathSet::new(),
        timeout: Timeout { secs: 5, nanos: 7 },
        description: "print the version".to_string(),
        unsafe_local_only_files_because_we_favor_speed_over_correctness_for_this_rule:
            empty_digest(),
        jdk_home: Some("/jdk".to_string()),
        target_platform: Platform::Linux,
        is_nailgunnable: false,
    };
    let copy = request.clone();
    assert_eq!(copy, request);
    assert_eq!(copy.argv, vec!["java".to_string(), "-version".to_string()]);
    assert_eq!(copy.timeout, Timeout { secs: 5, nanos: 7 });
    assert_eq!(copy.target_platform, Platform::Linux);
}
