use std::collections::BTreeMap;

use serde_json::Value;
use setup_probe::{
    child_search_path, decode_run, DirEntry, ExecutionResult, ProbeError, RelPath, SnapshotWalk,
    INTERPRETER, SEARCH_PATH_VAR, SETUP_SCRIPT, SHIM_MODULE_FILE, SHIM_SOURCE,
};

fn path(parts: &[&str]) -> Vec<String> {
    parts.iter().map(|p| p.to_string()).collect()
}

fn entry(name: &str, is_dir: bool) -> DirEntry {
    DirEntry { name: name.to_string(), is_dir }
}

/// Runs a whole walk over a tree given as listings, recording the directories
/// created and the files copied, in the order the walk asks for them.
fn walk(tree: &BTreeMap<Vec<String>, Vec<(&str, bool)>>) -> (Vec<Vec<String>>, Vec<Vec<String>>) {
    let mut w = SnapshotWalk::new();
    let mut created = Vec::new();
    let mut copied = Vec::new();
    while let Some(dir) = w.next_dir() {
        created.push(dir.parts.clone());
        let listing: Vec<DirEntry> =
            tree[&dir.parts].iter().map(|(n, d)| entry(n, *d)).collect();
        for c in w.visit(&dir, &listing) {
            copied.push(c.parts);
        }
    }
    assert!(w.is_done());
    (created, copied)
}

fn ok_run(stderr: &str) -> ExecutionResult {
    ExecutionResult {
        success: true,
        code: Some(0),
        stdout: Vec::new(),
        stderr: stderr.as_bytes().to_vec(),
    }
}

fn string(s: &str) -> Value {
    Value::String(s.to_string())
}

#[test]
fn root_path_is_empty() {
    assert!(RelPath::root().parts.is_empty());
}

#[test]
fn child_appends_one_component() {
    let p = RelPath::root().child(&"src".to_string()).child(&"lib".to_string());
    assert_eq!(p.parts, path(&["src", "lib"]));
}

#[test]
fn new_walk_is_not_done() {
    let mut w = SnapshotWalk::new();
    assert!(!w.is_done());
    let root = w.next_dir().unwrap();
    assert!(root.parts.is_empty());
    assert!(w.is_done());
    assert!(w.next_dir().is_none());
}

#[test]
fn visit_queues_directories_and_returns_files() {
    let mut w = SnapshotWalk::new();
    let root = w.next_dir().unwrap();
    let listing = vec![entry("setup.py", false), entry("pkg", true), entry("README", false)];
    let copies = w.visit(&root, &listing);
    let copies: Vec<Vec<String>> = copies.into_iter().map(|c| c.parts).collect();
    assert_eq!(copies, vec![path(&["setup.py"]), path(&["README"])]);
    let next = w.next_dir().unwrap();
    assert_eq!(next.parts, path(&["pkg"]));
    assert!(w.is_done());
}

#[test]
fn walk_copies_every_file_at_its_relative_path() {
    let mut tree = BTreeMap::new();
    tree.insert(path(&[]), vec![("setup.py", false), ("pkg", true), ("docs", true)]);
    tree.insert(path(&["pkg"]), vec![("__init__.py", false), ("data", true)]);
    tree.insert(path(&["pkg", "data"]), vec![("a.txt", false), ("b.txt", false)]);
    tree.insert(path(&["docs"]), vec![]);
    let (created, mut copied) = walk(&tree);
    copied.sort();
    assert_eq!(
        copied,
        vec![
            path(&["pkg", "__init__.py"]),
            path(&["pkg", "data", "a.txt"]),
            path(&["pkg", "data", "b.txt"]),
            path(&["setup.py"]),
        ]
    );
    let mut created = created;
    created.sort();
    assert_eq!(created, vec![path(&[]), path(&["docs"]), path(&["pkg"]), path(&["pkg", "data"])]);
}

#[test]
fn walk_of_empty_directories_copies_nothing() {
    let mut tree = BTreeMap::new();
    tree.insert(path(&[]), vec![("a", true), ("b", true)]);
    tree.insert(path(&["a"]), vec![("c", true)]);
    tree.insert(path(&["a", "c"]), vec![]);
    tree.insert(path(&["b"]), vec![]);
    let (created, copied) = walk(&tree);
    assert!(copied.is_empty());
    assert_eq!(created.len(), 4);
}

#[test]
fn walk_goes_deep_without_recursion() {
    let mut tree = BTreeMap::new();
    let mut dir = Vec::new();
    for _ in 0..2000 {
        tree.insert(dir.clone(), vec![("d", true)]);
        dir.push("d".to_string());
    }
    tree.insert(dir.clone(), vec![("leaf", false)]);
    let (created, copied) = walk(&tree);
    assert_eq!(created.len(), 2001);
    let mut expected = dir.clone();
    expected.push("leaf".to_string());
    assert_eq!(copied, vec![expected]);
}

#[test]
fn search_path_without_existing_value() {
    assert_eq!(child_search_path("/tmp/snap", None, ":"), "/tmp/snap");
    assert_eq!(child_search_path("/tmp/snap", Some(""), ":"), "/tmp/snap");
}

#[test]
fn search_path_puts_snapshot_first() {
    assert_eq!(child_search_path("/tmp/snap", Some("/opt/lib:/usr/lib"), ":"), "/tmp/snap:/opt/lib:/usr/lib");
    assert_eq!(child_search_path("C:\\snap", Some("D:\\lib"), ";"), "C:\\snap;D:\\lib");
}

#[test]
fn launch_settings() {
    assert_eq!(SETUP_SCRIPT, "setup.py");
    assert_eq!(SHIM_MODULE_FILE, "setuptools.py");
    assert_eq!(INTERPRETER, "python");
    assert_eq!(SEARCH_PATH_VAR, "PYTHONPATH");
}

#[test]
fn shim_prints_arguments_and_delegates() {
    assert!(SHIM_SOURCE.contains("def setup(**kwargs)"));
    assert!(SHIM_SOURCE.contains("print(json.dumps(kwargs), file=sys.stderr)"));
    assert!(SHIM_SOURCE.contains("sys.modules.pop(\"setuptools\")"));
    assert!(SHIM_SOURCE.contains("sys.path.insert(0, _setup_proxy_cwd)"));
    assert!(SHIM_SOURCE.contains("def __getattr__(name):"));
}

#[test]
fn decodes_intercepted_arguments() {
    let run = ok_run("{\"name\": \"demo\", \"version\": \"1.2.3\", \"requires\": [\"a\", \"b\"]}\n");
    let v = decode_run(&run).ok().unwrap();
    let mut m = serde_json::Map::new();
    m.insert("name".to_string(), string("demo"));
    m.insert("version".to_string(), string("1.2.3"));
    m.insert("requires".to_string(), Value::Array(vec![string("a"), string("b")]));
    assert_eq!(v, Value::Object(m));
    let obj = v.as_object().unwrap();
    assert_eq!(obj.len(), 3);
    assert_eq!(obj["requires"].as_array().unwrap(), &vec![string("a"), string("b")]);
}

#[test]
fn end_to_end_payload_has_only_given_fields() {
    let run = ok_run("{\"name\": \"pkg\", \"version\": \"0.1.0\"}\n");
    let v = decode_run(&run).ok().unwrap();
    let mut m = serde_json::Map::new();
    m.insert("name".to_string(), string("pkg"));
    m.insert("version".to_string(), string("0.1.0"));
    assert_eq!(v, Value::Object(m));
}

#[test]
fn decoding_twice_gives_the_same_record() {
    let run = ok_run("{\"name\": \"pkg\", \"n\": 3, \"x\": null, \"f\": true, \"m\": {\"k\": [1, 2]}}");
    let a = decode_run(&run).ok().unwrap();
    let b = decode_run(&run).ok().unwrap();
    assert_eq!(a, b);
    assert_eq!(a["m"]["k"][1], Value::from(2));
}

#[test]
fn failed_run_is_script_failure_not_decode_error() {
    let run = ExecutionResult {
        success: false,
        code: Some(1),
        stdout: Vec::new(),
        stderr: b"Traceback (most recent call last):\nRuntimeError: boom\n".to_vec(),
    };
    match decode_run(&run) {
        Err(ProbeError::ScriptFailed { code, stderr }) => {
            assert_eq!(code, Some(1));
            assert!(!stderr.is_empty());
            assert_eq!(stderr, run.stderr);
        }
        _ => panic!("expected a script failure"),
    }
}

#[test]
fn failed_run_with_payload_is_still_a_failure() {
    let run = ExecutionResult {
        success: false,
        code: None,
        stdout: Vec::new(),
        stderr: b"{\"name\": \"pkg\"}\n".to_vec(),
    };
    assert!(matches!(decode_run(&run), Err(ProbeError::ScriptFailed { code: None, .. })));
}

#[test]
fn empty_payload_is_decode_error() {
    match decode_run(&ok_run("")) {
        Err(ProbeError::Decode { raw }) => assert!(raw.is_empty()),
        _ => panic!("expected a decode error"),
    }
}

#[test]
fn noise_before_payload_is_decode_error() {
    let text = "warning: something\n{\"name\": \"pkg\"}\n";
    match decode_run(&ok_run(text)) {
        Err(ProbeError::Decode { raw }) => assert_eq!(raw, text.as_bytes()),
        _ => panic!("expected a decode error"),
    }
}

#[test]
fn large_stdout_does_not_disturb_decoding() {
    let run = ExecutionResult {
        success: true,
        code: Some(0),
        stdout: vec![b'x'; 1 << 20],
        stderr: b"{\"name\": \"pkg\"}\n".to_vec(),
    };
    let v = decode_run(&run).ok().unwrap();
    assert_eq!(v["name"], string("pkg"));
}
