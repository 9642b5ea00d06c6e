use vstd::prelude::*;
use vstd::string::StringExecFns;

verus! {

/// The script that describes the project, at the root of its tree.
pub const SETUP_SCRIPT: &'static str = "setup.py";

/// The file of the shim, at the root of the snapshot, named as the module that
/// the script imports.
pub const SHIM_MODULE_FILE: &'static str = "setuptools.py";

/// The interpreter that runs the script.
pub const INTERPRETER: &'static str = "python";

/// The variable through which the child finds the shim first.
pub const SEARCH_PATH_VAR: &'static str = "PYTHONPATH";

/// The shim. Its `setup` prints its keyword arguments as one JSON document on
/// the error stream and builds nothing. Any other name is looked up on the
/// real `setuptools`, which it imports once with itself taken off the module
/// table and the search path, and then puts itself back.
pub const SHIM_SOURCE: &'static str = r#"import json
import sys


def setup(**kwargs) -> None:
    print(json.dumps(kwargs), file=sys.stderr)


if __name__ == "setuptools":
    _setup_proxy_module = sys.modules.pop("setuptools")
    _setup_proxy_cwd = sys.path.pop(0)

    import setuptools as __setuptools

    sys.path.insert(0, _setup_proxy_cwd)
    sys.modules["setuptools"] = _setup_proxy_module

    def __getattr__(name):
        return getattr(__setuptools, name)

    del _setup_proxy_module
    del _setup_proxy_cwd
"#;

/// The search path of the child: the snapshot first, then what was set
/// before, if anything was.
pub open spec fn search_path(snapshot: Seq<char>, existing: Option<Seq<char>>, separator: Seq<
    char,
>) -> Seq<char> {
    match existing {
        Some(e) => if e.len() > 0 {
            snapshot + separator + e
        } else {
            snapshot
        },
        None => snapshot,
    }
}

/// Composes the value of the search-path variable for the child, with the
/// snapshot ahead of the value the caller's environment holds.
pub fn child_search_path(snapshot: &str, existing: Option<&str>, separator: &str) -> (r: String)
    ensures
        r@ == search_path(
            snapshot@,
            match existing {
                Some(e) => Some(e@),
                None => None,
            },
            separator@,
        ),
{
    let mut r = snapshot.to_owned();
    match existing {
        Some(e) => {
            if !e.is_empty() {
                r.append(separator);
                r.append(e);
            }
        },
        None => {},
    }
    r
}

} // verus!
