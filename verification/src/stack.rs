//! Construction of the directory stack.
//!
//! An [`OverdropConf`] holds the ordered list of directories to scan, lowest
//! precedence first. Construction is pure path composition: each base
//! directory gets the configuration sub-path (optionally suffixed with a
//! version string) appended, and an optional root directory prefixed. No
//! filesystem access happens here and the paths need not exist.

use vstd::prelude::*;

verus! {

/// Joins two path components with a separating slash; an empty base
/// contributes nothing, and a base already ending in a slash gets no second
/// one.
pub open spec fn join_spec(base: Seq<char>, sub: Seq<char>) -> Seq<char> {
    if base.len() == 0 {
        sub
    } else if base.last() == '/' {
        base + sub
    } else {
        base + seq!['/'] + sub
    }
}

/// The version suffix appended to the configuration sub-path: the version
/// string itself, or nothing.
pub open spec fn version_suffix(version: Option<String>) -> Seq<char> {
    match version {
        Some(v) => v@,
        None => Seq::empty(),
    }
}

/// Joins `base` and `sub` as [`join_spec`] describes.
pub fn join_path(base: &str, sub: &str) -> (r: String)
    ensures
        r@ == join_spec(base@, sub@),
{
    let blen = base.unicode_len();
    if blen == 0 {
        return sub.to_owned();
    }
    let mut r = base.to_owned();
    if base.get_char(blen - 1) != '/' {
        r.append("/");
        proof {
            reveal_strlit("/");
            assert("/"@ =~= seq!['/']);
        }
    }
    r.append(sub);
    proof {
        assert(r@ =~= join_spec(base@, sub@));
    }
    r
}

/// The ordered directory stack a scan walks, lowest precedence first.
pub struct OverdropConf {
    dirs: Vec<String>,
}

impl View for OverdropConf {
    type V = Seq<Seq<char>>;

    closed spec fn view(&self) -> Seq<Seq<char>> {
        self.dirs.deep_view()
    }
}

impl OverdropConf {
    /// Builds the stack from base directories, in the order given, each with
    /// the configuration sub-path appended.
    pub fn new(base_dirs: &Vec<String>, config_path: &str) -> (r: Self)
        ensures
            r@.len() == base_dirs@.len(),
            forall|i: int|
                0 <= i < base_dirs@.len() ==> r@[i] == join_spec(base_dirs@[i]@, config_path@),
    {
        let mut dirs: Vec<String> = Vec::new();
        let mut i: usize = 0;
        while i < base_dirs.len()
            invariant
                i <= base_dirs@.len(),
                dirs@.len() == i,
                forall|j: int| 0 <= j < i ==> dirs@[j]@ == join_spec(base_dirs@[j]@, config_path@),
            decreases base_dirs@.len() - i,
        {
            dirs.push(join_path(base_dirs[i].as_str(), config_path));
            i = i + 1;
        }
        let r = OverdropConf { dirs };
        proof {
            assert(forall|j: int| 0 <= j < r@.len() ==> r@[j] == r.dirs@[j].deep_view());
        }
        r
    }

    /// Builds the stack under a common root directory, each base directory
    /// getting the configuration sub-path with the version string (if any)
    /// appended to it.
    pub fn new_full(
        root_dir: &str,
        base_dirs: &Vec<String>,
        config_path: &str,
        version: Option<String>,
    ) -> (r: Self)
        ensures
            r@.len() == base_dirs@.len(),
            forall|i: int|
                0 <= i < base_dirs@.len() ==> r@[i] == join_spec(
                    join_spec(root_dir@, base_dirs@[i]@),
                    config_path@ + version_suffix(version),
                ),
    {
        let suffix: String = match &version {
            Some(v) => config_path.to_owned().concat(v.as_str()),
            None => config_path.to_owned(),
        };
        proof {
            assert(suffix@ =~= config_path@ + version_suffix(version));
        }
        let mut dirs: Vec<String> = Vec::new();
        let mut i: usize = 0;
        while i < base_dirs.len()
            invariant
                i <= base_dirs@.len(),
                dirs@.len() == i,
                suffix@ == config_path@ + version_suffix(version),
                forall|j: int|
                    0 <= j < i ==> dirs@[j]@ == join_spec(
                        join_spec(root_dir@, base_dirs@[j]@),
                        config_path@ + version_suffix(version),
                    ),
            decreases base_dirs@.len() - i,
        {
            let below_root = join_path(root_dir, base_dirs[i].as_str());
            dirs.push(join_path(below_root.as_str(), suffix.as_str()));
            i = i + 1;
        }
        let r = OverdropConf { dirs };
        proof {
            assert(forall|j: int| 0 <= j < r@.len() ==> r@[j] == r.dirs@[j].deep_view());
        }
        r
    }

    /// The directories to scan, lowest precedence first.
    pub fn dirs(&self) -> (r: &Vec<String>)
        ensures
            r@.len() == self@.len(),
            forall|i: int| 0 <= i < r@.len() ==> r@[i]@ == self@[i],
    {
        proof {
            assert(forall|i: int| 0 <= i < self@.len() ==> self@[i] == self.dirs@[i].deep_view());
        }
        &self.dirs
    }
}

} // verus!
