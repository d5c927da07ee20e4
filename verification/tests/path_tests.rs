use std::path::Path;

use gift::symbolic_ref::{
    ref_file_to_ref_name, ref_name_to_sym_file, resolve_git_dir, RefNameError,
};

/// The name that the path operations of std give, as the library is meant to.
fn std_ref_name(worktree: &str, git_dir: &str, ref_file: &str) -> Result<String, ()> {
    let worktree = Path::new(worktree);
    let abs = worktree.join(ref_file);
    let gd = worktree.join(git_dir);
    let rel = abs.strip_prefix(&gd).map_err(|_| ())?;
    let s = rel.to_string_lossy().replace('\\', "/");
    let s = s.trim_start_matches('/').to_string();
    if s.is_empty() {
        return Err(());
    }
    Ok(s)
}

const SAMPLES: [&str; 22] = [
    "", ".", "./", "..", "/", "//", "a", "a/", "a//", "./a", "a/.", "a/./b", ".git", ".git/",
    "/abs", "/abs/.git", ".git/refs/heads/main", "./.git/refs//heads/./main/",
    ".git/HEAD", "x\\y", ".git/..", "/abs/.git/refs/tags/v1",
];

#[test]
fn joins_match_std() {
    for a in SAMPLES {
        for b in SAMPLES {
            let want = Path::new(a).join(b);
            assert_eq!(resolve_git_dir(a, b), want.to_str().unwrap(), "{:?} {:?}", a, b);
            let want = Path::new(a).join(b.trim_start_matches('/'));
            assert_eq!(ref_name_to_sym_file(a, b), want.to_str().unwrap(), "{:?} {:?}", a, b);
        }
    }
}

#[test]
fn ref_names_match_std() {
    for w in ["", "/w", "w", "/w/", "./w"] {
        for g in SAMPLES {
            for f in SAMPLES {
                let got = ref_file_to_ref_name(w, g, f);
                let want = std_ref_name(w, g, f);
                match (got, want) {
                    (Ok(a), Ok(b)) => assert_eq!(a, b, "{:?} {:?} {:?}", w, g, f),
                    (Err(_), Err(())) => {}
                    (a, b) => panic!("{:?} {:?} {:?}: {:?} vs {:?}", w, g, f, a, b),
                }
            }
        }
    }
}

#[test]
fn ref_name_examples() {
    assert_eq!(ref_file_to_ref_name("/w", ".gift", ".gift/refs/heads/main").unwrap(), "refs/heads/main");
    assert_eq!(ref_file_to_ref_name("/w", ".gift", ".gift/HEAD").unwrap(), "HEAD");
    assert_eq!(ref_file_to_ref_name("/w", ".gift", "other/HEAD").unwrap_err(), RefNameError::NotUnderGitDir);
    assert_eq!(ref_file_to_ref_name("/w", ".gift", ".gift").unwrap_err(), RefNameError::EmptyName);
    assert_eq!(ref_name_to_sym_file(".gift", "/refs/heads/main"), ".gift/refs/heads/main");
    assert_eq!(resolve_git_dir("/w", ".gift"), "/w/.gift");
    assert_eq!(resolve_git_dir("/w", "/elsewhere"), "/elsewhere");
}

#[test]
fn sym_file_reads_back_as_its_ref_name() {
    for w in ["", "/w", "w/", "./w/."] {
        for g in [".git", "/abs/.gift", "a//b", "./x", "", ".", ".git/", "/", "a/./"] {
            for n in ["HEAD", "refs/heads/main", "refs//heads/./x", "/refs/tags/v1"] {
                let file = ref_name_to_sym_file(g, n);
                let name = ref_file_to_ref_name(w, g, &file).unwrap();
                assert_eq!(name, n.trim_start_matches('/'), "{:?} {:?} {:?}", w, g, n);
            }
        }
    }
}
