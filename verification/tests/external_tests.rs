use shell_commands::external::{
    bare_name, candidates, chosen, classify, exit_code_of, find_by_path, find_command_path,
    find_command_path_with, find_in_path, found_at, join_path, search_step,
    split_search_paths, PathKind, SearchStep,
};
use std::path::{Component, Path};

#[test]
fn absolute_existing_true() {
    let path = "/bin/sh";
    let res = find_command_path("/bin", path);
    assert!(res.is_some(), "Expected to find /bin/sh via absolute path");
    let found = res.unwrap();
    assert_eq!(found, path);
}

#[test]
fn absolute_nonexisting() {
    let path = "/bin/nonexisting";
    let res = find_command_path("/bin", path);
    assert!(res.is_none(), "Expected not to find /bin/nonexisting via absolute path");
}

#[test]
fn single_component_found_in_path() {
    // Search for "sh" in PATH that includes /bin
    let res = find_command_path("/bin", "sh");
    let found = res.expect("Expected to find 'sh' in /bin via PATH search");
    assert!(
        Path::new(&found).ends_with("sh"),
        "Found path should end with 'sh' but was {:?}",
        found
    );
    assert!(Path::new(&found).starts_with("/bin"), "Expected path in /bin, got {:?}", found);
}

#[test]
fn single_component_not_found_in_path() {
    let res = find_command_path("/bin", "nonexisting");
    assert!(res.is_none(), "Expected not to find 'nonexisting' in PATH");
}

#[test]
fn empty_path_is_none() {
    let res = find_command_path("/bin", "");
    assert!(res.is_none(), "Empty path should not resolve to anything");
}

#[test]
fn search_path_order_decides() {
    // `sh` exists in /bin; nothing exists in the other directory.
    assert_eq!(find_command_path("/nonexisting-dir:/bin", "sh"), Some("/bin/sh".to_string()));
    assert_eq!(find_command_path("/bin:/nonexisting-dir", "sh"), Some("/bin/sh".to_string()));
    // Both entries hold `sh`: the first in the search path wins.
    assert_eq!(find_command_path("/bin:/bin/", "sh"), Some("/bin/sh".to_string()));
    assert_eq!(find_command_path("/bin/:/bin/.", "sh"), Some("/bin/sh".to_string()));
    assert_eq!(find_command_path("/bin/.:/bin", "sh"), Some("/bin/./sh".to_string()));
}

#[test]
fn kinds_of_command_names() {
    assert_eq!(classify(""), PathKind::Empty);
    assert_eq!(classify("/bin/sh"), PathKind::Absolute);
    assert_eq!(classify("/"), PathKind::Absolute);
    assert_eq!(classify("./foo"), PathKind::Relative);
    assert_eq!(classify("bin/sh"), PathKind::Relative);
    assert_eq!(classify("a/./b"), PathKind::Relative);
    assert_eq!(classify("a/.."), PathKind::Relative);
    assert_eq!(classify("."), PathKind::Relative);
    assert_eq!(classify("./"), PathKind::Relative);
    assert_eq!(classify("sh"), PathKind::Bare);
    assert_eq!(classify("sh/"), PathKind::Bare);
    assert_eq!(classify("sh/."), PathKind::Bare);
    assert_eq!(classify("sh//./"), PathKind::Bare);
    assert_eq!(classify(".."), PathKind::Bare);
    assert_eq!(classify(".hidden"), PathKind::Bare);
}

#[test]
fn kinds_follow_the_components_of_the_standard_library() {
    for name in [
        "", "/", "/bin/sh", "//x", "sh", "sh/", "sh//", "sh/.", "sh/./", "sh/..", "a/b", "a//b",
        "a/./b", ".", "./", ".//", "./.", "./a", ".a", "a.", "..", "../", "../a", "...", "a/.b",
        "a/b.", "a/../", "é/ü", "x/./.", "x/.//.", "x/./y",
    ] {
        let path = Path::new(name);
        let components: Vec<Component> = path.components().collect();
        let expected = if name.is_empty() {
            PathKind::Empty
        } else if path.is_absolute() {
            PathKind::Absolute
        } else if components.len() >= 2 || components[0] == Component::CurDir {
            PathKind::Relative
        } else {
            PathKind::Bare
        };
        assert_eq!(classify(name), expected, "{:?}", name);
        if expected == PathKind::Bare {
            assert_eq!(
                bare_name(name),
                components[0].as_os_str().to_string_lossy().to_string(),
                "{:?}",
                name
            );
        }
    }
}

#[test]
fn a_name_with_a_trailing_slash_is_searched_for() {
    let holds = |p: &str| p == "/bin/sh";
    assert_eq!(find_command_path_with("/usr/bin:/bin", "sh/", holds), Some("/bin/sh".to_string()));
    assert_eq!(find_command_path("/bin", "sh/"), Some("/bin/sh".to_string()));
}

#[test]
fn the_first_entry_that_holds_the_name_wins() {
    let holds = |p: &str| p == "/a/n" || p == "/b/n";
    assert_eq!(find_command_path_with("/a:/b", "n", holds), Some("/a/n".to_string()));
    assert_eq!(find_command_path_with("/b:/a", "n", holds), Some("/b/n".to_string()));
    assert_eq!(find_command_path_with("/c:/b:/a", "n", holds), Some("/b/n".to_string()));
    assert_eq!(find_command_path_with("/c:/d", "n", holds), None);
    assert_eq!(find_in_path("/a:/b", "n", holds), Some("/a/n".to_string()));
}

#[test]
fn no_entry_is_tried_after_the_first_match() {
    let tried = std::cell::RefCell::new(Vec::<String>::new());
    let holds = |p: &str| {
        tried.borrow_mut().push(p.to_string());
        p == "/b/n"
    };
    assert_eq!(find_command_path_with("/a:/b:/c", "n", holds), Some("/b/n".to_string()));
    assert_eq!(*tried.borrow(), vec!["/a/n".to_string(), "/b/n".to_string()]);
}

#[test]
fn paths_resolve_only_where_something_exists() {
    let holds = |p: &str| p == "/bin/sh" || p == "./run" || p == "bin/tool";
    assert_eq!(find_command_path_with("/x", "/bin/sh", holds), Some("/bin/sh".to_string()));
    assert_eq!(find_command_path_with("/x", "/bin/no", holds), None);
    assert_eq!(find_command_path_with("/x", "./run", holds), Some("./run".to_string()));
    assert_eq!(find_command_path_with("/x", "./no", holds), None);
    assert_eq!(find_command_path_with("/x", "bin/tool", holds), Some("bin/tool".to_string()));
    assert_eq!(find_command_path_with("/x", "", |_p: &str| true), None);
    assert_eq!(find_by_path("here", |_p: &str| true), Some("here".to_string()));
    assert_eq!(find_by_path("here", |_p: &str| false), None);
}

#[test]
fn the_chosen_candidate_is_the_one_at_the_index() {
    let paths = vec!["/a/n".to_string(), "/b/n".to_string()];
    assert_eq!(chosen(&paths, 1), Some("/b/n".to_string()));
    assert_eq!(chosen(&paths, 0), Some("/a/n".to_string()));
}

#[test]
fn search_path_is_split_at_colons() {
    assert_eq!(split_search_paths(""), vec!["".to_string()]);
    assert_eq!(split_search_paths("/bin"), vec!["/bin".to_string()]);
    assert_eq!(
        split_search_paths("/usr/bin:/bin"),
        vec!["/usr/bin".to_string(), "/bin".to_string()]
    );
    assert_eq!(
        split_search_paths(":/a::/b:"),
        vec!["".to_string(), "/a".to_string(), "".to_string(), "/b".to_string(), "".to_string()]
    );
}

#[test]
fn joining_follows_the_standard_library() {
    for (dir, name) in [("/bin", "sh"), ("/bin/", "sh"), ("", "sh"), ("/", "sh"), ("a/b", "c")] {
        assert_eq!(
            join_path(dir, name),
            Path::new(dir).join(name).to_string_lossy().to_string(),
            "{:?} and {:?}",
            dir,
            name
        );
    }
}

#[test]
fn candidates_are_in_search_path_order() {
    assert_eq!(
        candidates("/usr/bin:/bin/::x", "ls"),
        vec![
            "/usr/bin/ls".to_string(),
            "/bin/ls".to_string(),
            "ls".to_string(),
            "x/ls".to_string(),
        ]
    );
}

#[test]
fn search_takes_the_first_candidate_that_exists() {
    assert_eq!(search_step(3, &vec![]), SearchStep::Probe(0));
    assert_eq!(search_step(3, &vec![false]), SearchStep::Probe(1));
    assert_eq!(search_step(3, &vec![false, true]), SearchStep::Found(1));
    assert_eq!(search_step(3, &vec![true, true]), SearchStep::Found(0));
    assert_eq!(search_step(3, &vec![false, false, false]), SearchStep::NotFound);
    assert_eq!(search_step(3, &vec![false, false, true]), SearchStep::Found(2));
    assert_eq!(search_step(0, &vec![]), SearchStep::NotFound);
}

#[test]
fn exit_code_of_a_process() {
    assert_eq!(exit_code_of(Some(0), None, false), 0);
    assert_eq!(exit_code_of(Some(3), Some(9), true), 3);
    assert_eq!(exit_code_of(None, Some(9), false), 137);
    assert_eq!(exit_code_of(None, Some(15), true), 143);
    assert_eq!(exit_code_of(None, None, true), 255);
    assert_eq!(exit_code_of(None, None, false), -1);
}

#[test]
fn a_path_is_found_where_something_exists() {
    assert_eq!(found_at("/bin/sh", true), Some("/bin/sh".to_string()));
    assert_eq!(found_at("./run", true), Some("./run".to_string()));
    assert_eq!(found_at("/bin/sh", false), None);
}
