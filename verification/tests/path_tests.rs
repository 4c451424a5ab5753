//! Tests for the path utilities.

use fieldread::path::{
    append_path_component, path_apply_working_directory, path_get_cache, path_get_config,
    path_get_config_remoteness, path_get_data, path_get_data_remoteness, path_get_path,
    path_get_paths, path_make_canonical, path_remoteness_of_magic, path_try_get_path,
    paths_are_equivalent, paths_are_same_file, BaseDirectory, DirRemoteness, FileId, FileMeta,
    FsEntry, FsView, ERR_ACCES, ERR_NOENT,
};

fn cs(s: &str) -> Vec<char> {
    s.chars().collect()
}

fn text(v: &[char]) -> String {
    v.iter().collect()
}

#[test]
fn test_path_make_canonical() {
    let mut path = cs("//foo//////bar/");
    path_make_canonical(&mut path);
    assert_eq!(text(&path), "/foo/bar");

    path = cs("/");
    path_make_canonical(&mut path);
    assert_eq!(text(&path), "/");
}

#[test]
fn test_path() {
    let mut path = cs("//foo//////bar/");
    path_make_canonical(&mut path);
    assert_eq!(text(&path), "/foo/bar");

    path = cs("/");
    path_make_canonical(&mut path);
    assert_eq!(text(&path), "/");

    path = cs("/home/fishuser/");
    path_make_canonical(&mut path);
    assert_eq!(text(&path), "/home/fishuser");

    assert!(!paths_are_equivalent(&cs("/foo/bar/baz"), &cs("foo/bar/baz")));
    assert!(paths_are_equivalent(&cs("///foo///bar/baz"), &cs("/foo/bar////baz//")));
    assert!(paths_are_equivalent(&cs("/foo/bar/baz"), &cs("/foo/bar/baz")));
    assert!(paths_are_equivalent(&cs("/"), &cs("/")));

    assert_eq!(text(&path_apply_working_directory(&cs("abc"), &cs("/def/"))), "/def/abc");
    assert_eq!(text(&path_apply_working_directory(&cs("abc/"), &cs("/def/"))), "/def/abc/");
    assert_eq!(text(&path_apply_working_directory(&cs("/abc/"), &cs("/def/"))), "/abc/");
    assert_eq!(text(&path_apply_working_directory(&cs("/abc"), &cs("/def/"))), "/abc");
    assert!(path_apply_working_directory(&cs(""), &cs("/def/")).is_empty());
    assert_eq!(text(&path_apply_working_directory(&cs("abc"), &cs(""))), "abc");
}

#[test]
fn equivalence_slash_run_edges() {
    // Runs of slashes collapse and trailing slashes are ignored, but a
    // path made only of two or more slashes compares equal only to its
    // exact twin.
    assert!(paths_are_equivalent(&cs("a//"), &cs("a")));
    assert!(paths_are_equivalent(&cs("a//b/"), &cs("a/b")));
    assert!(paths_are_equivalent(&cs(""), &cs("")));
    assert!(!paths_are_equivalent(&cs(""), &cs("/")));
    assert!(paths_are_equivalent(&cs("//"), &cs("//")));
    assert!(!paths_are_equivalent(&cs("//"), &cs("///")));
    assert!(!paths_are_equivalent(&cs("////"), &cs("/")));
}

#[test]
fn append_component_slash_rules() {
    let mut p = cs("a");
    append_path_component(&mut p, &cs("b"));
    assert_eq!(text(&p), "a/b");

    let mut p = cs("a/");
    append_path_component(&mut p, &cs("/b"));
    assert_eq!(text(&p), "a/b");

    let mut p = cs("a/");
    append_path_component(&mut p, &cs("b"));
    assert_eq!(text(&p), "a/b");

    let mut p = cs("");
    append_path_component(&mut p, &cs("b"));
    assert_eq!(text(&p), "b");

    let mut p = cs("a");
    append_path_component(&mut p, &cs(""));
    assert_eq!(text(&p), "a");
}

fn exe(path: &str) -> FsEntry {
    FsEntry { path: cs(path), meta: FileMeta { is_file: true, is_dir: false, executable: true } }
}

fn dir(path: &str) -> FsEntry {
    FsEntry { path: cs(path), meta: FileMeta { is_file: false, is_dir: true, executable: true } }
}

#[test]
fn command_search_finds_first_match() {
    let fs = FsView { entries: vec![dir("/bin"), dir("/usr/bin"), exe("/usr/bin/frob")] };
    let paths = vec![cs("/bin"), cs("/usr/bin")];
    let found = path_get_path(&cs("frob"), &paths, &fs).unwrap();
    assert_eq!(text(&found), "/usr/bin/frob");
}

#[test]
fn command_search_misses_with_noent() {
    let fs = FsView { entries: vec![dir("/bin")] };
    let paths = vec![cs("/bin")];
    assert!(path_get_path(&cs("absent"), &paths, &fs).is_none());
    let r = path_try_get_path(&cs("absent"), &paths, &fs);
    assert_eq!(r.err, Some(ERR_NOENT));
    assert!(r.path.is_empty());
}

#[test]
fn command_search_keeps_interesting_error() {
    // A candidate that exists but is not executable, in a searchable
    // directory, is reported with the permission error.
    let fs = FsView {
        entries: vec![
            dir("/bin"),
            FsEntry {
                path: cs("/bin/frob"),
                meta: FileMeta { is_file: true, is_dir: false, executable: false },
            },
        ],
    };
    let paths = vec![cs("/bin")];
    let r = path_try_get_path(&cs("frob"), &paths, &fs);
    assert_eq!(r.err, Some(ERR_ACCES));
    assert_eq!(text(&r.path), "/bin/frob");
}

#[test]
fn command_with_slash_tested_directly() {
    let fs = FsView { entries: vec![exe("./tool")] };
    let paths: Vec<Vec<char>> = Vec::new();
    let found = path_get_path(&cs("./tool"), &paths, &fs).unwrap();
    assert_eq!(text(&found), "./tool");
}

#[test]
fn all_matching_candidates_in_order() {
    let fs = FsView {
        entries: vec![dir("/a"), dir("/b"), exe("/a/x"), exe("/b/x")],
    };
    let paths = vec![cs("/a"), cs(""), cs("/b")];
    let all = path_get_paths(&cs("x"), &paths, &fs);
    let names: Vec<String> = all.iter().map(|p| text(p)).collect();
    assert_eq!(names, vec!["/a/x".to_string(), "/b/x".to_string()]);
}

#[test]
fn same_file_by_identity() {
    let a = Some(FileId { ino: 7, dev: 3 });
    let b = Some(FileId { ino: 7, dev: 3 });
    let c = Some(FileId { ino: 8, dev: 3 });
    assert!(paths_are_same_file(&cs("/x"), &cs("/y"), a, b));
    assert!(!paths_are_same_file(&cs("/x"), &cs("/y"), a, c));
    assert!(paths_are_same_file(&cs("/x//"), &cs("/x"), None, None));
    assert!(!paths_are_same_file(&cs("/x"), &cs("/y"), a, None));
}

#[test]
fn remoteness_magic_classification() {
    assert_eq!(path_remoteness_of_magic(0x6969), DirRemoteness::remote);
    assert_eq!(path_remoteness_of_magic(0xFF534D42), DirRemoteness::remote);
    assert_eq!(path_remoteness_of_magic(0x1234), DirRemoteness::unknown);
}

#[test]
fn base_directory_getters() {
    let ok = BaseDirectory {
        path: cs("/home/u/.config/fieldread"),
        remoteness: DirRemoteness::local,
        err: 0,
        used_xdg: false,
    };
    assert_eq!(text(&path_get_config(&ok).unwrap()), "/home/u/.config/fieldread");
    assert_eq!(text(&path_get_data(&ok).unwrap()), "/home/u/.config/fieldread");
    assert_eq!(text(&path_get_cache(&ok).unwrap()), "/home/u/.config/fieldread");
    assert_eq!(path_get_config_remoteness(&ok), DirRemoteness::local);
    assert_eq!(path_get_data_remoteness(&ok), DirRemoteness::local);

    let bad = BaseDirectory {
        path: cs("/nowhere"),
        remoteness: DirRemoteness::unknown,
        err: ERR_NOENT,
        used_xdg: true,
    };
    assert!(path_get_config(&bad).is_none());
    assert!(path_get_data(&bad).is_none());
    assert!(path_get_cache(&bad).is_none());
}
