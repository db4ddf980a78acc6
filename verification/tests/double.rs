//! Behavior of the in-memory filesystem double itself.

use safe_open::mockfs::{
    initialize_mockfs, CreateError, FileType, MockFs, AT_FDCWD, O_NOFOLLOW, O_RDONLY,
};
use safe_open::path::{parse_path, path_eq};

#[test]
fn initial_layout_is_present() {
    let fs = initialize_mockfs();
    match fs.traverse_path(&parse_path("/protected")) {
        Some((FileType::Regular(_), p)) => assert!(path_eq(&p, &parse_path("/protected"))),
        _ => panic!("expected the protected file"),
    }
    match fs.traverse_path(&parse_path("/public")) {
        Some((FileType::Regular(_), p)) => assert!(path_eq(&p, &parse_path("/public"))),
        _ => panic!("expected the public file"),
    }
    match fs.traverse_path(&parse_path("/link")) {
        Some((FileType::Symlink(t), _)) => assert_eq!(t, "/public"),
        _ => panic!("expected the link"),
    }
}

#[test]
fn parse_path_drops_empty_components() {
    let p = parse_path("/a//b/");
    assert_eq!(p.len(), 2);
    assert_eq!(p[0], "a");
    assert_eq!(p[1], "b");
    assert_eq!(parse_path("/").len(), 0);
    assert_eq!(parse_path("").len(), 0);
    assert!(path_eq(&parse_path("a/b"), &parse_path("/a//b/")));
}

#[test]
fn create_makes_missing_parent_directories() {
    let mut fs = MockFs::new();
    assert!(fs.create("/d/e/f", FileType::Regular(String::from("deep"))).is_ok());
    match fs.traverse_path(&parse_path("/d/e")) {
        Some((FileType::Directory, _)) => {}
        _ => panic!("expected an implied directory"),
    }
    match fs.traverse_path(&parse_path("/d/e/f")) {
        Some((FileType::Regular(c), _)) => assert_eq!(c, "deep"),
        _ => panic!("expected the file"),
    }
}

#[test]
fn create_refuses_duplicates_and_bad_parents() {
    let mut fs = initialize_mockfs();
    assert_eq!(
        fs.create("/public", FileType::Regular(String::from("again"))),
        Err(CreateError::AlreadyExists)
    );
    assert_eq!(
        fs.create("/public/below", FileType::Regular(String::from("below"))),
        Err(CreateError::NotADirectory)
    );
    assert_eq!(
        fs.create("", FileType::Regular(String::from("empty"))),
        Err(CreateError::InvalidPath)
    );
}

#[test]
fn remove_takes_files_and_empty_directories_only() {
    let mut fs = initialize_mockfs();
    assert!(fs.create("/d/e/f", FileType::Regular(String::from("deep"))).is_ok());
    // A directory with a child stays.
    assert!(!fs.remove("/d"));
    assert!(fs.remove("/d/e/f"));
    assert!(fs.traverse_path(&parse_path("/d/e/f")).is_none());
    // Now empty, the directory goes.
    assert!(fs.remove("/d/e"));
    assert!(fs.remove("/d"));
    assert!(!fs.remove("/absent"));
}

#[test]
fn link_checks_its_source_and_writes_a_symlink() {
    let mut fs = initialize_mockfs();
    assert!(!fs.link("/absent", "/alias"));
    assert!(fs.link("/public", "/alias"));
    match fs.traverse_path(&parse_path("/alias")) {
        Some((FileType::Symlink(t), _)) => assert_eq!(t, "/public"),
        _ => panic!("expected a symlink"),
    }
}

#[test]
fn readlinkat_reads_only_symlinks() {
    let fs = initialize_mockfs();
    assert_eq!(fs.readlinkat(AT_FDCWD, "/link"), Some(String::from("/public")));
    assert!(fs.readlinkat(AT_FDCWD, "/public").is_none());
    assert!(fs.readlinkat(AT_FDCWD, "/absent").is_none());
    assert_eq!(fs.read_link("/link"), Some(String::from("/public")));
}

#[test]
fn openat_follows_links_unless_nofollow() {
    let mut fs = initialize_mockfs();
    let fd = fs.openat(AT_FDCWD, "/link", O_RDONLY).unwrap();
    let p = fs.resolve_descriptor_to_absolute_path(fd).unwrap();
    assert!(path_eq(&p, &parse_path("/public")));
    assert!(fs.openat(AT_FDCWD, "/link", O_NOFOLLOW).is_none());
}

#[test]
fn open_relative_no_follow_opens_exactly_one_name() {
    let mut fs = initialize_mockfs();
    let root = fs.open("/", O_RDONLY).unwrap();
    let name = String::from("public");
    let fd = fs.open_relative_no_follow(root, &name, O_NOFOLLOW).unwrap();
    let p = fs.resolve_descriptor_to_absolute_path(fd).unwrap();
    assert!(path_eq(&p, &parse_path("/public")));
    let linkname = String::from("link");
    assert!(fs.open_relative_no_follow(root, &linkname, O_NOFOLLOW).is_none());
    let absent = String::from("absent");
    assert!(fs.open_relative_no_follow(root, &absent, O_NOFOLLOW).is_none());
}

#[test]
fn read_symlink_relative_reads_under_the_descriptor() {
    let mut fs = initialize_mockfs();
    let root = fs.open("/", O_RDONLY).unwrap();
    let name = String::from("link");
    assert_eq!(fs.read_symlink_relative(root, &name), Some(String::from("/public")));
    let plain = String::from("public");
    assert!(fs.read_symlink_relative(root, &plain).is_none());
}

#[test]
fn convert_relative_to_absolute_path_joins_the_current_directory() {
    let mut fs = MockFs::new();
    assert!(fs.create("/d/x", FileType::Regular(String::from("x"))).is_ok());
    fs.set_current_dir("/d");
    assert!(path_eq(&fs.convert_relative_to_absolute_path("x"), &parse_path("/d/x")));
    assert!(path_eq(&fs.convert_relative_to_absolute_path("."), &parse_path("/d")));
    assert!(path_eq(&fs.convert_relative_to_absolute_path("/x"), &parse_path("/x")));
}

#[test]
fn traverse_path_mut_finds_exact_entries() {
    let fs = initialize_mockfs();
    assert!(fs.traverse_path_mut(&parse_path("/public")).is_some());
    assert!(fs.traverse_path_mut(&parse_path("/absent")).is_none());
    assert!(fs.traverse_path_mut(&parse_path("/")).is_none());
}

#[test]
fn descriptors_are_distinct_and_stable() {
    let mut fs = initialize_mockfs();
    let a = fs.open("/public", O_RDONLY).unwrap();
    let b = fs.open("/protected", O_RDONLY).unwrap();
    assert_ne!(a, b);
    // Removing the object does not unbind the descriptor.
    assert!(fs.remove("/public"));
    let p = fs.resolve_descriptor_to_absolute_path(a).unwrap();
    assert!(path_eq(&p, &parse_path("/public")));
}

#[test]
fn dot_names_the_current_directory_everywhere() {
    // `open` and `openat(AT_FDCWD, ..)` agree on `.`: both yield the
    // current directory.
    let mut fs = MockFs::new();
    assert!(fs.create("/d/x", FileType::Regular(String::from("x"))).is_ok());
    fs.set_current_dir("/d");
    let a = fs.open(".", O_RDONLY).unwrap();
    let b = fs.openat(AT_FDCWD, ".", O_RDONLY).unwrap();
    let pa = fs.resolve_descriptor_to_absolute_path(a).unwrap();
    let pb = fs.resolve_descriptor_to_absolute_path(b).unwrap();
    assert!(path_eq(&pa, &parse_path("/d")));
    assert!(path_eq(&pa, &pb));
}

#[test]
fn dot_components_are_dropped_in_paths() {
    let p = parse_path("/a/./b");
    assert_eq!(p.len(), 2);
    assert_eq!(p[0], "a");
    assert_eq!(p[1], "b");
    assert_eq!(parse_path(".").len(), 0);
    assert!(path_eq(&parse_path("./a/."), &parse_path("a")));
    let mut fs = initialize_mockfs();
    let fd = fs.openat(AT_FDCWD, "/./public/.", O_RDONLY).unwrap();
    let pp = fs.resolve_descriptor_to_absolute_path(fd).unwrap();
    assert!(path_eq(&pp, &parse_path("/public")));
}

#[test]
fn close_unbinds_a_descriptor() {
    let mut fs = initialize_mockfs();
    let fd = fs.open("/public", O_RDONLY).unwrap();
    assert!(fs.close(fd));
    assert!(fs.resolve_descriptor_to_absolute_path(fd).is_none());
    assert!(!fs.close(fd));
    // Descriptor numbers are not reused.
    let fd2 = fs.open("/public", O_RDONLY).unwrap();
    assert_ne!(fd, fd2);
}
