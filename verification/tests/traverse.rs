use unf::mem_fs::MemFs;
use unf::opts::Flags;
use unf::traverse::Answers;
use unf::traverse::RenameOp;
use unf::traverse::render_lines;
use unf::traverse::unixize_paths;

fn sample_tree(cwd: &str) -> MemFs {
    let mut fs = MemFs::new();
    fs.create_dir_all(cwd).unwrap();
    fs.create_dir(&format!("{}/My Folder", cwd)).unwrap();
    fs.create_dir(&format!("{}/My Files", cwd)).unwrap();
    fs.create_file(&format!("{}/My Files/Passwords :) .txt", cwd))
        .unwrap();
    fs.create_file(&format!("{}/My Files/Another Cool Photo.JPG", cwd))
        .unwrap();
    fs.create_file(&format!("{}/My Files/Wow Cool Photo.JPG", cwd))
        .unwrap();
    fs.create_file(&format!("{}/My Files/Cool Photo.JPG", cwd))
        .unwrap();
    fs
}

fn run(fs: &mut MemFs, cwd: &str, paths: &[&str], flags: Flags) -> Vec<RenameOp> {
    let paths: Vec<String> = paths.iter().map(|p| p.to_string()).collect();
    let mut answers = Answers::new(Vec::new());
    let mut ops: Vec<RenameOp> = Vec::new();
    unixize_paths(fs, cwd, &paths, flags, &mut answers, &mut ops).unwrap();
    ops
}

const FORCE: Flags = Flags {
    recursive: true,
    force: true,
    dry_run: false,
};

const DRY: Flags = Flags {
    recursive: true,
    force: false,
    dry_run: true,
};

#[test]
fn recursive_forced_run() {
    let cwd = "/work";
    let mut fs = sample_tree(cwd);
    let ops = run(&mut fs, cwd, &["My Files/", "My Folder"], FORCE);
    let lines = render_lines(&ops, false);
    assert_eq!(
        lines,
        vec![
            "rename 'My Files/Another Cool Photo.JPG' -> 'My Files/Another_Cool_Photo.JPG'",
            "rename 'My Files/Cool Photo.JPG' -> 'My Files/Cool_Photo.JPG'",
            "rename 'My Files/Passwords :) .txt' -> 'My Files/Passwords.txt'",
            "rename 'My Files/Wow Cool Photo.JPG' -> 'My Files/Wow_Cool_Photo.JPG'",
            "rename 'My Files/' -> 'My_Files'",
            "rename 'My Folder' -> 'My_Folder'",
        ]
    );
    // the renamed entries exist; the old names are gone
    assert!(fs.contains_path("/work/My_Files/Passwords.txt"));
    assert!(fs.contains_path("/work/My_Files/Another_Cool_Photo.JPG"));
    assert!(fs.contains_path("/work/My_Folder"));
    assert!(!fs.contains_path("/work/My Files"));
    assert!(!fs.contains_path("/work/My Folder"));
}

// A dry run reports exactly the lines a real run would, with `would ` in
// front of each: the same operations are computed either way.
#[test]
fn dry_run_matches_forced_run() {
    let cwd = "/work";

    let mut fs_forced = sample_tree(cwd);
    let forced_ops = run(&mut fs_forced, cwd, &["My Files/", "My Folder"], FORCE);
    let forced_lines = render_lines(&forced_ops, false);

    let mut fs_dry = sample_tree(cwd);
    let dry_ops = run(&mut fs_dry, cwd, &["My Files/", "My Folder"], DRY);
    let dry_lines = render_lines(&dry_ops, true);

    assert_eq!(forced_lines.len(), dry_lines.len());
    for (wet, dry) in forced_lines.iter().zip(dry_lines.iter()) {
        assert_eq!(format!("would {}", wet), *dry);
    }
}

// Colliding targets get counters in input order, never overwriting anything.
#[test]
fn colliding_targets_get_counters() {
    let cwd = "/w";
    let mut fs = MemFs::new();
    fs.create_dir_all(cwd).unwrap();
    let names = [
        "--fake-flag.txt",
        "fake-flag.txt",
        "------fake-flag.txt",
        " fake-flag.txt",
        "\tfake-flag.txt",
    ];
    for n in names {
        fs.create_file(&format!("{}/{}", cwd, n)).unwrap();
    }
    let flags = Flags {
        recursive: false,
        force: true,
        dry_run: false,
    };
    let ops = run(&mut fs, cwd, &names, flags);
    let lines = render_lines(&ops, false);
    assert_eq!(
        lines,
        vec![
            "rename '--fake-flag.txt' -> 'fake-flag_000.txt'",
            "rename '------fake-flag.txt' -> 'fake-flag_001.txt'",
            "rename ' fake-flag.txt' -> 'fake-flag_002.txt'",
            "rename '\tfake-flag.txt' -> 'fake-flag_003.txt'",
        ]
    );
    assert!(fs.contains_path("/w/fake-flag.txt"));
    assert!(fs.contains_path("/w/fake-flag_000.txt"));
    assert!(fs.contains_path("/w/fake-flag_003.txt"));
}

// In interactive mode each question consumes one answer; "no" (and an
// exhausted queue) skips the entry, "yes" renames it.
#[test]
fn interactive_answers() {
    let cwd = "/w";
    let mut fs = MemFs::new();
    fs.create_dir_all(cwd).unwrap();
    fs.create_file("/w/a b.txt").unwrap();
    fs.create_file("/w/c d.txt").unwrap();
    let flags = Flags {
        recursive: false,
        force: false,
        dry_run: false,
    };
    let paths: Vec<String> = vec!["a b.txt".to_string(), "c d.txt".to_string()];
    let mut answers = Answers::new(vec![true]);
    let mut ops = Vec::new();
    unixize_paths(&mut fs, cwd, &paths, flags, &mut answers, &mut ops).unwrap();
    assert_eq!(ops.len(), 1);
    assert_eq!(ops[0].from, "a b.txt");
    assert_eq!(ops[0].to, "a_b.txt");
    assert!(fs.contains_path("/w/a_b.txt"));
    assert!(fs.contains_path("/w/c d.txt"));
}

// A missing input path aborts the run with an error.
#[test]
fn missing_path_is_an_error() {
    let cwd = "/w";
    let mut fs = MemFs::new();
    fs.create_dir_all(cwd).unwrap();
    let paths = vec!["nope also missing".to_string()];
    let mut answers = Answers::new(Vec::new());
    let mut ops = Vec::new();
    let r = unixize_paths(&mut fs, cwd, &paths, FORCE, &mut answers, &mut ops);
    assert_eq!(r, Err(unf::mem_fs::FsError::NotFound));
}

// The in-memory filesystem lists children in sorted order and reports the
// documented error kinds.
#[test]
fn mem_fs_surface() {
    let mut fs = MemFs::new();
    fs.create_dir_all("/t/d").unwrap();
    fs.create_file("/t/d/b").unwrap();
    fs.create_file("/t/d/a").unwrap();
    fs.create_dir("/t/d/c").unwrap();
    assert_eq!(fs.list_children("/t/d").unwrap(), vec!["a", "b", "c"]);
    assert_eq!(
        fs.list_children("/t/x").unwrap_err(),
        unf::mem_fs::FsError::NotFound
    );
    assert_eq!(
        fs.list_children("/t/d/a").unwrap_err(),
        unf::mem_fs::FsError::NotADirectory
    );
    assert_eq!(
        fs.create_file("/t/d/a").unwrap_err(),
        unf::mem_fs::FsError::AlreadyExists
    );
    assert_eq!(
        fs.rename("/t/d/a", "/t/d/b").unwrap_err(),
        unf::mem_fs::FsError::AlreadyExists
    );
    assert_eq!(
        fs.rename("/t/d", "/t/d/c/x").unwrap_err(),
        unf::mem_fs::FsError::Invalid
    );
    fs.rename("/t/d", "/t/e").unwrap();
    assert!(fs.contains_path("/t/e/a"));
    assert!(!fs.contains_path("/t/d"));
    assert!(fs.metadata("/t/e/c").unwrap().is_dir);
    assert!(!fs.metadata("/t/e/a").unwrap().is_dir);
}
