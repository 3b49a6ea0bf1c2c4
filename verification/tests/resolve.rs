use unf::mem_fs::MemFs;
use unf::resolve::inc_filename_num;
use unf::resolve::path_exists;
use unf::resolve::resolve_collision;

fn file_name_of_path(p: &str) -> String {
    p.rsplit('/').next().unwrap().to_string()
}

#[test]
fn test_resolve_collision() {
    let mut fs = MemFs::new();
    let root = "/";

    // helper taking a collider filename, returning the resolved filename
    let mut f = |filename: &str| -> String {
        let path = format!("/{}", filename);
        fs.create_file(&path).unwrap();
        let resolved = resolve_collision(&fs, root, &path);
        file_name_of_path(&resolved)
    };

    assert_eq!(f("a"), "a_000");
    assert_eq!(f("b_000"), "b_001");
    assert_eq!(f("c.txt"), "c_000.txt");
    assert_eq!(f("d_333.txt"), "d_334.txt");
    assert_eq!(f("e_999.txt"), "e_1000.txt");
    assert_eq!(f("e_1000.txt"), "e_1000_000.txt");
    assert_eq!(f("z___222.txt"), "z___223.txt");
    assert_eq!(f(".x._._._222.txt"), ".x._._._223.txt");
}

// A candidate that does not exist comes back unchanged; the result of a
// resolution never exists at call time.
#[test]
fn resolution_is_free() {
    let mut fs = MemFs::new();
    fs.create_dir("/d").unwrap();
    fs.create_file("/d/a.txt").unwrap();

    assert_eq!(resolve_collision(&fs, "/", "/d/b.txt"), "/d/b.txt");

    let r = resolve_collision(&fs, "/", "/d/a.txt");
    assert_eq!(r, "/d/a_000.txt");
    assert!(!path_exists(&fs, "/", &r));
}

// Counters only grow along a resolution chain: each bump strictly increases
// the counter, and the width grows past `999` instead of wrapping.
#[test]
fn chain_counters_grow() {
    assert_eq!(inc_filename_num("a"), "a_000");
    assert_eq!(inc_filename_num("a_000"), "a_001");
    assert_eq!(inc_filename_num("a_007"), "a_008");
    assert_eq!(inc_filename_num("a_999"), "a_1000");
    assert_eq!(inc_filename_num("a_1000"), "a_1000_000");
    assert_eq!(inc_filename_num("a_999.txt"), "a_1000.txt");
}

// A resolution against many existing colliders walks the counters upward
// without reusing any gap below the existing ones.
#[test]
fn resolution_walks_upward() {
    let mut fs = MemFs::new();
    fs.create_file("/n.txt").unwrap();
    fs.create_file("/n_000.txt").unwrap();
    fs.create_file("/n_001.txt").unwrap();
    fs.create_file("/n_002.txt").unwrap();
    assert_eq!(resolve_collision(&fs, "/", "/n.txt"), "/n_003.txt");
}
