use unf::filename_parts::FilenameParts;

#[test]
fn from_filename() {
    assert_eq!(
        FilenameParts::from_filename("a"),
        FilenameParts {
            stem: "a".to_string(),
            num: None,
            ext: None,
        }
    );
    assert_eq!(
        FilenameParts::from_filename("a."),
        FilenameParts {
            stem: "a".to_string(),
            num: None,
            ext: Some("".to_string()),
        }
    );
    assert_eq!(
        FilenameParts::from_filename(".a"),
        FilenameParts {
            stem: "".to_string(),
            num: None,
            ext: Some("a".to_string()),
        }
    );
    assert_eq!(
        FilenameParts::from_filename("a_0000"),
        FilenameParts {
            stem: "a_0000".to_string(),
            num: None,
            ext: None,
        }
    );
    assert_eq!(
        FilenameParts::from_filename("a_137"),
        FilenameParts {
            stem: "a".to_string(),
            num: Some(137),
            ext: None,
        }
    );
    assert_eq!(
        FilenameParts::from_filename("a_000.txt"),
        FilenameParts {
            stem: "a".to_string(),
            num: Some(0),
            ext: Some("txt".to_string()),
        }
    );
    assert_eq!(
        FilenameParts::from_filename("a____000.txt"),
        FilenameParts {
            stem: "a___".to_string(),
            num: Some(0),
            ext: Some("txt".to_string()),
        }
    );
    assert_eq!(
        FilenameParts::from_filename(".x._._._222.txt"),
        FilenameParts {
            stem: ".x._._.".to_string(),
            num: Some(222),
            ext: Some("txt".to_string()),
        }
    );
}

#[test]
fn merge() {
    assert_eq!(
        "a",
        FilenameParts {
            stem: "a".to_string(),
            num: None,
            ext: None,
        }
        .merge()
    );
    assert_eq!(
        "a.",
        FilenameParts {
            stem: "a".to_string(),
            num: None,
            ext: Some("".to_string()),
        }
        .merge()
    );
    assert_eq!(
        ".a",
        FilenameParts {
            stem: "".to_string(),
            num: None,
            ext: Some("a".to_string()),
        }
        .merge()
    );
    assert_eq!(
        "a_0000",
        FilenameParts {
            stem: "a_0000".to_string(),
            num: None,
            ext: None,
        }
        .merge()
    );
    assert_eq!(
        "a_137",
        FilenameParts {
            stem: "a".to_string(),
            num: Some(137),
            ext: None,
        }
        .merge()
    );
    assert_eq!(
        "a_000.txt",
        FilenameParts {
            stem: "a".to_string(),
            num: Some(0),
            ext: Some("txt".to_string()),
        }
        .merge()
    );
    assert_eq!(
        "a____000.txt",
        FilenameParts {
            stem: "a___".to_string(),
            num: Some(0),
            ext: Some("txt".to_string()),
        }
        .merge()
    );
    assert_eq!(
        ".x._._._222.txt",
        FilenameParts {
            stem: ".x._._.".to_string(),
            num: Some(222),
            ext: Some("txt".to_string()),
        }
        .merge()
    );
}

// The counter is rendered with a minimum width of three digits: it is padded
// below `100` and grows past `999`, never truncated.
#[test]
fn counter_padding() {
    let f = |num: usize| -> String {
        FilenameParts {
            stem: "a".to_string(),
            num: Some(num),
            ext: None,
        }
        .merge()
    };
    assert_eq!(f(7), "a_007");
    assert_eq!(f(77), "a_077");
    assert_eq!(f(777), "a_777");
    assert_eq!(f(1000), "a_1000");
    assert_eq!(f(123456), "a_123456");
}

// Round trip: decomposing and re-merging a filename gives it back exactly.
#[test]
fn round_trip() {
    for name in [
        "a",
        "a.",
        ".a",
        "a_000.txt",
        "a_0000",
        ".x._._._222.txt",
        "e_999.txt",
        "e_1000.txt",
        "no_counter_here.tar.gz",
        "_123",
    ] {
        assert_eq!(FilenameParts::from_filename(name).merge(), name);
    }
}

// The counter-detection rule wants exactly an underscore and three decimal
// digits at the end of the stem region.
#[test]
fn counter_detection_edges() {
    assert_eq!(FilenameParts::from_filename("a_12").num, None);
    assert_eq!(FilenameParts::from_filename("a_+12").num, None);
    assert_eq!(FilenameParts::from_filename("a12").num, None);
    assert_eq!(FilenameParts::from_filename("_123").num, Some(123));
    assert_eq!(FilenameParts::from_filename("_123").stem, "");
}
