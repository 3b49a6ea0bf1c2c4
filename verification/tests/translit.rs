use unf::translit::unixize_filename_str;

#[test]
fn test_unixize_filename_str() {
    let f = unixize_filename_str;
    assert_eq!(f("verbatim"), "verbatim");
    assert_eq!(f("__trim____"), "trim");
    assert_eq!(f("__a___b___c__"), "a_b_c");
    assert_eq!(f("  a   b   c  "), "a_b_c");
    assert_eq!(f("a-b-c"), "a-b-c");
    assert_eq!(
        f("🤔😀😃😄😁😆😅emojis.txt"),
        "thinking_grinning_smiley_smile_grin_laughing_sweat_smile_emojis.txt"
    );
    assert_eq!(f("Æneid"), "AEneid");
    assert_eq!(f("étude"), "etude");
    assert_eq!(f("北亰"), "Bei_Jing");
    assert_eq!(f("げんまい茶"), "genmaiCha");
    assert_eq!(f("🦄☣"), "unicorn_biohazard");
    assert_eq!(f("Game (Not Pirated 😉).rar"), "Game_Not_Pirated_wink.rar");
    assert_eq!(f("--fake-flag"), "fake-flag");
    assert_eq!(f("Évidemment"), "Evidemment");
    assert_eq!(f("àà_y_ü"), "aa_y_u");
}

// Transliterating twice equals transliterating once.
#[test]
fn idempotence() {
    for name in [
        "verbatim",
        "__trim____",
        "  a   b   c  ",
        "Game (Not Pirated 😉).rar",
        "Æneid",
        "...",
        "___",
        "",
        "a_.b",
        "-x-",
    ] {
        let once = unixize_filename_str(name);
        let twice = unixize_filename_str(&once);
        assert_eq!(once, twice);
    }
}

// A name of nothing but disallowed characters transliterates to the empty
// string, which callers treat as a valid, if unusual, target name.
#[test]
fn empty_result() {
    assert_eq!(unixize_filename_str("___"), "");
    assert_eq!(unixize_filename_str("()"), "");
    assert_eq!(unixize_filename_str(""), "");
}

// Characters strictly below the ASCII DEL character pass through the
// transcription untouched (a control character then becomes an underscore),
// while DEL itself is dropped by the transcription before the underscore
// substitution can see it.
#[test]
fn del_is_transcribed_away() {
    assert_eq!(unixize_filename_str("a\u{1}b"), "a_b");
    assert_eq!(unixize_filename_str("a\u{7F}b"), "ab");
}

// Underscores directly before a dot are dropped, and edges are trimmed of
// underscores and hyphens.
#[test]
fn cleanup_steps() {
    assert_eq!(unixize_filename_str("a _.txt"), "a.txt");
    assert_eq!(unixize_filename_str("-_a_-"), "a");
    assert_eq!(unixize_filename_str("a(((b"), "a_b");
}
