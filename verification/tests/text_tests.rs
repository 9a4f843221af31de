use llmbench::text::{alphanumeric_only, normalize_expected, remove_chat_tags, trim, StringBenchExt};

#[test]
fn removes_chat_tags() {
    let input = "<|begin_of_box|>Pick a game engine<|end_of_box|>";
    let input = input.remove_chat_tags();
    assert_eq!(input, "Pick a game engine");
}

#[test]
fn chat_tag_does_not_cross_line_break() {
    assert_eq!(remove_chat_tags("<|a\nb|>x"), "<|a\nb|>x");
}

#[test]
fn chat_tag_closes_at_first_bar_gt() {
    assert_eq!(remove_chat_tags("a<|x|>b|>c"), "ab|>c");
    assert_eq!(remove_chat_tags("<|>|>z"), "z");
    assert_eq!(remove_chat_tags("<|"), "<|");
}

#[test]
fn keeps_alphanumeric_and_whitespace() {
    assert_eq!(alphanumeric_only("Dr. Chen!"), "Dr Chen");
}

#[test]
fn trims_both_ends() {
    assert_eq!(trim("  pick a game engine \n"), "pick a game engine");
    assert_eq!(trim("   "), "");
}

#[test]
fn normalizes_answers() {
    assert_eq!(normalize_expected("  <|box|>Pick a Game-Engine.<|/box|> "), "pick a gameengine");
    assert_eq!(normalize_expected("Dr. Chen"), "dr chen");
}

#[test]
fn normalising_drops_tags_punctuation_and_case() {
    assert_eq!(normalize_expected("<|begin_of_box|>Pick a Game Engine!<|end_of_box|>"), "pick a game engine");
    assert_eq!(normalize_expected("  Charlie "), "charlie");
    assert_eq!(normalize_expected("a\u{b}b\u{c}"), "a\u{b}b");
}

#[test]
fn normalising_twice_changes_nothing() {
    for s in ["<|begin_of_box|>Pick a Game Engine!<|end_of_box|>", "  Charlie ", "x < y | z >", "A\tB\r\n"] {
        let once = normalize_expected(s);
        assert_eq!(normalize_expected(&once), once);
        assert!(once.chars().all(|c| c.is_alphanumeric() || c.is_whitespace()));
        assert_eq!(once.trim(), once);
    }
}
