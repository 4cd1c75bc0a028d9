use papergrid::format::align;
use papergrid::text::{
    compose, concat_lines, concat_row, join_lines, owned_lines, push_repeated, push_spaces,
    split_lines, widest_of,
};
use papergrid::Alignment;

#[test]
fn lines_end_at_line_feeds() {
    assert_eq!(split_lines("a\nbc\nd"), vec!["a", "bc", "d"]);
}

#[test]
fn a_last_line_feed_opens_no_line() {
    assert_eq!(split_lines("a\n"), vec!["a"]);
    assert_eq!(split_lines("a\n\n"), vec!["a", ""]);
    assert_eq!(split_lines("\n"), vec![""]);
}

#[test]
fn the_empty_text_has_no_line() {
    assert!(split_lines("").is_empty());
}

#[test]
fn a_carriage_return_before_a_line_feed_is_dropped() {
    assert_eq!(split_lines("a\r\nb"), vec!["a", "b"]);
    assert_eq!(split_lines("a\r\n"), vec!["a"]);
    assert_eq!(split_lines("\r\n"), vec![""]);
}

#[test]
fn a_carriage_return_elsewhere_stays() {
    assert_eq!(split_lines("a\rb"), vec!["a\rb"]);
    assert_eq!(split_lines("a\r"), vec!["a\r"]);
    assert_eq!(split_lines("a\r\r\nb"), vec!["a\r", "b"]);
}

#[test]
fn lines_are_split_as_std_splits_them() {
    for text in [
        "",
        "\n",
        "\r",
        "\r\n",
        "one",
        "one\n",
        "one\r\n",
        "one\ntwo",
        "one\r\ntwo\r\n",
        "one\n\ntwo\n\n",
        "\n\none",
        "a\rb\r\nc\r",
        "h\u{e9}llo\nw\u{f6}rld",
    ] {
        let expected: Vec<&str> = text.lines().collect();
        assert_eq!(split_lines(text), expected, "{:?}", text);
    }
}

#[test]
fn owned_lines_are_the_lines() {
    assert_eq!(owned_lines("a\nbc"), vec!["a".to_string(), "bc".to_string()]);
}

#[test]
fn widest_counts_characters() {
    assert_eq!(widest_of(&vec!["ab", "abcd", "abc"]), 4);
    assert_eq!(widest_of(&vec!["h\u{e9}llo"]), 5);
    assert_eq!(widest_of(&Vec::new()), 0);
}

#[test]
fn align_left_pads_on_the_right() {
    assert_eq!(align("ab", Alignment::Left, 5), "ab   ");
}

#[test]
fn align_right_pads_on_the_left() {
    assert_eq!(align("ab", Alignment::Right, 5), "   ab");
}

#[test]
fn align_center_puts_the_odd_blank_on_the_right() {
    assert_eq!(align("ab", Alignment::Center, 5), " ab  ");
    assert_eq!(align("ab", Alignment::Center, 6), "  ab  ");
    assert_eq!(align("abc", Alignment::Center, 4), "abc ");
}

#[test]
fn align_never_cuts() {
    assert_eq!(align("abcdef", Alignment::Center, 3), "abcdef");
    assert_eq!(align("abc", Alignment::Left, 3), "abc");
    assert_eq!(align("", Alignment::Right, 0), "");
}

#[test]
fn align_counts_characters() {
    assert_eq!(align("h\u{e9}", Alignment::Left, 4), "h\u{e9}  ");
}

#[test]
fn align_pads_as_std_pads() {
    for text in ["", "a", "ab", "abc", "abcd", "abcde"] {
        for width in 0..8 {
            assert_eq!(align(text, Alignment::Left, width), format!("{: <1$}", text, width));
            assert_eq!(align(text, Alignment::Right, width), format!("{: >1$}", text, width));
            assert_eq!(align(text, Alignment::Center, width), format!("{: ^1$}", text, width));
        }
    }
}

#[test]
fn push_spaces_appends_blanks() {
    let mut s = "ab".to_string();
    push_spaces(&mut s, 3);
    assert_eq!(s, "ab   ");
    push_spaces(&mut s, 0);
    assert_eq!(s, "ab   ");
}

#[test]
fn push_repeated_appends_the_glyph() {
    let mut s = "+".to_string();
    push_repeated(&mut s, "-=", 3);
    assert_eq!(s, "+-=-=-=");
    push_repeated(&mut s, "", 4);
    assert_eq!(s, "+-=-=-=");
}

#[test]
fn join_lines_puts_line_feeds_between() {
    assert_eq!(join_lines(&vec!["a".to_string(), "b".to_string(), "".to_string()]), "a\nb\n");
    assert_eq!(join_lines(&vec!["a".to_string()]), "a");
    assert_eq!(join_lines(&Vec::new()), "");
}

#[test]
fn compose_sets_blocks_side_by_side() {
    let left = vec!["+--".to_string(), "|ab".to_string()];
    let middle = vec!["+-".to_string(), "|c".to_string()];
    let right = vec!["+".to_string(), "|".to_string()];
    assert_eq!(
        compose(&vec![left, middle, right]),
        vec!["+--+-+".to_string(), "|ab|c|".to_string()]
    );
    assert!(compose(&Vec::new()).is_empty());
}

#[test]
fn concat_lines_joins_line_by_line() {
    assert_eq!(concat_lines("ab\ncd", "12\n34"), "ab12\ncd34");
    assert_eq!(concat_lines("", ""), "");
}

#[test]
fn concat_row_joins_line_by_line() {
    let row = vec!["a\nb".to_string(), "1\n2".to_string(), "x\ny".to_string()];
    assert_eq!(concat_row(&row), "a1x\nb2y");
    assert_eq!(concat_row(&[]), "");
}

#[test]
fn concat_row_leaves_a_single_text_as_it_is() {
    for text in ["one", "a\n", "a\r\nb", "\n", "a\n\n", ""] {
        assert_eq!(concat_row(&[text.to_string()]), text);
    }
}

#[test]
fn concat_row_joins_the_lines_of_two_texts_anew() {
    assert_eq!(concat_row(&["a\n".to_string(), "b\r\n".to_string()]), "ab");
}
