use post_service::find_char_boundary;
use post_service::text::truncate;
use post_service::PostsContainer;

#[test]
fn boundary_within_ascii() {
    assert_eq!(find_char_boundary("hello", 2), 2);
    assert_eq!(find_char_boundary("hello", 0), 0);
    assert_eq!(find_char_boundary("hello", 5), 5);
}

#[test]
fn boundary_past_end_is_returned_unchanged() {
    assert_eq!(find_char_boundary("abc", 7), 7);
    assert_eq!(find_char_boundary("", 3), 3);
}

#[test]
fn boundary_advances_past_multibyte_char() {
    // "é" occupies bytes 1..3; offset 2 is inside it
    let s = "aébc";
    assert!(!s.is_char_boundary(2));
    assert_eq!(find_char_boundary(s, 2), 3);
}

#[test]
fn truncate_short_text_is_kept_whole() {
    let s = "a short description";
    assert_eq!(truncate(s), s.to_string());
}

#[test]
fn truncate_empty_text() {
    assert_eq!(truncate(""), String::new());
}

#[test]
fn truncate_long_ascii_cuts_at_budget() {
    let s = "x".repeat(700);
    let t = truncate(&s);
    assert_eq!(t.len(), 600);
    assert_eq!(t, "x".repeat(600));
}

#[test]
fn truncate_exactly_at_budget() {
    let s = "y".repeat(600);
    assert_eq!(truncate(&s), s);
}

#[test]
fn truncate_moves_cut_forward_over_multibyte_char() {
    // byte 600 falls inside the two-byte "é": the cut advances to keep the
    // character whole, so the result is 601 bytes long
    let s = format!("{}é{}", "a".repeat(599), "b".repeat(50));
    let t = truncate(&s);
    assert_eq!(t.len(), 601);
    assert_eq!(t, format!("{}é", "a".repeat(599)));
}

#[test]
fn strip_removes_newlines() {
    assert_eq!(PostsContainer::trim_useless_symbol("a\nb\nc"), "abc");
    assert_eq!(PostsContainer::trim_useless_symbol("\n\n"), "");
}

#[test]
fn strip_removes_fenced_block() {
    assert_eq!(
        PostsContainer::trim_useless_symbol("before```let x = 1;```after"),
        "beforeafter"
    );
    assert_eq!(
        PostsContainer::trim_useless_symbol("```code with\nnewline```"),
        ""
    );
}

#[test]
fn strip_removes_inline_span() {
    assert_eq!(PostsContainer::trim_useless_symbol("a `code` b"), "a  b");
    assert_eq!(PostsContainer::trim_useless_symbol("`x`"), "");
}

#[test]
fn strip_keeps_unclosed_backticks() {
    assert_eq!(PostsContainer::trim_useless_symbol("a`bc"), "a`bc");
    assert_eq!(PostsContainer::trim_useless_symbol("```ab"), "```ab");
}

#[test]
fn strip_scans_left_to_right() {
    // the leading backtick pairs with nothing; the span that follows is
    // removed, and the text that remains forms a new backtick pair
    assert_eq!(PostsContainer::trim_useless_symbol("``x`a`"), "`a`");
}

#[test]
fn strip_mixed_noise() {
    let s = "Title\nSome `inline` text\n```fn main() {}\n```\nEnd";
    assert_eq!(
        PostsContainer::trim_useless_symbol(s),
        "TitleSome  textEnd"
    );
}
