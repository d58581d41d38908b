use exprlang::text::SourceText;

fn source(text: &str) -> SourceText {
    SourceText::new(text.to_string())
}

#[test]
fn line_index_counts_line_breaks_before_the_position() {
    let text = source("ab\ncd\n\nx");
    assert_eq!(text.line_index(0), 0);
    assert_eq!(text.line_index(1), 0);
    assert_eq!(text.line_index(2), 0);
    assert_eq!(text.line_index(3), 1);
    assert_eq!(text.line_index(5), 1);
    assert_eq!(text.line_index(6), 2);
    assert_eq!(text.line_index(7), 3);
    assert_eq!(text.line_index(8), 3);
    assert_eq!(text.line_index(1000), 3);
}

#[test]
fn line_start_is_a_byte_offset() {
    let text = source("ab\ncd\n\nx");
    assert_eq!(text.line_start(0), 0);
    assert_eq!(text.line_start(1), 3);
    assert_eq!(text.line_start(2), 6);
    assert_eq!(text.line_start(3), 7);
    assert_eq!(text.line_start(4), 8);
    assert_eq!(text.line_start(99), 8);
    let wide = source("é\n€!\nz");
    assert_eq!(wide.line_start(1), 3);
    assert_eq!(wide.line_start(2), 8);
    assert_eq!(wide.line_index(3), 1);
    assert_eq!(wide.line_index(7), 1);
    assert_eq!(wide.line_index(8), 2);
}

#[test]
fn get_line_leaves_the_line_break_out() {
    let text = source("ab\ncd\n\nx");
    assert_eq!(text.get_line(0), "ab");
    assert_eq!(text.get_line(1), "cd");
    assert_eq!(text.get_line(2), "");
    assert_eq!(text.get_line(3), "x");
    assert_eq!(text.get_line(4), "");
    assert_eq!(source("").get_line(0), "");
    assert_eq!(source("é\n€!").get_line(1), "€!");
}

#[test]
fn a_position_inside_a_character_belongs_to_the_line_of_that_character() {
    let text = source("\n€\nx");
    assert_eq!(text.line_index(1), 1);
    assert_eq!(text.line_index(2), 1);
    assert_eq!(text.line_index(3), 1);
    assert_eq!(text.line_index(4), 1);
    assert_eq!(text.line_index(5), 2);
}
