use kernel::log::{BufferData, LogLevel, TextBuffer, TextColour};

fn row(data: &BufferData, y: usize) -> String {
    let b = data.buffer();
    (0..b.width()).map(|x| b.get_coloured(x, y).0).collect()
}

#[test]
fn text_is_written_from_the_third_row() {
    let mut data = BufferData::new(TextBuffer::new(8, 4));
    data.log(LogLevel::Warn, "hi");
    assert_eq!(row(&data, 2), "hi      ");
    assert_eq!(data.buffer().get_coloured(0, 2), ('h', TextColour::Yellow, TextColour::Black));
    assert_eq!((data.line(), data.col()), (2, 2));
}

#[test]
fn newline_blanks_the_rest_of_the_row() {
    let mut data = BufferData::new(TextBuffer::new(8, 4));
    data.write_str("abcdef");
    data.write_str("\n");
    assert_eq!((data.line(), data.col()), (3, 0));
    assert_eq!(row(&data, 2), "abcdef  ");
}

#[test]
fn tabs_take_two_blanks() {
    let mut data = BufferData::new(TextBuffer::new(8, 4));
    data.write_str("a\tb");
    assert_eq!(row(&data, 2), "a  b    ");
    assert_eq!(data.col(), 4);
}

#[test]
fn writing_past_the_bottom_scrolls() {
    let mut data = BufferData::new(TextBuffer::new(4, 4));
    data.write_str("one\n");
    data.write_str("two\n");
    // The cursor sits on the row below the screen until the next line break scrolls.
    assert_eq!(data.line(), 4);
    data.write_str("x\n");
    assert_eq!(row(&data, 1), "one ");
    assert_eq!(row(&data, 2), "two ");
    assert_eq!(row(&data, 3), "x   ");
    assert_eq!(data.line(), 4);
    assert_eq!(data.col(), 0);
}

#[test]
fn a_full_row_wraps_and_drops_the_character_at_the_edge() {
    let mut data = BufferData::new(TextBuffer::new(3, 4));
    data.write_str("abcd");
    assert_eq!(row(&data, 2), "abc");
    assert_eq!((data.line(), data.col()), (3, 0));
}
