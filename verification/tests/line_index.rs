use outou::{LineIndex, Position, Span};

#[test]
fn empty_file() {
    let index = LineIndex::new("");
    assert_eq!(index.line_count(), 1);
    assert_eq!(index.offset_to_position(0), Position::new(0, 0));
    assert_eq!(index.offset_to_position(50), Position::new(0, 0));
    assert_eq!(index.position_to_offset(Position::new(0, 0)), 0);
    assert_eq!(index.position_to_offset(Position::new(5, 5)), 0);
}

#[test]
fn offset_at_eof_without_trailing_newline() {
    let index = LineIndex::new("abc");
    assert_eq!(index.offset_to_position(3), Position::new(0, 3));
    assert_eq!(index.offset_to_position(100), Position::new(0, 3));
}

#[test]
fn offset_at_eof_with_trailing_newline_starts_a_new_line() {
    let index = LineIndex::new("abc\n");
    assert_eq!(index.line_count(), 2);
    assert_eq!(index.offset_to_position(4), Position::new(1, 0));
    assert_eq!(index.position_to_offset(Position::new(1, 0)), 4);
}

#[test]
fn lf_line_starts() {
    let text = "one\ntwo\nthree";
    let index = LineIndex::new(text);
    assert_eq!(index.line_count(), 3);
    assert_eq!(index.offset_to_position(4), Position::new(1, 0));
    assert_eq!(index.offset_to_position(8), Position::new(2, 0));
    assert_eq!(index.position_to_offset(Position::new(2, 3)), 11);
}

#[test]
fn crlf_line_starts() {
    let text = "one\r\ntwo\r\nthree";
    let index = LineIndex::new(text);
    assert_eq!(index.line_count(), 3);
    assert_eq!(index.offset_to_position(5), Position::new(1, 0));
    assert_eq!(index.position_to_offset(Position::new(1, 0)), 5);
    assert_eq!(index.position_to_offset(Position::new(0, 99)), 3);
}

#[test]
fn lone_cr_line_starts() {
    let text = "one\rtwo";
    let index = LineIndex::new(text);
    assert_eq!(index.line_count(), 2);
    assert_eq!(index.offset_to_position(4), Position::new(1, 0));
    assert_eq!(index.position_to_offset(Position::new(1, 0)), 4);
}

#[test]
fn multi_byte_characters_count_as_one_utf16_unit() {
    let text = "café";
    let index = LineIndex::new(text);
    assert_eq!(text.len(), 5);
    assert_eq!(index.offset_to_position(5), Position::new(0, 4));
    assert_eq!(index.position_to_offset(Position::new(0, 4)), 5);
}

#[test]
fn emoji_uses_a_utf16_surrogate_pair() {
    let text = "a\u{1F600}b";
    let index = LineIndex::new(text);
    assert_eq!(text.len(), 6);

    assert_eq!(index.offset_to_position(5), Position::new(0, 3));
    assert_eq!(index.position_to_offset(Position::new(0, 3)), 5);

    assert_eq!(index.offset_to_position(1), Position::new(0, 1));
    assert_eq!(index.position_to_offset(Position::new(0, 1)), 1);
}

#[test]
fn crlf_midpoint_clamps_to_the_line_content_end() {
    let index = LineIndex::new("one\r\ntwo");
    assert_eq!(index.offset_to_position(3), Position::new(0, 3));
    assert_eq!(index.offset_to_position(4), Position::new(0, 3));
    assert_eq!(index.offset_to_position(5), Position::new(1, 0));
    assert_eq!(index.position_to_offset(index.offset_to_position(4)), 3);
}

#[test]
fn offsets_outside_line_terminators_round_trip() {
    let text = "a\u{1F600}b\r\nx\ry\nz café\r\n";
    let index = LineIndex::new(text);
    for o in 0..=text.len() as u32 {
        if !text.is_char_boundary(o as usize) {
            continue;
        }
        let line = index.offset_to_position(o).line as usize;
        if o > index.line_content_end(line) {
            continue;
        }
        assert_eq!(
            index.position_to_offset(index.offset_to_position(o)),
            o,
            "offset {o} did not round-trip"
        );
    }
}

#[test]
fn half_surrogate_position_floors_to_the_character_start() {
    let index = LineIndex::new("a\u{1F600}b");
    assert_eq!(index.position_to_offset(Position::new(0, 2)), 1);
    assert_eq!(index.position_to_offset(Position::new(0, 1)), 1);
    assert_eq!(index.position_to_offset(Position::new(0, 3)), 5);
}

#[test]
fn out_of_range_offsets_and_positions_are_clamped() {
    let index = LineIndex::new("hello\nworld");
    assert_eq!(index.offset_to_position(u32::MAX), Position::new(1, 5));
    assert_eq!(
        index.position_to_offset(Position::new(u32::MAX, u32::MAX)),
        11
    );
}

#[test]
fn span_and_range_round_trip() {
    let index = LineIndex::new("let user = load_user();\n");
    let span = Span::new(4, 8);
    let range = index.span_to_range(span);
    assert_eq!(range.start, Position::new(0, 4));
    assert_eq!(range.end, Position::new(0, 8));
    assert_eq!(index.range_to_span(range), span);
}

#[test]
fn an_offset_inside_a_multi_byte_character_rounds_down() {
    let index = LineIndex::new("xé\ny");
    assert_eq!(index.offset_to_position(2), Position::new(0, 1));
    assert_eq!(index.offset_to_position(3), Position::new(0, 2));
    assert_eq!(index.text(), "xé\ny");
}

#[test]
fn positions_on_character_starts_round_trip_and_lines_follow_terminators() {
    let text = "a\r\nbé\rc\n😀d";
    let index = LineIndex::new(text);
    assert_eq!(index.line_count(), 4);
    assert_eq!(index.position_to_offset(Position::new(1, 0)), 3);
    assert_eq!(index.position_to_offset(Position::new(2, 0)), 7);
    assert_eq!(index.position_to_offset(Position::new(3, 0)), 9);
    for p in [Position::new(0, 0), Position::new(0, 1), Position::new(1, 2), Position::new(3, 2), Position::new(3, 3)] {
        assert_eq!(index.offset_to_position(index.position_to_offset(p)), p);
    }
}

#[test]
fn every_position_within_line_content_round_trips() {
    let text = "a\u{1F600}é\r\nxy\rz\n";
    let idx = LineIndex::new(text);
    let lines: [(u32, &[u32]); 4] = [(0, &[0, 1, 3, 4]), (1, &[0, 1, 2]), (2, &[0, 1]), (3, &[0])];
    for (line, characters) in lines {
        for &character in characters {
            let p = Position::new(line, character);
            assert_eq!(idx.offset_to_position(idx.position_to_offset(p)), p);
        }
    }
    // Between the two halves of the surrogate pair there is no offset.
    let split = Position::new(0, 2);
    assert_eq!(idx.offset_to_position(idx.position_to_offset(split)), Position::new(0, 1));
}
