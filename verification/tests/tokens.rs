use outou::{decode, encode, merge, span_to_line_tokens, AbsoluteToken, LineIndex, SemanticToken, Span};

fn token(delta_line: u32, delta_start: u32, length: u32, token_type: u32) -> SemanticToken {
    SemanticToken {
        delta_line,
        delta_start,
        length,
        token_type,
        token_modifiers_bitset: 0,
    }
}

fn abs(line: u32, start: u32, length: u32, token_type: u32) -> AbsoluteToken {
    AbsoluteToken {
        line,
        start,
        length,
        token_type,
        modifiers: 0,
    }
}

#[test]
fn decode_accumulates_line_and_resets_start_on_a_new_line() {
    let tokens = vec![token(1, 4, 3, 0), token(0, 5, 2, 1), token(2, 1, 1, 2)];
    let decoded = decode(&tokens);
    assert_eq!(decoded[0], abs(1, 4, 3, 0));
    assert_eq!(decoded[1], abs(1, 9, 2, 1));
    assert_eq!(decoded[2], abs(3, 1, 1, 2));
}

#[test]
fn decode_saturates_rather_than_overflows_on_pathological_deltas() {
    let tokens = vec![token(u32::MAX, 0, 1, 0), token(1, 0, 1, 0)];
    let decoded = decode(&tokens);
    assert_eq!(decoded[0].line, u32::MAX);
    assert_eq!(decoded[1].line, u32::MAX);
    assert!(decoded[0].line <= decoded[1].line);
}

#[test]
fn encode_is_the_inverse_of_decode() {
    let original = vec![token(1, 4, 3, 0), token(0, 5, 2, 1), token(2, 1, 1, 2)];
    let round_tripped = encode(decode(&original));
    assert_eq!(round_tripped, original);
}

#[test]
fn encode_sorts_unordered_input_before_delta_encoding() {
    let tokens = vec![abs(3, 1, 1, 0), abs(1, 4, 3, 0)];
    let encoded = encode(tokens);
    assert_eq!(encoded[0].delta_line, 1);
    assert_eq!(encoded[0].delta_start, 4);
    assert_eq!(encoded[1].delta_line, 2);
    assert_eq!(encoded[1].delta_start, 1);
}

#[test]
fn span_to_line_tokens_produces_one_token_for_a_single_line_span() {
    let line_index = LineIndex::new("let user = load_user();\n");
    let span = Span::new(4, 8);
    let tokens = span_to_line_tokens(&line_index, span, 7, 0);
    assert_eq!(tokens, vec![abs(0, 4, 4, 7)]);
}

#[test]
fn span_to_line_tokens_splits_a_multi_line_span_per_line() {
    let line_index = LineIndex::new("Hello\nWorld\n");
    let span = Span::new(0, 11);
    let tokens = span_to_line_tokens(&line_index, span, 18, 0);
    assert_eq!(tokens.len(), 2);
    assert_eq!(tokens[0], abs(0, 0, 5, 18));
    assert_eq!(tokens[1], abs(1, 0, 5, 18));
}

#[test]
fn span_to_line_tokens_drops_a_zero_width_span() {
    let line_index = LineIndex::new("abc\n");
    let tokens = span_to_line_tokens(&line_index, Span::new(1, 1), 0, 0);
    assert!(tokens.is_empty());
}

#[test]
fn merge_drops_a_rust_analyzer_token_that_overlaps_an_outou_token() {
    let ra = vec![abs(0, 1, 4, 12)];
    let outou = vec![abs(0, 1, 4, 2)];
    let merged = merge(ra, outou.clone());
    assert_eq!(merged, outou);
}

#[test]
fn merge_keeps_non_overlapping_tokens_from_both_sides_sorted() {
    let ra = vec![abs(0, 10, 3, 12)];
    let outou = vec![abs(0, 1, 4, 2)];
    let merged = merge(ra, outou);
    assert_eq!(merged[0].start, 1);
    assert_eq!(merged[1].start, 10);
}

#[test]
fn decode_of_nothing_is_nothing() {
    assert!(decode(&[]).is_empty());
    assert!(encode(Vec::new()).is_empty());
}

#[test]
fn decode_saturates_a_same_line_start() {
    let tokens = vec![token(0, u32::MAX, 1, 0), token(0, 5, 1, 0)];
    let decoded = decode(&tokens);
    assert_eq!(decoded[1].start, u32::MAX);
    assert_eq!(decoded[1].line, 0);
}

#[test]
fn encode_keeps_the_order_of_tokens_at_the_same_position() {
    let tokens = vec![abs(2, 3, 1, 5), abs(0, 0, 1, 1), abs(2, 3, 4, 6)];
    let encoded = encode(tokens);
    assert_eq!(encoded[0], token(0, 0, 1, 1));
    assert_eq!(encoded[1], token(2, 3, 1, 5));
    assert_eq!(encoded[2], token(0, 0, 4, 6));
}

#[test]
fn span_to_line_tokens_clips_each_middle_line_to_its_content() {
    let line_index = LineIndex::new("ab\r\ncdef\nghi");
    let tokens = span_to_line_tokens(&line_index, Span::new(1, 11), 3, 2);
    assert_eq!(
        tokens,
        vec![
            AbsoluteToken { line: 0, start: 1, length: 1, token_type: 3, modifiers: 2 },
            AbsoluteToken { line: 1, start: 0, length: 4, token_type: 3, modifiers: 2 },
            AbsoluteToken { line: 2, start: 0, length: 2, token_type: 3, modifiers: 2 },
        ]
    );
}

#[test]
fn span_to_line_tokens_skips_an_empty_line_in_the_middle() {
    let line_index = LineIndex::new("ab\n\ncd");
    let tokens = span_to_line_tokens(&line_index, Span::new(0, 6), 1, 0);
    assert_eq!(tokens, vec![abs(0, 0, 2, 1), abs(2, 0, 2, 1)]);
}

#[test]
fn merge_drops_a_later_rust_analyzer_token_overlapping_an_earlier_one() {
    let ra = vec![abs(1, 0, 5, 1), abs(1, 3, 4, 2), abs(1, 5, 1, 3)];
    let merged = merge(ra, Vec::new());
    assert_eq!(merged, vec![abs(1, 0, 5, 1), abs(1, 5, 1, 3)]);
}

#[test]
fn merge_keeps_tokens_on_different_lines_at_the_same_column() {
    let ra = vec![abs(2, 1, 4, 12)];
    let outou = vec![abs(1, 1, 4, 2)];
    let merged = merge(ra, outou);
    assert_eq!(merged, vec![abs(1, 1, 4, 2), abs(2, 1, 4, 12)]);
}
