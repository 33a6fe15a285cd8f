use yaml::buffer::{yaml_string_extend, yaml_string_join, yaml_string_t};
use yaml::memory::{
    copy_bytes, free_compat, malloc_compat, move_bytes, realloc_compat, strdup_compat,
    yaml_free, yaml_malloc, yaml_realloc, yaml_strdup, zero_bytes,
};
use yaml::queue::{yaml_queue_extend, yaml_queue_t};
use yaml::reader::{
    yaml_error_type_t, yaml_parser_initialize, yaml_parser_set_encoding, yaml_parser_set_input,
    yaml_parser_set_input_string, yaml_parser_t, yaml_parser_update_buffer, ReadHandler,
    StringInput, MAX_FILE_SIZE,
};
use yaml::stack::{yaml_stack_extend, yaml_stack_t};
use yaml::token::{yaml_mark_t, yaml_token_data_t, yaml_token_delete, yaml_token_t};
use yaml::utf::{yaml_encoding_t, ReaderProblem};
use yaml::version::{yaml_get_version, yaml_get_version_string};

struct Chunks {
    input: Vec<u8>,
    offset: usize,
    chunk: usize,
    fail_at_end: bool,
}

impl ReadHandler for Chunks {
    fn read(&mut self, size: usize) -> Option<Vec<u8>> {
        let remaining = self.input.len() - self.offset;
        if remaining == 0 {
            if self.fail_at_end {
                return None;
            }
            return Some(Vec::new());
        }
        let count = size.min(self.chunk).min(remaining);
        let out = self.input[self.offset..self.offset + count].to_vec();
        self.offset += count;
        Some(out)
    }
}

fn read_all<H: ReadHandler>(parser: &mut yaml_parser_t<H>) -> bool {
    loop {
        let target = parser.unread().saturating_add(1);
        if yaml_parser_update_buffer(parser, target) == 0 {
            return false;
        }
        if parser.eof() && parser.raw_unread() == 0 {
            return true;
        }
    }
}

fn read_string(input: &[u8]) -> yaml_parser_t<StringInput> {
    let mut parser = yaml_parser_initialize::<StringInput>();
    yaml_parser_set_input_string(&mut parser, input);
    read_all(&mut parser);
    parser
}

fn failure(input: &[u8]) -> (ReaderProblem, usize, i32) {
    let parser = read_string(input);
    assert_eq!(parser.error, yaml_error_type_t::YAML_READER_ERROR);
    (parser.problem.unwrap(), parser.problem_offset, parser.problem_value)
}

#[test]
fn version_numbers_and_string() {
    let (mut major, mut minor, mut patch) = (-1, -1, -1);
    yaml_get_version(&mut major, &mut minor, &mut patch);
    assert_eq!((major, minor, patch), (0, 2, 5));
    assert_eq!(yaml_get_version_string(), "0.2.5");
}

#[test]
fn malloc_never_allocates_zero_bytes() {
    assert_eq!(malloc_compat(0), Some(vec![0u8]));
    assert_eq!(malloc_compat(3), Some(vec![0u8; 3]));
    assert_eq!(yaml_malloc(2), Some(vec![0u8; 2]));
}

#[test]
fn realloc_keeps_contents_and_allocates_null_blocks() {
    let mut block = None;
    assert!(realloc_compat(&mut block, 0));
    assert_eq!(block, Some(vec![0u8]));
    let mut block = Some(vec![1u8, 2, 3]);
    assert!(realloc_compat(&mut block, 5));
    assert_eq!(block, Some(vec![1u8, 2, 3, 0, 0]));
    assert!(yaml_realloc(&mut block, 2));
    assert_eq!(block, Some(vec![1u8, 2]));
    assert!(realloc_compat(&mut block, 0));
    assert_eq!(block, Some(vec![1u8]));
    free_compat(block);
    free_compat(None);
    yaml_free(Some(vec![1u8]));
}

#[test]
fn strdup_copies_up_to_the_terminating_zero() {
    assert_eq!(strdup_compat(None), None);
    assert_eq!(strdup_compat(Some(b"abc\0def")), Some(b"abc\0".to_vec()));
    assert_eq!(strdup_compat(Some(b"ab")), Some(b"ab\0".to_vec()));
    assert_eq!(yaml_strdup(Some(b"\0x")), Some(vec![0u8]));
}

#[test]
fn zero_copy_and_move_bytes() {
    let mut v = vec![1u8, 2, 3, 4, 5];
    zero_bytes(&mut v, 1, 2);
    assert_eq!(v, vec![1, 0, 0, 4, 5]);
    copy_bytes(&mut v, 2, &[9, 8, 7], 1, 2);
    assert_eq!(v, vec![1, 0, 8, 7, 5]);
    let mut w = vec![1u8, 2, 3, 4, 5];
    move_bytes(&mut w, 1, 0, 3);
    assert_eq!(w, vec![1, 1, 2, 3, 5]);
    let mut x = vec![1u8, 2, 3, 4, 5];
    move_bytes(&mut x, 0, 2, 3);
    assert_eq!(x, vec![3, 4, 5, 4, 5]);
}

#[test]
fn string_extend_doubles_with_zeros() {
    let mut s = yaml_string_t { buffer: vec![7, 8], pointer: 1 };
    assert_eq!(yaml_string_extend(&mut s), 1);
    assert_eq!(s.buffer, vec![7, 8, 0, 0]);
    assert_eq!(s.pointer, 1);
    let mut empty = yaml_string_t { buffer: vec![], pointer: 0 };
    assert_eq!(yaml_string_extend(&mut empty), 1);
    assert!(empty.buffer.is_empty());
    let mut bad = yaml_string_t { buffer: vec![1], pointer: 2 };
    assert_eq!(yaml_string_extend(&mut bad), 0);
    assert_eq!(bad.buffer, vec![1]);
}

#[test]
fn string_join_appends_and_grows_by_doubling() {
    let mut a = yaml_string_t { buffer: b"abc\0".to_vec(), pointer: 3 };
    let b = yaml_string_t { buffer: b"de\0\0".to_vec(), pointer: 2 };
    assert_eq!(yaml_string_join(&mut a, &b), 1);
    assert_eq!(a.pointer, 5);
    assert_eq!(a.buffer, b"abcde\0\0\0".to_vec());
    let mut c = yaml_string_t { buffer: b"xy\0\0\0\0\0\0".to_vec(), pointer: 2 };
    assert_eq!(yaml_string_join(&mut c, &b), 1);
    assert_eq!(c.buffer.len(), 8);
    assert_eq!(&c.buffer[..4], b"xyde");
}

#[test]
fn string_join_edge_cases() {
    let empty = yaml_string_t { buffer: vec![0; 4], pointer: 0 };
    let mut full = yaml_string_t { buffer: b"ab".to_vec(), pointer: 2 };
    assert_eq!(yaml_string_join(&mut full, &empty), 1);
    assert_eq!(full.buffer, b"ab".to_vec());
    let b = yaml_string_t { buffer: b"z".to_vec(), pointer: 1 };
    let mut zero = yaml_string_t { buffer: vec![], pointer: 0 };
    assert_eq!(yaml_string_join(&mut zero, &b), 0);
    assert_eq!(zero.pointer, 0);
    let bad_b = yaml_string_t { buffer: vec![], pointer: 1 };
    let mut a = yaml_string_t { buffer: vec![0; 4], pointer: 0 };
    assert_eq!(yaml_string_join(&mut a, &bad_b), 0);
    let mut bad_a = yaml_string_t { buffer: vec![0; 1], pointer: 3 };
    assert_eq!(yaml_string_join(&mut bad_a, &b), 0);
}

#[test]
fn stack_extend_doubles() {
    let mut s = yaml_stack_t { buffer: vec![1, 2, 3], top: 2 };
    assert_eq!(yaml_stack_extend(&mut s), 1);
    assert_eq!(s.buffer, vec![1, 2, 3, 0, 0, 0]);
    assert_eq!(s.top, 2);
    let mut bad = yaml_stack_t { buffer: vec![1], top: 2 };
    assert_eq!(yaml_stack_extend(&mut bad), 0);
    let mut empty = yaml_stack_t { buffer: vec![], top: 0 };
    assert_eq!(yaml_stack_extend(&mut empty), 1);
    assert!(empty.buffer.is_empty());
}

#[test]
fn queue_extend_grows_full_queues_and_moves_others() {
    let mut full = yaml_queue_t { buffer: vec![1, 2], head: 0, tail: 2 };
    assert_eq!(yaml_queue_extend(&mut full), 1);
    assert_eq!(full.buffer, vec![1, 2, 0, 0]);
    assert_eq!((full.head, full.tail), (0, 2));
    let mut at_end = yaml_queue_t { buffer: vec![1, 2, 3, 4], head: 2, tail: 4 };
    assert_eq!(yaml_queue_extend(&mut at_end), 1);
    assert_eq!((at_end.head, at_end.tail), (0, 2));
    assert_eq!(&at_end.buffer[..2], &[3, 4]);
    let mut middle = yaml_queue_t { buffer: vec![1, 2, 3, 4], head: 1, tail: 2 };
    assert_eq!(yaml_queue_extend(&mut middle), 1);
    assert_eq!(middle.buffer, vec![1, 2, 3, 4]);
    assert_eq!((middle.head, middle.tail), (1, 2));
    let mut drained = yaml_queue_t { buffer: vec![1, 2], head: 2, tail: 2 };
    assert_eq!(yaml_queue_extend(&mut drained), 1);
    assert_eq!((drained.head, drained.tail), (0, 0));
    let mut bad = yaml_queue_t { buffer: vec![1, 2], head: 2, tail: 1 };
    assert_eq!(yaml_queue_extend(&mut bad), 0);
}

#[test]
fn token_delete_leaves_an_empty_token() {
    let mut token = yaml_token_t {
        data: yaml_token_data_t::Scalar {
            value: b"x".to_vec(),
            style: yaml::token::yaml_scalar_style_t::YAML_PLAIN_SCALAR_STYLE,
        },
        start_mark: yaml_mark_t { index: 1, line: 0, column: 1 },
        end_mark: yaml_mark_t { index: 2, line: 0, column: 2 },
    };
    yaml_token_delete(&mut token);
    assert!(matches!(token.data, yaml_token_data_t::NoToken));
    assert_eq!(token.start_mark, yaml_mark_t { index: 0, line: 0, column: 0 });
    assert_eq!(token.end_mark, yaml_mark_t { index: 0, line: 0, column: 0 });
}

#[test]
fn reader_output_ends_with_a_terminating_zero() {
    let parser = read_string(b"a: 1\n");
    assert_eq!(parser.error, yaml_error_type_t::YAML_NO_ERROR);
    assert_eq!(parser.decoded(), b"a: 1\n\0");
    assert_eq!(parser.unread(), 6);
    assert_eq!(parser.offset, 5);
    let empty = read_string(b"");
    assert_eq!(empty.decoded(), b"\0");
    assert_eq!(empty.encoding(), yaml_encoding_t::YAML_UTF8_ENCODING);
}

#[test]
fn reader_counts_the_byte_order_mark_in_the_offset() {
    let parser = read_string(b"\xEF\xBB\xBFab");
    assert_eq!(parser.decoded(), b"ab\0");
    assert_eq!(parser.offset, 5);
    assert_eq!(parser.unread(), 3);
}

#[test]
fn reader_decodes_utf16_surrogate_pairs() {
    let le = read_string(b"\xFF\xFE\x3D\xD8\x00\xDE");
    assert_eq!(le.decoded(), b"\xF0\x9F\x98\x80\0");
    let be = read_string(b"\xFE\xFF\xD8\x3D\xDE\x00");
    assert_eq!(be.decoded(), b"\xF0\x9F\x98\x80\0");
}

#[test]
fn reader_error_values_for_each_problem() {
    assert_eq!(failure(b"ab\xF8"), (ReaderProblem::InvalidLeadingOctet, 2, 0xF8));
    assert_eq!(failure(b"a\xE0\xA0"), (ReaderProblem::IncompleteUtf8Sequence, 1, -1));
    assert_eq!(failure(b"\xDF!"), (ReaderProblem::InvalidTrailingOctet, 1, 0x21));
    assert_eq!(failure(b"\xE0\xA0!"), (ReaderProblem::InvalidTrailingOctet, 2, 0x21));
    assert_eq!(failure(b"\xC0\x80"), (ReaderProblem::InvalidUtf8Length, 0, -1));
    assert_eq!(failure(b"\xED\xA0\x80"), (ReaderProblem::InvalidUnicodeCharacter, 0, 0xD800));
    assert_eq!(failure(b"\xFF\xFEA"), (ReaderProblem::IncompleteUtf16Character, 2, -1));
    assert_eq!(failure(b"\xFF\xFE\x00\xDC"), (ReaderProblem::UnexpectedLowSurrogate, 2, 0xDC00));
    assert_eq!(failure(b"\xFF\xFE\x00\xD8"), (ReaderProblem::IncompleteSurrogatePair, 2, -1));
    assert_eq!(
        failure(b"\xFF\xFE\x00\xD8A\x00"),
        (ReaderProblem::ExpectedLowSurrogate, 4, 0x41)
    );
    assert_eq!(failure(b"a\x01"), (ReaderProblem::ControlCharacter, 1, 1));
    assert_eq!(failure(b"\xEF\xBB\xBFa\x7F"), (ReaderProblem::ControlCharacter, 4, 0x7F));
}

#[test]
fn reader_problem_messages() {
    assert_eq!(ReaderProblem::InvalidLeadingOctet.message(), "invalid leading UTF-8 octet");
    assert_eq!(ReaderProblem::ControlCharacter.message(), "control characters are not allowed");
    assert_eq!(ReaderProblem::InputError.message(), "input error");
    assert_eq!(ReaderProblem::UnexpectedLowSurrogate.message(), "unexpected low surrogate area");
}

#[test]
fn reader_reports_input_errors_of_the_handler() {
    let mut parser = yaml_parser_initialize::<Chunks>();
    yaml_parser_set_input(
        &mut parser,
        Chunks { input: b"abcd".to_vec(), offset: 0, chunk: 16, fail_at_end: true },
    );
    assert!(!read_all(&mut parser));
    assert_eq!(parser.error, yaml_error_type_t::YAML_READER_ERROR);
    assert_eq!(parser.problem, Some(ReaderProblem::InputError));
    assert_eq!(parser.problem_offset, 4);
    assert_eq!(parser.problem_value, -1);
    assert_eq!(parser.decoded(), b"abcd");
    let mut short = yaml_parser_initialize::<Chunks>();
    yaml_parser_set_input(
        &mut short,
        Chunks { input: b"ab".to_vec(), offset: 0, chunk: 16, fail_at_end: true },
    );
    assert_eq!(yaml_parser_update_buffer(&mut short, 1), 0);
    assert_eq!(short.problem, Some(ReaderProblem::InputError));
    assert_eq!(short.problem_offset, 0);
    assert!(short.decoded().is_empty());
}

#[test]
fn reader_results_do_not_depend_on_chunking() {
    let input = "x: \u{43f}\u{440}\u{438}\u{0800}\u{10000}\n".as_bytes().to_vec();
    for chunk in [1usize, 2, 3, 5, 100] {
        let mut parser = yaml_parser_initialize::<Chunks>();
        yaml_parser_set_input(
            &mut parser,
            Chunks { input: input.clone(), offset: 0, chunk, fail_at_end: false },
        );
        assert!(read_all(&mut parser), "chunk {chunk}");
        let mut expected = input.clone();
        expected.push(0);
        assert_eq!(parser.decoded(), &expected[..], "chunk {chunk}");
    }
}

#[test]
fn reader_rejects_invalid_input_whatever_the_chunking() {
    for chunk in [1usize, 2, 7] {
        let mut parser = yaml_parser_initialize::<Chunks>();
        yaml_parser_set_input(
            &mut parser,
            Chunks { input: b"abc\xC3(def".to_vec(), offset: 0, chunk, fail_at_end: false },
        );
        assert!(!read_all(&mut parser));
        assert_eq!(parser.problem, Some(ReaderProblem::InvalidTrailingOctet));
        assert_eq!(parser.problem_offset, 4);
        assert_eq!(parser.problem_value, 0x28);
    }
}

#[test]
fn reader_without_input_fails_and_changes_nothing() {
    let mut parser = yaml_parser_initialize::<StringInput>();
    assert_eq!(yaml_parser_update_buffer(&mut parser, 1), 0);
    assert_eq!(parser.error, yaml_error_type_t::YAML_NO_ERROR);
    assert_eq!(parser.problem, None);
    assert!(parser.decoded().is_empty());
}

#[test]
fn input_and_encoding_can_be_set_once_only() {
    let mut parser = yaml_parser_initialize::<StringInput>();
    yaml_parser_set_input_string(&mut parser, b"a");
    yaml_parser_set_input_string(&mut parser, b"b");
    yaml_parser_set_encoding(&mut parser, yaml_encoding_t::YAML_UTF8_ENCODING);
    yaml_parser_set_encoding(&mut parser, yaml_encoding_t::YAML_UTF16LE_ENCODING);
    assert_eq!(parser.encoding(), yaml_encoding_t::YAML_UTF8_ENCODING);
    assert!(read_all(&mut parser));
    assert_eq!(parser.decoded(), b"a\0");
}

#[test]
fn explicit_encoding_keeps_a_byte_order_mark_as_a_character() {
    let mut parser = yaml_parser_initialize::<StringInput>();
    yaml_parser_set_input_string(&mut parser, b"\xEF\xBB\xBFa");
    yaml_parser_set_encoding(&mut parser, yaml_encoding_t::YAML_UTF8_ENCODING);
    assert!(read_all(&mut parser));
    assert_eq!(parser.decoded(), b"\xEF\xBB\xBFa\0");
}

#[test]
fn update_buffer_stops_once_enough_characters_are_there() {
    let mut parser = yaml_parser_initialize::<StringInput>();
    yaml_parser_set_input_string(&mut parser, b"abc");
    assert_eq!(yaml_parser_update_buffer(&mut parser, 0), 1);
    assert!(parser.decoded().is_empty());
    assert_eq!(yaml_parser_update_buffer(&mut parser, 2), 1);
    assert!(parser.unread() >= 2);
    assert_eq!(yaml_parser_update_buffer(&mut parser, 10), 1);
    assert_eq!(parser.decoded(), b"abc\0");
    assert!(parser.eof());
}

#[test]
fn too_long_input_is_reported_after_the_fill() {
    let mut parser = yaml_parser_initialize::<StringInput>();
    yaml_parser_set_input_string(&mut parser, b"abc");
    parser.offset = MAX_FILE_SIZE - 1;
    assert_eq!(yaml_parser_update_buffer(&mut parser, 1), 0);
    assert_eq!(parser.problem, Some(ReaderProblem::InputTooLong));
    assert_eq!(parser.problem_offset, MAX_FILE_SIZE + 2);
    assert_eq!(parser.problem_value, -1);
    assert_eq!(parser.decoded(), b"abc");

    let mut bad = yaml_parser_initialize::<StringInput>();
    yaml_parser_set_input_string(&mut bad, b"ab\xF8");
    bad.offset = MAX_FILE_SIZE - 1;
    assert_eq!(yaml_parser_update_buffer(&mut bad, 1), 0);
    assert_eq!(bad.problem, Some(ReaderProblem::InvalidLeadingOctet));
    assert_eq!(bad.problem_offset, MAX_FILE_SIZE + 1);
    assert_eq!(bad.problem_value, 0xF8);
}

#[test]
fn string_join_with_room_does_not_reallocate() {
    let mut a = yaml_string_t { buffer: b"ab\0\0\0\0".to_vec(), pointer: 2 };
    let b = yaml_string_t { buffer: b"cd".to_vec(), pointer: 2 };
    assert_eq!(yaml_string_join(&mut a, &b), 1);
    assert_eq!(a.buffer, b"abcd\0\0".to_vec());
    assert_eq!(a.pointer, 4);
    let b_more = yaml_string_t { buffer: b"cdXYZ".to_vec(), pointer: 2 };
    let mut a2 = yaml_string_t { buffer: b"ab\0\0\0\0".to_vec(), pointer: 2 };
    assert_eq!(yaml_string_join(&mut a2, &b_more), 1);
    assert_eq!(a2.buffer, a.buffer);
}

struct CountingReads {
    input: Vec<u8>,
    offset: usize,
    reads: std::rc::Rc<std::cell::Cell<usize>>,
}

impl ReadHandler for CountingReads {
    fn read(&mut self, size: usize) -> Option<Vec<u8>> {
        self.reads.set(self.reads.get() + 1);
        let count = size.min(self.input.len() - self.offset);
        let out = self.input[self.offset..self.offset + count].to_vec();
        self.offset += count;
        Some(out)
    }
}

#[test]
fn handler_input_is_not_read_while_enough_characters_are_decoded() {
    let reads = std::rc::Rc::new(std::cell::Cell::new(0usize));
    let mut parser = yaml_parser_initialize::<CountingReads>();
    yaml_parser_set_input(
        &mut parser,
        CountingReads { input: b"key: value".to_vec(), offset: 0, reads: reads.clone() },
    );
    assert_eq!(yaml_parser_update_buffer(&mut parser, 4), 1);
    let reads_before = reads.get();
    assert!(reads_before >= 1);
    let unread = parser.unread();
    assert!(unread >= 4);
    let decoded = parser.decoded().to_vec();
    assert_eq!(yaml_parser_update_buffer(&mut parser, unread), 1);
    assert_eq!(yaml_parser_update_buffer(&mut parser, 1), 1);
    assert_eq!(reads.get(), reads_before);
    assert_eq!(parser.decoded(), &decoded[..]);
    assert_eq!(parser.unread(), unread);
}
