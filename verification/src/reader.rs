//! The parser's reader: it takes raw bytes from the input, detects their
//! encoding, decodes and checks them, and keeps the characters as UTF-8 in
//! the parser's buffer.
use vstd::prelude::*;
use crate::utf::{
    decode_chars, decode_input, decode_next, detect_encoding, encode_all, has_prefix,
    lemma_char_bounds, lemma_consume_char, lemma_detect_extend, lemma_encode_len,
    lemma_encode_push, lemma_incomplete_short, lemma_invalid_bounds, lemma_invalid_rejects,
    input_encoding, next_char, push_utf8, DecodeStep, ReaderProblem, Step, yaml_encoding_t,
};
use crate::memory::move_bytes;

verus! {

/// Capacity of the raw buffer: at most this many undecoded bytes are kept.
pub const INPUT_RAW_BUFFER_SIZE: usize = 16384;

/// Offsets from this one on are refused as too long an input.
pub const MAX_FILE_SIZE: usize = usize::MAX / 2;

/// The kinds of error that a parser can be left with.
#[derive(PartialEq, Eq, Structural, Clone, Copy, Debug)]
pub enum yaml_error_type_t {
    YAML_NO_ERROR,
    YAML_MEMORY_ERROR,
    YAML_READER_ERROR,
    YAML_SCANNER_ERROR,
    YAML_PARSER_ERROR,
    YAML_COMPOSER_ERROR,
    YAML_WRITER_ERROR,
    YAML_EMITTER_ERROR,
}

/// A source of input bytes, which users implement for their own inputs.
/// What the reader proves of a handler input holds for handlers that define
/// `handed_out` and `failed` and whose `read` meets its contract; the
/// defaults below only let an implementation written outside verified code
/// leave them out, and nothing is proved of such an implementation.
pub trait ReadHandler {
    /// Every byte that the handler has handed out so far, in order.
    closed spec fn handed_out(&self) -> Seq<u8> {
        Seq::empty()
    }

    /// Whether the last read reported an input error.
    closed spec fn failed(&self) -> bool {
        false
    }

    /// Reads at most `size` bytes: `Some` with the bytes read (none at the
    /// end of input), which are handed out next, or `None` on an input error,
    /// which hands out nothing.
    fn read(&mut self, size: usize) -> (r: Option<Vec<u8>>)
        ensures
            r matches Some(v) ==> v@.len() <= size && final(self).handed_out() == old(
                self,
            ).handed_out() + v@,
            r is None ==> final(self).handed_out() == old(self).handed_out(),
            final(self).failed() <==> r is None,
    ;
}

/// An input held in memory, read from its start to its end.
pub struct StringInput {
    data: Vec<u8>,
    current: usize,
}

impl StringInput {
    /// The whole input.
    pub closed spec fn data(&self) -> Seq<u8> {
        self.data@
    }

    /// How many bytes have been read.
    pub closed spec fn position(&self) -> int {
        self.current as int
    }

    /// The position lies within the input.
    pub closed spec fn wf(&self) -> bool {
        self.current <= self.data@.len()
    }

    /// An input that holds a copy of `input`, nothing read yet.
    pub fn new(input: &[u8]) -> (r: StringInput)
        ensures
            r.wf(),
            r.data() == input@,
            r.position() == 0,
    {
        let mut data: Vec<u8> = Vec::new();
        let mut i: usize = 0;
        while i < input.len()
            invariant
                i <= input@.len(),
                data@ == input@.take(i as int),
            decreases input@.len() - i,
        {
            data.push(input[i]);
            i += 1;
            assert(data@ == input@.take(i as int));
        }
        assert(input@.take(input@.len() as int) == input@);
        StringInput { data, current: 0 }
    }

    /// Reads the next `size` bytes, or all that are left where fewer are.
    fn read_string(&mut self, size: usize) -> (r: Vec<u8>)
        requires
            old(self).wf(),
        ensures
            final(self).wf(),
            final(self).data() == old(self).data(),
            final(self).position() == if old(self).position() + size <= old(self).data().len() {
                old(self).position() + size
            } else {
                old(self).data().len() as int
            },
            r@ == old(self).data().subrange(old(self).position(), final(self).position()),
    {
        let left = self.data.len() - self.current;
        let n = if size <= left {
            size
        } else {
            left
        };
        let mut out: Vec<u8> = Vec::new();
        let mut i: usize = 0;
        while i < n
            invariant
                i <= n,
                n <= self.data.len() - self.current,
                self.current <= self.data@.len(),
                out@ == self.data@.subrange(self.current as int, self.current + i),
            decreases n - i,
        {
            out.push(self.data[self.current + i]);
            i += 1;
            assert(out@ == self.data@.subrange(self.current as int, self.current + i));
        }
        self.current = self.current + n;
        out
    }
}

impl ReadHandler for StringInput {
    /// The bytes read so far.
    closed spec fn handed_out(&self) -> Seq<u8> {
        self.data@.take(self.current as int)
    }

    /// Reading from memory never fails.
    closed spec fn failed(&self) -> bool {
        false
    }

    /// Reads the next `size` bytes, or all that are left where fewer are;
    /// reading from memory never fails.
    fn read(&mut self, size: usize) -> (r: Option<Vec<u8>>)
        ensures
            r is Some,
            old(self).wf() ==> {
                &&& final(self).wf()
                &&& final(self).data() == old(self).data()
                &&& final(self).position() == if old(self).position() + size <= old(
                    self).data().len() {
                    old(self).position() + size
                } else {
                    old(self).data().len() as int
                }
                &&& r.unwrap()@ == old(self).data().subrange(
                    old(self).position(),
                    final(self).position(),
                )
            },
    {
        if self.current <= self.data.len() {
            let ghost before = self.data@.take(self.current as int);
            let v = self.read_string(size);
            assert(self.data@.take(self.current as int) =~= before + v@);
            Some(v)
        } else {
            Some(Vec::new())
        }
    }
}

/// Where a parser takes its input from.
pub enum ParserInput<H> {
    /// No input set yet.
    Unset,
    /// An input held in memory.
    String(StringInput),
    /// An input read by a handler of the user's.
    Handler(H),
}

/// The reader's state: the input, the raw and decoded buffers.
pub struct ReaderState<H> {
    input: ParserInput<H>,
    encoding: yaml_encoding_t,
    eof: bool,
    raw_buffer: Vec<u8>,
    raw_pointer: usize,
    buffer: Vec<u8>,
    unread: usize,
    /// The encoding that the user asked for (any: detect it).
    requested: Ghost<yaml_encoding_t>,
    /// Whether the encoding was detected from the input.
    detected: Ghost<bool>,
    /// Every byte that the input has supplied.
    supplied: Ghost<Seq<u8>>,
    /// The byte order mark that was skipped.
    bom: Ghost<Seq<u8>>,
    /// The input bytes that were decoded into characters.
    consumed: Ghost<Seq<u8>>,
    /// The characters decoded.
    chars: Ghost<Seq<int>>,
    /// Whether the terminating zero was put into the buffer.
    terminated: Ghost<bool>,
    /// What a handler input had handed out when it was set.
    handler_origin: Ghost<Seq<u8>>,
    /// Whether the reader's last read of a handler input failed.
    read_failed: Ghost<bool>,
}

/// A parser: its reader state, and the fields that report an error.
pub struct yaml_parser_t<H> {
    /// The kind of the last error.
    pub error: yaml_error_type_t,
    /// What the last reader error was.
    pub problem: Option<ReaderProblem>,
    /// The input offset at which the last reader error was found.
    pub problem_offset: usize,
    /// The offending byte or character of the last reader error (-1: none).
    pub problem_value: i32,
    /// The number of input bytes decoded so far.
    pub offset: usize,
    /// The input and the buffers.
    pub reader: ReaderState<H>,
}

/// Whether two inputs are of the same kind, a string input with the same
/// data.
pub open spec fn same_input_kind<H>(a: ParserInput<H>, b: ParserInput<H>) -> bool {
    match (a, b) {
        (ParserInput::Unset, ParserInput::Unset) => true,
        (ParserInput::String(x), ParserInput::String(y)) => x.data() == y.data(),
        (ParserInput::Handler(_), ParserInput::Handler(_)) => true,
        _ => false,
    }
}

impl<H: ReadHandler> ReaderState<H> {
    /// The raw bytes read but not decoded yet.
    pub closed spec fn pending(&self) -> Seq<u8> {
        self.raw_buffer@.subrange(self.raw_pointer as int, self.raw_buffer@.len() as int)
    }

    /// Every byte that the input has supplied so far.
    pub closed spec fn supplied(&self) -> Seq<u8> {
        self.supplied@
    }

    /// The buffer of decoded characters, in UTF-8, with a terminating zero
    /// once the input is exhausted.
    pub closed spec fn output(&self) -> Seq<u8> {
        self.buffer@
    }

    /// The number of characters in the buffer (the terminating zero counts).
    pub closed spec fn unread_count(&self) -> int {
        self.unread as int
    }

    /// The number of input bytes taken from the input and decoded (a byte
    /// order mark counts).
    pub closed spec fn decoded_len(&self) -> int {
        self.supplied@.len() - self.pending().len()
    }

    /// Whether the input has reported its end.
    pub closed spec fn at_eof(&self) -> bool {
        self.eof
    }

    /// Whether all of the input has been read and decoded.
    pub open spec fn finished(&self) -> bool {
        self.at_eof() && self.pending().len() == 0
    }

    /// The encoding of the input (any: not known yet).
    pub closed spec fn current_encoding(&self) -> yaml_encoding_t {
        self.encoding
    }

    /// The encoding that the user asked for (any: detect it).
    pub closed spec fn requested_encoding(&self) -> yaml_encoding_t {
        self.requested@
    }

    /// Where the input comes from.
    pub closed spec fn input_source(&self) -> ParserInput<H> {
        self.input
    }

    /// Everything but the input is the same in `self` and `other`.
    pub closed spec fn same_except_input(&self, other: Self) -> bool {
        *self == (ReaderState { input: self.input, handler_origin: self.handler_origin, ..other })
    }

    /// What a handler input had handed out when it was set: what it has
    /// handed out since is what it supplied to the reader.
    pub closed spec fn handler_origin(&self) -> Seq<u8> {
        self.handler_origin@
    }

    /// The last read that the reader made of its handler input failed.
    pub closed spec fn read_failed(&self) -> bool {
        self.read_failed@
    }

    /// The decoding state is the same in `self` and `other`.
    pub closed spec fn same_decoding(&self, other: Self) -> bool {
        &&& self.encoding == other.encoding
        &&& self.requested == other.requested
        &&& self.detected == other.detected
        &&& self.bom == other.bom
        &&& self.consumed == other.consumed
        &&& self.chars == other.chars
        &&& self.terminated == other.terminated
        &&& self.buffer@ == other.buffer@
        &&& self.unread == other.unread
    }

    /// The reader state of a parser that holds no input and has read none.
    pub open spec fn is_fresh(&self) -> bool {
        &&& self.input_source() is Unset
        &&& self.current_encoding() == yaml_encoding_t::YAML_ANY_ENCODING
        &&& self.requested_encoding() == yaml_encoding_t::YAML_ANY_ENCODING
        &&& !self.at_eof()
        &&& self.pending() == Seq::<u8>::empty()
        &&& self.supplied() == Seq::<u8>::empty()
        &&& self.output() == Seq::<u8>::empty()
        &&& self.unread_count() == 0
    }

    /// The reader's invariant, but for the terminating zero.
    #[verifier::opaque]
    pub closed spec fn wf_core(&self) -> bool {
        &&& self.raw_pointer <= self.raw_buffer@.len() <= INPUT_RAW_BUFFER_SIZE
        &&& self.supplied@ == self.bom@ + self.consumed@ + self.pending()
        &&& self.buffer@ == encode_all(self.chars@) + (if self.terminated@ {
            seq![0u8]
        } else {
            Seq::<u8>::empty()
        })
        &&& self.unread as int == self.chars@.len() + (if self.terminated@ {
            1int
        } else {
            0int
        })
        &&& self.terminated@ ==> self.eof && self.pending().len() == 0
        &&& self.encoding == yaml_encoding_t::YAML_ANY_ENCODING ==> {
            &&& self.bom@ == Seq::<u8>::empty()
            &&& self.consumed@ == Seq::<u8>::empty()
            &&& self.chars@ == Seq::<int>::empty()
            &&& !self.terminated@
            &&& !self.detected@
        }
        &&& self.encoding != yaml_encoding_t::YAML_ANY_ENCODING ==> decode_chars(
            self.encoding,
            self.consumed@,
        ) == Some(self.chars@)
        &&& self.detected@ ==> {
            &&& self.requested@ == yaml_encoding_t::YAML_ANY_ENCODING
            &&& detect_encoding(self.supplied@) == (self.encoding, self.bom@.len() as int)
            &&& self.bom@ == self.supplied@.take(self.bom@.len() as int)
            &&& (self.supplied@.len() >= 3 || self.eof)
        }
        &&& !self.detected@ ==> self.bom@ == Seq::<u8>::empty()
        &&& self.requested@ != yaml_encoding_t::YAML_ANY_ENCODING ==> self.encoding
            == self.requested@
        &&& !self.detected@ && self.encoding != yaml_encoding_t::YAML_ANY_ENCODING
            ==> self.requested@ == self.encoding
        &&& match self.input {
            ParserInput::Unset => self.supplied@ == Seq::<u8>::empty() && !self.eof,
            ParserInput::String(s) => {
                &&& s.wf()
                &&& self.supplied@ == s.data().take(s.position())
                &&& self.eof ==> s.position() == s.data().len()
            },
            ParserInput::Handler(h) => h.handed_out() == self.handler_origin@ + self.supplied@,
        }
        &&& self.read_failed@ ==> (self.input matches ParserInput::Handler(h) && h.failed())
    }

    /// Consequences of the invariant.
    proof fn lemma_wf_core(&self)
        requires
            self.wf_core(),
        ensures
            self.raw_pointer <= self.raw_buffer@.len() <= INPUT_RAW_BUFFER_SIZE,
            self.terminated@ ==> self.eof && self.pending().len() == 0,
            self.encoding == yaml_encoding_t::YAML_ANY_ENCODING ==> !self.terminated@,
            self.unread <= self.buffer@.len(),
    {
        reveal(ReaderState::wf_core);
        lemma_encode_len(self.chars@);
    }

    /// The reader's invariant.
    pub closed spec fn wf(&self) -> bool {
        &&& self.wf_core()
        &&& self.eof ==> self.encoding != yaml_encoding_t::YAML_ANY_ENCODING
        &&& self.eof && self.pending().len() == 0 ==> self.terminated@
    }

}

impl<H: ReadHandler> yaml_parser_t<H> {
    /// The reader's invariant.
    pub open spec fn wf(&self) -> bool {
        self.reader.wf()
    }

    /// The raw bytes read but not decoded yet.
    pub open spec fn pending(&self) -> Seq<u8> {
        self.reader.pending()
    }

    /// Every byte that the input has supplied so far.
    pub open spec fn supplied(&self) -> Seq<u8> {
        self.reader.supplied()
    }

    /// The buffer of decoded characters, in UTF-8, with a terminating zero
    /// once the input is exhausted.
    pub open spec fn output(&self) -> Seq<u8> {
        self.reader.output()
    }

    /// Whether all of the input has been read and decoded.
    pub open spec fn finished(&self) -> bool {
        self.reader.finished()
    }

    /// Whether an input is set.
    pub open spec fn has_input(&self) -> bool {
        !(self.reader.input_source() is Unset)
    }

    /// The number of characters in the buffer.
    pub fn unread(&self) -> (r: usize)
        ensures
            r == self.reader.unread_count(),
    {
        self.reader.unread
    }

    /// Whether the input has reported its end.
    pub fn eof(&self) -> (r: bool)
        ensures
            r == self.reader.at_eof(),
    {
        self.reader.eof
    }

    /// The number of raw bytes read but not decoded yet.
    pub fn raw_unread(&self) -> (r: usize)
        requires
            self.wf(),
        ensures
            r == self.pending().len(),
    {
        proof {
            reveal(ReaderState::wf_core);
        }
        self.reader.raw_buffer.len() - self.reader.raw_pointer
    }

    /// The buffer of decoded characters.
    pub fn decoded(&self) -> (r: &[u8])
        ensures
            r@ == self.output(),
    {
        self.reader.buffer.as_slice()
    }

    /// The encoding of the input.
    pub fn encoding(&self) -> (r: yaml_encoding_t)
        ensures
            r == self.reader.current_encoding(),
    {
        self.reader.encoding
    }
}

/// The reader state of a new parser.
fn fresh_reader<H: ReadHandler>() -> (r: ReaderState<H>)
    ensures
        r.wf(),
        r.is_fresh(),
{
    proof {
        reveal(ReaderState::wf_core);
    }
    let r = ReaderState {
        input: ParserInput::Unset,
        encoding: yaml_encoding_t::YAML_ANY_ENCODING,
        eof: false,
        raw_buffer: Vec::new(),
        raw_pointer: 0,
        buffer: Vec::new(),
        unread: 0,
        requested: Ghost(yaml_encoding_t::YAML_ANY_ENCODING),
        detected: Ghost(false),
        supplied: Ghost(Seq::empty()),
        bom: Ghost(Seq::empty()),
        consumed: Ghost(Seq::empty()),
        chars: Ghost(Seq::empty()),
        terminated: Ghost(false),
        handler_origin: Ghost(Seq::empty()),
        read_failed: Ghost(false),
    };
    assert(r.pending() =~= Seq::<u8>::empty());
    assert(r.buffer@ =~= Seq::<u8>::empty());
    assert(encode_all(Seq::<int>::empty()) == Seq::<u8>::empty());
    assert(r.supplied@ == r.bom@ + r.consumed@ + r.pending());
    assert(r.buffer@ == encode_all(r.chars@) + Seq::<u8>::empty());
    r
}

/// A parser with no input, that has read nothing and holds no error.
pub fn yaml_parser_initialize<H: ReadHandler>() -> (p: yaml_parser_t<H>)
    ensures
        p.wf(),
        p.reader.is_fresh(),
        p.error == yaml_error_type_t::YAML_NO_ERROR,
        p.problem is None,
        p.problem_offset == 0,
        p.problem_value == 0,
        p.offset == 0,
{
    yaml_parser_t {
        error: yaml_error_type_t::YAML_NO_ERROR,
        problem: None,
        problem_offset: 0,
        problem_value: 0,
        offset: 0,
        reader: fresh_reader(),
    }
}

/// Releases the parser's input and buffers: the parser is left as a new one.
pub fn yaml_parser_delete<H: ReadHandler>(parser: &mut yaml_parser_t<H>)
    ensures
        final(parser).wf(),
        final(parser).reader.is_fresh(),
        final(parser).error == yaml_error_type_t::YAML_NO_ERROR,
        final(parser).problem is None,
        final(parser).problem_offset == 0,
        final(parser).problem_value == 0,
        final(parser).offset == 0,
{
    *parser = yaml_parser_initialize();
}

/// Sets a string input. An input can be set once only: where one is set
/// already, nothing changes.
pub fn yaml_parser_set_input_string<H: ReadHandler>(parser: &mut yaml_parser_t<H>, input: &[u8])
    requires
        old(parser).wf(),
    ensures
        final(parser).wf(),
        old(parser).has_input() ==> *final(parser) == *old(parser),
        !old(parser).has_input() ==> {
            &&& final(parser).reader.input_source() matches ParserInput::String(s)
            &&& s.data() == input@
            &&& s.position() == 0
            &&& final(parser).reader.same_except_input(old(parser).reader)
            &&& final(parser).error == old(parser).error
            &&& final(parser).problem == old(parser).problem
            &&& final(parser).problem_offset == old(parser).problem_offset
            &&& final(parser).problem_value == old(parser).problem_value
            &&& final(parser).offset == old(parser).offset
        },
{
    proof {
        reveal(ReaderState::wf_core);
    }
    match parser.reader.input {
        ParserInput::Unset => {},
        _ => {
            return;
        },
    }
    let ghost before = parser.reader;
    parser.reader.input = ParserInput::String(StringInput::new(input));
    assert(input@.take(0) == Seq::<u8>::empty());
    assert(parser.reader.pending() == before.pending());
    assert(parser.reader.wf_core());
}

/// Sets an input that `handler` reads. An input can be set once only: where
/// one is set already, nothing changes.
pub fn yaml_parser_set_input<H: ReadHandler>(parser: &mut yaml_parser_t<H>, handler: H)
    requires
        old(parser).wf(),
    ensures
        final(parser).wf(),
        old(parser).has_input() ==> *final(parser) == *old(parser),
        !old(parser).has_input() ==> {
            &&& final(parser).reader.input_source() == ParserInput::Handler(handler)
            &&& final(parser).reader.handler_origin() == handler.handed_out()
            &&& final(parser).reader.same_except_input(old(parser).reader)
            &&& final(parser).error == old(parser).error
            &&& final(parser).problem == old(parser).problem
            &&& final(parser).problem_offset == old(parser).problem_offset
            &&& final(parser).problem_value == old(parser).problem_value
            &&& final(parser).offset == old(parser).offset
        },
{
    proof {
        reveal(ReaderState::wf_core);
    }
    match parser.reader.input {
        ParserInput::Unset => {},
        _ => {
            return;
        },
    }
    let ghost origin = handler.handed_out();
    parser.reader.input = ParserInput::Handler(handler);
    parser.reader.handler_origin = Ghost(origin);
    assert(origin + parser.reader.supplied@ =~= origin);
}

/// Sets the encoding of the input. Once the encoding is set or detected,
/// it cannot change: nothing changes then.
pub fn yaml_parser_set_encoding<H: ReadHandler>(parser: &mut yaml_parser_t<H>, encoding: yaml_encoding_t)
    requires
        old(parser).wf(),
    ensures
        final(parser).wf(),
        old(parser).reader.current_encoding() != yaml_encoding_t::YAML_ANY_ENCODING
            ==> *final(parser) == *old(parser),
        old(parser).reader.current_encoding() == yaml_encoding_t::YAML_ANY_ENCODING ==> {
            &&& final(parser).reader.current_encoding() == encoding
            &&& final(parser).reader.requested_encoding() == encoding
            &&& final(parser).supplied() == old(parser).supplied()
            &&& final(parser).pending() == old(parser).pending()
            &&& final(parser).output() == old(parser).output()
            &&& final(parser).reader.unread_count() == old(parser).reader.unread_count()
            &&& final(parser).reader.at_eof() == old(parser).reader.at_eof()
            &&& final(parser).reader.input_source() == old(parser).reader.input_source()
            &&& final(parser).error == old(parser).error
            &&& final(parser).problem == old(parser).problem
            &&& final(parser).problem_offset == old(parser).problem_offset
            &&& final(parser).problem_value == old(parser).problem_value
            &&& final(parser).offset == old(parser).offset
        },
{
    proof {
        reveal(ReaderState::wf_core);
    }
    if parser.reader.encoding != yaml_encoding_t::YAML_ANY_ENCODING {
        return;
    }
    let ghost before = parser.reader;
    parser.reader.encoding = encoding;
    parser.reader.requested = Ghost(encoding);
    assert(decode_chars(encoding, Seq::<u8>::empty()) == Some(Seq::<int>::empty()));
    assert(parser.reader.consumed@ == Seq::<u8>::empty());
    assert(parser.reader.pending() == before.pending());
}

/// Whether `s` starts with the bytes `a`, `b`.
proof fn lemma_prefix2(s: Seq<u8>, a: u8, b: u8)
    ensures
        has_prefix(s, seq![a, b]) <==> (s.len() >= 2 && s[0] == a && s[1] == b),
{
    if s.len() >= 2 {
        if s[0] == a && s[1] == b {
            assert(s.take(2) =~= seq![a, b]);
        } else if s.take(2) == seq![a, b] {
            assert(s.take(2)[0] == s[0] && s.take(2)[1] == s[1]);
        }
    }
}

/// Whether `s` starts with the bytes `a`, `b`, `c`.
proof fn lemma_prefix3(s: Seq<u8>, a: u8, b: u8, c: u8)
    ensures
        has_prefix(s, seq![a, b, c]) <==> (s.len() >= 3 && s[0] == a && s[1] == b && s[2] == c),
{
    if s.len() >= 3 {
        if s[0] == a && s[1] == b && s[2] == c {
            assert(s.take(3) =~= seq![a, b, c]);
        } else if s.take(3) == seq![a, b, c] {
            assert(s.take(3)[0] == s[0] && s.take(3)[1] == s[1] && s.take(3)[2] == s[2]);
        }
    }
}

impl<H: ReadHandler> yaml_parser_t<H> {
    /// Records a reader error; the result is 0, the failure code.
    fn set_reader_error(&mut self, problem: ReaderProblem, offset: usize, value: i32) -> (r: i32)
        ensures
            r == 0,
            final(self).error == yaml_error_type_t::YAML_READER_ERROR,
            final(self).problem == Some(problem),
            final(self).problem_offset == offset,
            final(self).problem_value == value,
            final(self).offset == old(self).offset,
            final(self).reader == old(self).reader,
    {
        self.error = yaml_error_type_t::YAML_READER_ERROR;
        self.problem = Some(problem);
        self.problem_offset = offset;
        self.problem_value = value;
        0
    }

    /// Records that the input is too long, at the current offset.
    fn set_input_too_long(&mut self) -> (r: i32)
        ensures
            r == 0,
            final(self).error == yaml_error_type_t::YAML_READER_ERROR,
            final(self).problem == Some(ReaderProblem::InputTooLong),
            final(self).problem_offset == old(self).offset,
            final(self).problem_value == -1,
            final(self).offset == old(self).offset,
            final(self).reader == old(self).reader,
    {
        let offset = self.offset;
        self.set_reader_error(ReaderProblem::InputTooLong, offset, -1)
    }

    /// Moves the undecoded bytes to the start of the raw buffer.
    fn compact_raw_buffer(&mut self)
        requires
            old(self).reader.wf_core(),
        ensures
            final(self).reader.wf_core(),
            final(self).reader.raw_pointer == 0,
            final(self).reader.pending() == old(self).reader.pending(),
            final(self).reader == (ReaderState {
                raw_buffer: final(self).reader.raw_buffer,
                raw_pointer: 0,
                ..old(self).reader
            }),
            final(self).error == old(self).error,
            final(self).problem == old(self).problem,
            final(self).problem_offset == old(self).problem_offset,
            final(self).problem_value == old(self).problem_value,
            final(self).offset == old(self).offset,
    {
        proof {
            reveal(ReaderState::wf_core);
        }
        let ghost old_pending = self.reader.pending();
        if self.reader.raw_pointer > 0 {
            let ptr = self.reader.raw_pointer;
            let n = self.reader.raw_buffer.len() - ptr;
            move_bytes(&mut self.reader.raw_buffer, 0, ptr, n);
            self.reader.raw_buffer.truncate(n);
            self.reader.raw_pointer = 0;
            assert(self.reader.raw_buffer@ =~= old_pending);
        }
        assert(self.reader.pending() =~= old_pending);
    }

    /// Asks the input for at most `size` bytes.
    fn read_input(&mut self, size: usize) -> (r: Option<Vec<u8>>)
        requires
            old(self).reader.wf_core(),
        ensures
            r matches Some(v) ==> v@.len() <= size,
            final(self).reader == (ReaderState { input: final(self).reader.input, ..old(self).reader }),
            same_input_kind(final(self).reader.input, old(self).reader.input),
            *final(self) == (yaml_parser_t { reader: final(self).reader, ..*old(self) }),
            old(self).reader.input is Unset ==> (r matches Some(v) && v@.len() == 0) && final(self).reader.input is Unset,
            r is None ==> old(self).reader.input is Handler,
            old(self).reader.input matches ParserInput::Handler(h) ==> {
                &&& final(self).reader.input matches ParserInput::Handler(g)
                &&& (r matches Some(v) ==> g.handed_out() == h.handed_out() + v@)
                &&& (r is None ==> g.handed_out() == h.handed_out())
                &&& (g.failed() <==> r is None)
            },
            old(self).reader.input matches ParserInput::String(s) ==> {
                &&& final(self).reader.input matches ParserInput::String(t)
                &&& t.wf()
                &&& r matches Some(v)
                &&& t.position() == if s.position() + size <= s.data().len() {
                    s.position() + size
                } else {
                    s.data().len() as int
                }
                &&& v@ == s.data().subrange(s.position(), t.position())
            },
    {
        proof {
            reveal(ReaderState::wf_core);
        }
        match &mut self.reader.input {
            ParserInput::String(s) => Some(s.read_string(size)),
            ParserInput::Handler(h) => h.read(size),
            ParserInput::Unset => Some(Vec::new()),
        }
    }

    /// Reads more raw bytes from the input, unless the raw buffer is full or
    /// the input has ended. The undecoded bytes are moved to the start of
    /// the raw buffer first.
    #[verifier::rlimit(40)]
    fn update_raw_buffer(&mut self) -> (r: bool)
        requires
            old(self).reader.wf_core(),
            old(self).has_input(),
        ensures
            final(self).reader.decoded_len() == old(self).reader.decoded_len(),
            final(self).reader.wf_core(),
            final(self).reader.same_decoding(old(self).reader),
            same_input_kind(final(self).reader.input, old(self).reader.input),
            final(self).offset == old(self).offset,
            final(self).reader.pending().len() >= old(self).reader.pending().len(),
            final(self).reader.pending().take(old(self).reader.pending().len() as int)
                == old(self).reader.pending(),
            final(self).reader.supplied@ == old(self).reader.supplied@ + final(self).reader.pending().skip(old(self).reader.pending().len() as int),
            old(self).reader.eof ==> final(self).reader.eof && final(self).reader.pending()
                == old(self).reader.pending(),
            final(self).reader.eof ==> r,
            r ==> {
                &&& final(self).error == old(self).error
                &&& final(self).problem == old(self).problem
                &&& final(self).problem_offset == old(self).problem_offset
                &&& final(self).problem_value == old(self).problem_value
            },
            r && !old(self).reader.eof && old(self).reader.pending().len() < INPUT_RAW_BUFFER_SIZE
                ==> final(self).reader.eof || final(self).reader.pending().len() > old(self).reader.pending().len(),
            !r ==> {
                &&& final(self).error == yaml_error_type_t::YAML_READER_ERROR
                &&& final(self).problem == Some(ReaderProblem::InputError)
                &&& final(self).problem_offset == old(self).offset
                &&& final(self).problem_value == -1
                &&& final(self).reader.input is Handler
                &&& final(self).reader.input->Handler_0.failed()
                &&& final(self).reader.read_failed@
                &&& !final(self).reader.eof
                &&& final(self).reader.supplied@ == old(self).reader.supplied@
            },
    {
        proof {
            reveal(ReaderState::wf_core);
        }
        let ghost old_pending = self.reader.pending();
        if self.reader.raw_pointer == 0 && self.reader.raw_buffer.len() == INPUT_RAW_BUFFER_SIZE {
            assert(old_pending.skip(old_pending.len() as int) =~= Seq::<u8>::empty());
            assert(old_pending.take(old_pending.len() as int) =~= old_pending);
            return true;
        }
        if self.reader.eof {
            assert(old_pending.skip(old_pending.len() as int) =~= Seq::<u8>::empty());
            assert(old_pending.take(old_pending.len() as int) =~= old_pending);
            return true;
        }
        self.compact_raw_buffer();
        let size = INPUT_RAW_BUFFER_SIZE - self.reader.raw_buffer.len();
        let got = self.read_input(size);
        match got {
            None => {
                self.reader.read_failed = Ghost(true);
                let offset = self.offset;
                self.set_reader_error(ReaderProblem::InputError, offset, -1);
                assert(old_pending.take(old_pending.len() as int) =~= old_pending);
                assert(self.reader.pending().skip(old_pending.len() as int) =~= Seq::<u8>::empty());
                false
            },
            Some(bytes) => {
                let mut bytes = bytes;
                let got_none = bytes.len() == 0;
                let ghost b = bytes@;
                self.reader.read_failed = Ghost(false);
                self.reader.raw_buffer.append(&mut bytes);
                self.reader.supplied = Ghost(self.reader.supplied@ + b);
                if got_none {
                    self.reader.eof = true;
                }
                assert(self.reader.pending() =~= old_pending + b);
                assert(self.reader.pending().take(old_pending.len() as int) =~= old_pending);
                assert(self.reader.pending().skip(old_pending.len() as int) =~= b);
                assert(self.reader.supplied@ =~= self.reader.bom@ + self.reader.consumed@
                    + self.reader.pending());
                proof {
                    if self.reader.detected@ {
                        lemma_detect_extend(old(self).reader.supplied@, b);
                        assert(self.reader.supplied@.take(self.reader.bom@.len() as int)
                            =~= old(self).reader.supplied@.take(self.reader.bom@.len() as int));
                    }
                    if self.reader.input is String {
                        let s = self.reader.input->String_0;
                        assert(self.reader.supplied@ =~= s.data().take(s.position()));
                    }
                    if self.reader.input is Handler {
                        let g = self.reader.input->Handler_0;
                        assert(g.handed_out() =~= self.reader.handler_origin@
                            + self.reader.supplied@);
                    }
                }
                true
            },
        }
    }

    /// Detects the encoding from a byte order mark at the start of the
    /// input (UTF-8 where there is none), and skips the mark.
    fn determine_encoding(&mut self) -> (r: bool)
        requires
            old(self).wf(),
            old(self).has_input(),
            old(self).reader.encoding == yaml_encoding_t::YAML_ANY_ENCODING,
            old(self).offset < MAX_FILE_SIZE,
        ensures
            final(self).offset == old(self).offset + (final(self).reader.decoded_len() - old(self).reader.decoded_len()),
            final(self).reader.wf_core(),
            final(self).reader.eof ==> final(self).reader.encoding
                != yaml_encoding_t::YAML_ANY_ENCODING,
            same_input_kind(final(self).reader.input, old(self).reader.input),
            final(self).reader.requested == old(self).reader.requested,
            final(self).reader.chars == old(self).reader.chars,
            final(self).reader.buffer@ == old(self).reader.buffer@,
            final(self).reader.unread == old(self).reader.unread,
            !final(self).reader.terminated@,
            final(self).offset <= old(self).offset + 3,
            final(self).reader.supplied@.len() >= old(self).reader.supplied@.len(),
            final(self).reader.supplied@.take(old(self).reader.supplied@.len() as int) == old(self).reader.supplied@,
            r ==> {
                &&& final(self).reader.encoding != yaml_encoding_t::YAML_ANY_ENCODING
                &&& final(self).error == old(self).error
                &&& final(self).problem == old(self).problem
                &&& final(self).problem_offset == old(self).problem_offset
                &&& final(self).problem_value == old(self).problem_value
            },
            !r ==> {
                &&& final(self).reader.wf()
                &&& final(self).error == yaml_error_type_t::YAML_READER_ERROR
                &&& final(self).problem == Some(ReaderProblem::InputError)
                &&& final(self).problem_offset == final(self).offset
                &&& final(self).problem_value == -1
                &&& final(self).reader.input is Handler
                &&& final(self).reader.input->Handler_0.failed()
                &&& final(self).reader.read_failed@
            },
    {
        proof {
            reveal(ReaderState::wf_core);
        }
        assert(self.reader.supplied@.take(self.reader.supplied@.len() as int)
            =~= self.reader.supplied@);
        while !self.reader.eof && self.reader.raw_buffer.len() - self.reader.raw_pointer < 3
            invariant
                self.reader.wf_core(),
                self.reader.raw_pointer <= self.reader.raw_buffer@.len(),
                !self.reader.terminated@,
                self.reader.decoded_len() == old(self).reader.decoded_len(),
                self.has_input(),
                self.reader.encoding == yaml_encoding_t::YAML_ANY_ENCODING,
                same_input_kind(self.reader.input, old(self).reader.input),
                self.reader.same_decoding(old(self).reader),
                self.offset == old(self).offset,
                self.offset < MAX_FILE_SIZE,
                self.reader.supplied@.len() >= old(self).reader.supplied@.len(),
                self.reader.supplied@.take(old(self).reader.supplied@.len() as int) == old(self).reader.supplied@,
                self.error == old(self).error,
                self.problem == old(self).problem,
                self.problem_offset == old(self).problem_offset,
                self.problem_value == old(self).problem_value,
            decreases (if self.reader.eof || self.reader.pending().len() >= 3 {
                0int
            } else {
                4 - self.reader.pending().len()
            }),
        {
            let ghost before = self.reader.supplied@;
            let ok = self.update_raw_buffer();
            proof {
                self.reader.lemma_wf_core();
            }
            if !ok {
                assert(self.reader.supplied@.take(old(self).reader.supplied@.len() as int)
                    =~= old(self).reader.supplied@);
                return false;
            }
            assert(self.reader.supplied@.take(old(self).reader.supplied@.len() as int)
                =~= before.take(old(self).reader.supplied@.len() as int));
        }
        let ghost sup = self.reader.supplied@;
        assert(sup == self.reader.pending());
        let p = self.reader.raw_pointer;
        let avail = self.reader.raw_buffer.len() - p;
        let mut enc = yaml_encoding_t::YAML_UTF8_ENCODING;
        let mut bl: usize = 0;
        if avail >= 2 && self.reader.raw_buffer[p] == 0xFF && self.reader.raw_buffer[p + 1] == 0xFE {
            enc = yaml_encoding_t::YAML_UTF16LE_ENCODING;
            bl = 2;
        } else if avail >= 2 && self.reader.raw_buffer[p] == 0xFE && self.reader.raw_buffer[p + 1]
            == 0xFF {
            enc = yaml_encoding_t::YAML_UTF16BE_ENCODING;
            bl = 2;
        } else if avail >= 3 && self.reader.raw_buffer[p] == 0xEF && self.reader.raw_buffer[p + 1]
            == 0xBB && self.reader.raw_buffer[p + 2] == 0xBF {
            bl = 3;
        }
        proof {
            assert(avail >= 1 ==> sup[0] == self.reader.raw_buffer@[p as int]);
            assert(avail >= 2 ==> sup[1] == self.reader.raw_buffer@[p + 1]);
            assert(avail >= 3 ==> sup[2] == self.reader.raw_buffer@[p + 2]);
            lemma_prefix2(sup, 0xFF, 0xFE);
            lemma_prefix2(sup, 0xFE, 0xFF);
            lemma_prefix3(sup, 0xEF, 0xBB, 0xBF);
            assert(detect_encoding(sup) == (enc, bl as int));
        }
        self.reader.encoding = enc;
        self.reader.raw_pointer = p + bl;
        self.offset = self.offset + bl;
        self.reader.bom = Ghost(sup.take(bl as int));
        self.reader.detected = Ghost(true);
        assert(sup =~= sup.take(bl as int) + Seq::<u8>::empty() + self.reader.pending());
        assert(self.reader.pending().len() == sup.len() - bl);
        assert(decode_chars(enc, Seq::<u8>::empty()) == Some(Seq::<int>::empty()));
        true
    }
}

impl<H: ReadHandler> yaml_parser_t<H> {
    /// Takes the character of `width` bytes at the front of the pending raw
    /// bytes, whose code point is `code`, into the buffer.
    #[verifier::rlimit(40)]
    fn consume_char(&mut self, code: u32, width: usize)
        requires
            old(self).reader.wf_core(),
            old(self).reader.encoding != yaml_encoding_t::YAML_ANY_ENCODING,
            !old(self).reader.terminated@,
            old(self).offset <= usize::MAX - 4,
            old(self).reader.pending().len() > 0,
            next_char(old(self).reader.encoding, old(self).reader.pending(), old(self).reader.eof)
                == (DecodeStep::Char { value: code as int, width: width as int }),
        ensures
            final(self).reader.decoded_len() == old(self).reader.decoded_len() + width,
            final(self).reader.wf_core(),
            !final(self).reader.terminated@,
            final(self).reader.encoding == old(self).reader.encoding,
            final(self).reader.eof == old(self).reader.eof,
            final(self).reader.input == old(self).reader.input,
            final(self).reader.requested == old(self).reader.requested,
            final(self).reader.supplied == old(self).reader.supplied,
            final(self).reader.raw_buffer == old(self).reader.raw_buffer,
            final(self).reader.raw_pointer == old(self).reader.raw_pointer + width,
            final(self).reader.buffer@.len() >= old(self).reader.buffer@.len(),
            final(self).reader.buffer@.take(old(self).reader.buffer@.len() as int) == old(
                self).reader.buffer@,
            final(self).reader.unread == old(self).reader.unread + 1,
            final(self).offset == old(self).offset + width,
            final(self).error == old(self).error,
            final(self).problem == old(self).problem,
            final(self).problem_offset == old(self).problem_offset,
            final(self).problem_value == old(self).problem_value,
    {
        proof {
            reveal(ReaderState::wf_core);
        }
        let ghost p = self.reader.pending();
        let ghost enc = self.reader.encoding;
        let ghost eof = self.reader.eof;
        let ghost cs = self.reader.chars@;
        let ghost done = self.reader.consumed@;
        let ghost ob = self.reader.buffer@;
        proof {
            lemma_char_bounds(enc, p, eof);
            lemma_consume_char(enc, done, cs, p, eof);
            lemma_encode_push(cs, code as int);
            lemma_encode_len(cs.push(code as int));
        }
        self.reader.raw_pointer = self.reader.raw_pointer + width;
        self.offset = self.offset + width;
        push_utf8(&mut self.reader.buffer, code);
        self.reader.consumed = Ghost(done + p.take(width as int));
        self.reader.chars = Ghost(cs.push(code as int));
        let blen = self.reader.buffer.len();
        assert(blen >= self.reader.chars@.len());
        self.reader.unread = self.reader.unread + 1;
        assert(self.reader.pending() =~= p.skip(width as int));
        assert(self.reader.supplied@ =~= self.reader.bom@ + self.reader.consumed@
            + self.reader.pending());
        assert(self.reader.buffer@ =~= encode_all(self.reader.chars@) + Seq::<u8>::empty());
        assert(self.reader.buffer@.take(ob.len() as int) =~= ob);
    }

    /// Decodes the characters in the raw buffer, until it is empty or holds
    /// only the start of a character. The offset is checked against the
    /// input size limit after the whole fill; here it only stops decoding
    /// where one more character could overflow it.
    #[verifier::rlimit(40)]
    fn decode_raw(&mut self) -> (r: i32)
        requires
            old(self).reader.wf_core(),
            old(self).reader.encoding != yaml_encoding_t::YAML_ANY_ENCODING,
            !old(self).reader.terminated@,
        ensures
            final(self).offset == old(self).offset + (final(self).reader.decoded_len() - old(self).reader.decoded_len()),
            final(self).reader.wf_core(),
            !final(self).reader.terminated@,
            final(self).reader.encoding == old(self).reader.encoding,
            final(self).reader.eof == old(self).reader.eof,
            final(self).reader.input == old(self).reader.input,
            final(self).reader.requested == old(self).reader.requested,
            final(self).reader.supplied == old(self).reader.supplied,
            final(self).reader.buffer@.len() >= old(self).reader.buffer@.len(),
            final(self).reader.buffer@.take(old(self).reader.buffer@.len() as int) == old(
                self).reader.buffer@,
            final(self).reader.unread >= old(self).reader.unread,
            final(self).reader.unread == old(self).reader.unread ==> final(self).reader.pending()
                == old(self).reader.pending(),
            r == 0 || r == 1,
            r == 1 ==> {
                &&& final(self).error == old(self).error
                &&& final(self).problem == old(self).problem
                &&& final(self).problem_offset == old(self).problem_offset
                &&& final(self).problem_value == old(self).problem_value
                &&& final(self).reader.pending().len() == 0 || (!final(self).reader.eof
                    && final(self).reader.pending().len() < 4)
            },
            r == 0 ==> final(self).decode_failed() && final(self).reader.pending().len() > 0,
    {
        let ghost ob = self.reader.buffer@;
        let ghost ou = self.reader.unread;
        let ghost op = self.reader.raw_pointer;
        let mut stop = false;
        while !stop && self.reader.raw_pointer < self.reader.raw_buffer.len()
            invariant
                self.reader.wf_core(),
                !self.reader.terminated@,
                self.reader.encoding == old(self).reader.encoding,
                self.reader.encoding != yaml_encoding_t::YAML_ANY_ENCODING,
                self.reader.eof == old(self).reader.eof,
                self.reader.input == old(self).reader.input,
                self.reader.requested == old(self).reader.requested,
                self.reader.supplied == old(self).reader.supplied,
                self.reader.buffer@.len() >= ob.len(),
                self.reader.buffer@.take(ob.len() as int) == ob,
                ob == old(self).reader.buffer@,
                ou == old(self).reader.unread,
                op == old(self).reader.raw_pointer,
                self.reader.unread >= ou,
                self.reader.unread == ou ==> self.reader.raw_pointer == op,
                self.reader.raw_pointer >= op,
                self.reader.raw_buffer == old(self).reader.raw_buffer,
                self.offset == old(self).offset + (self.reader.decoded_len() - old(self).reader.decoded_len()),
                self.error == old(self).error,
                self.problem == old(self).problem,
                self.problem_offset == old(self).problem_offset,
                self.problem_value == old(self).problem_value,
                stop ==> !self.reader.eof && 0 < self.reader.pending().len() < 4,
            decreases self.reader.raw_buffer@.len() - self.reader.raw_pointer + (if stop {
                0int
            } else {
                1int
            }),
        {
            if self.offset > usize::MAX - 4 {
                let r = self.set_input_too_long();
                assert(self.reader.pending().len() > 0);
                return r;
            }
            let ghost p = self.reader.pending();
            assert(p == self.reader.raw_buffer@.skip(self.reader.raw_pointer as int));
            let step = decode_next(
                self.reader.encoding,
                self.reader.raw_buffer.as_slice(),
                self.reader.raw_pointer,
                self.reader.eof,
            );
            match step {
                Step::Incomplete => {
                    proof {
                        lemma_incomplete_short(self.reader.encoding, p, self.reader.eof);
                    }
                    stop = true;
                },
                Step::Invalid { problem, at, value } => {
                    proof {
                        lemma_invalid_bounds(self.reader.encoding, p, self.reader.eof);
                    }
                    let offset = self.offset + at;
                    let r = self.set_reader_error(problem, offset, value);
                    return r;
                },
                Step::Char { code, width } => {
                    let ghost bb = self.reader.buffer@;
                    self.consume_char(code, width);
                    assert(self.reader.buffer@.take(ob.len() as int) =~= bb.take(ob.len() as int));
                    assert(self.reader.pending() =~= p.skip(width as int));
                },
            }
        }
        proof {
            self.reader.lemma_wf_core();
        }
        1
    }

    /// Puts the terminating zero into the buffer, once the input is
    /// exhausted.
    fn terminate(&mut self)
        requires
            old(self).reader.wf_core(),
            old(self).reader.eof,
            old(self).reader.pending().len() == 0,
            !old(self).reader.terminated@,
            old(self).reader.encoding != yaml_encoding_t::YAML_ANY_ENCODING,
        ensures
            final(self).reader.decoded_len() == old(self).reader.decoded_len(),
            final(self).wf(),
            final(self).finished(),
            final(self).reader.input == old(self).reader.input,
            final(self).reader.requested == old(self).reader.requested,
            final(self).reader.supplied == old(self).reader.supplied,
            final(self).reader.buffer@ == old(self).reader.buffer@.push(0),
            final(self).error == old(self).error,
            final(self).problem == old(self).problem,
            final(self).problem_offset == old(self).problem_offset,
            final(self).problem_value == old(self).problem_value,
            final(self).offset == old(self).offset,
    {
        proof {
            reveal(ReaderState::wf_core);
        }
        let ghost cs = self.reader.chars@;
        proof {
            lemma_encode_len(cs);
        }
        self.reader.buffer.push(0);
        let blen = self.reader.buffer.len();
        self.reader.unread = self.reader.unread + 1;
        self.reader.terminated = Ghost(true);
        assert(self.reader.buffer@ =~= encode_all(cs) + seq![0u8]);
    }

    /// One round of filling the buffer: reads more input, unless this is
    /// the first round and undecoded bytes are at hand, then decodes what
    /// it can. 0: failure; 1: more may follow; 2: the input is exhausted
    /// and the buffer terminated.
    fn fill_step(&mut self, first: bool) -> (r: u8)
        requires
            old(self).reader.wf_core(),
            old(self).has_input(),
            old(self).reader.encoding != yaml_encoding_t::YAML_ANY_ENCODING,
            !old(self).reader.terminated@,
            !first ==> !old(self).reader.eof && old(self).reader.pending().len() < 4,
        ensures
            final(self).offset == old(self).offset + (final(self).reader.decoded_len() - old(self).reader.decoded_len()),
            same_input_kind(final(self).reader.input, old(self).reader.input),
            final(self).reader.requested == old(self).reader.requested,
            final(self).reader.buffer@.len() >= old(self).reader.buffer@.len(),
            final(self).reader.buffer@.take(old(self).reader.buffer@.len() as int) == old(
                self).reader.buffer@,
            final(self).reader.supplied@.len() >= old(self).reader.supplied@.len(),
            final(self).reader.supplied@.take(old(self).reader.supplied@.len() as int) == old(
                self).reader.supplied@,
            r <= 2,
            r == 0 ==> final(self).wf() && (final(self).decode_failed() || final(self).input_failed()),
            r != 0 ==> {
                &&& final(self).error == old(self).error
                &&& final(self).problem == old(self).problem
                &&& final(self).problem_offset == old(self).problem_offset
                &&& final(self).problem_value == old(self).problem_value
            },
            r == 2 ==> final(self).wf() && final(self).finished(),
            r == 1 ==> {
                &&& final(self).reader.wf_core()
                &&& final(self).has_input()
                &&& final(self).reader.encoding != yaml_encoding_t::YAML_ANY_ENCODING
                &&& !final(self).reader.terminated@
                &&& !final(self).reader.eof
                &&& final(self).reader.pending().len() < 4
                &&& final(self).reader.unread >= old(self).reader.unread
                &&& !first ==> final(self).reader.unread > old(self).reader.unread
                    || final(self).reader.pending().len() > old(self).reader.pending().len()
            },
    {
        let ghost ob = self.reader.buffer@;
        let ghost os = self.reader.supplied@;
        assert(ob.take(ob.len() as int) =~= ob);
        assert(os.take(os.len() as int) =~= os);
        if !first || self.reader.raw_pointer == self.reader.raw_buffer.len() {
            if !self.update_raw_buffer() {
                assert(self.reader.supplied@.take(os.len() as int) =~= os);
                return 0;
            }
            assert(self.reader.supplied@.take(os.len() as int) =~= os);
        }
        let ghost bb = self.reader.buffer@;
        let ghost bs = self.reader.supplied@;
        let d = self.decode_raw();
        assert(self.reader.buffer@.take(ob.len() as int) =~= bb.take(ob.len() as int));
        assert(self.reader.supplied@.take(os.len() as int) =~= bs.take(os.len() as int));
        if d == 0 {
            return 0;
        }
        if self.reader.eof {
            let ghost bt = self.reader.buffer@;
            self.terminate();
            assert(self.reader.buffer@.take(ob.len() as int) =~= bt.take(ob.len() as int));
            return 2;
        }
        1
    }

    /// Fills the buffer until it holds `length` characters or the input is
    /// exhausted.
    #[verifier::rlimit(40)]
    fn update_buffer_impl(&mut self, length: usize) -> (r: i32)
        requires
            old(self).wf(),
            old(self).has_input(),
            old(self).offset < MAX_FILE_SIZE,
        ensures
            old(self).reader.unread_count() >= length || old(self).finished() ==> r == 1
                && *final(self) == *old(self),
            final(self).offset == old(self).offset + (final(self).reader.decoded_len() - old(self).reader.decoded_len()),
            final(self).wf(),
            final(self).progressed_from(*old(self)),
            r == 0 || r == 1,
            r == 1 ==> {
                &&& final(self).error == old(self).error
                &&& final(self).problem == old(self).problem
                &&& final(self).problem_offset == old(self).problem_offset
                &&& final(self).problem_value == old(self).problem_value
                &&& final(self).reader.unread_count() >= length || final(self).finished()
            },
            r == 0 ==> final(self).decode_failed() || final(self).input_failed(),
    {
        let ghost ob = self.reader.buffer@;
        let ghost os = self.reader.supplied@;
        assert(ob.take(ob.len() as int) =~= ob);
        assert(os.take(os.len() as int) =~= os);
        proof {
            self.reader.lemma_wf_core();
        }
        if self.reader.eof && self.reader.raw_pointer == self.reader.raw_buffer.len() {
            return 1;
        }
        if self.reader.unread >= length {
            return 1;
        }
        if self.reader.encoding == yaml_encoding_t::YAML_ANY_ENCODING {
            if !self.determine_encoding() {
                assert(self.reader.buffer@.take(ob.len() as int) =~= ob);
                return 0;
            }
        }
        let mut first = true;
        while self.reader.unread < length
            invariant
                self.reader.wf_core(),
                self.has_input(),
                self.reader.encoding != yaml_encoding_t::YAML_ANY_ENCODING,
                !self.reader.terminated@,
                same_input_kind(self.reader.input, old(self).reader.input),
                self.reader.requested == old(self).reader.requested,
                ob == old(self).reader.buffer@,
                os == old(self).reader.supplied@,
                self.reader.buffer@.len() >= ob.len(),
                self.reader.buffer@.take(ob.len() as int) == ob,
                self.reader.supplied@.len() >= os.len(),
                self.reader.supplied@.take(os.len() as int) == os,
                self.offset == old(self).offset + (self.reader.decoded_len() - old(self).reader.decoded_len()),
                self.error == old(self).error,
                self.problem == old(self).problem,
                self.problem_offset == old(self).problem_offset,
                self.problem_value == old(self).problem_value,
                !(old(self).reader.unread_count() >= length || old(self).finished()),
                first ==> self.reader.unread < length,
                !first ==> !self.reader.eof && self.reader.pending().len() < 4,
            decreases (if self.reader.unread < length {
                length - self.reader.unread
            } else {
                0
            }), (if first {
                INPUT_RAW_BUFFER_SIZE as int + 1
            } else {
                4 - self.reader.pending().len()
            }),
        {
            let ghost bb = self.reader.buffer@;
            let ghost bs = self.reader.supplied@;
            let f = self.fill_step(first);
            assert(self.reader.buffer@.take(ob.len() as int) =~= bb.take(ob.len() as int));
            assert(self.reader.supplied@.take(os.len() as int) =~= bs.take(os.len() as int));
            if f != 1 {
                return if f == 0 { 0 } else { 1 };
            }
            first = false;
        }
        1
    }
}

impl<H: ReadHandler> yaml_parser_t<H> {
    /// The reader stopped on a character that it cannot decode, or on an
    /// input that is too long; the error fields say which and where.
    pub open spec fn decode_failed(&self) -> bool {
        &&& self.error == yaml_error_type_t::YAML_READER_ERROR
        &&& self.problem is Some
        &&& {
            ||| {
                &&& self.problem == Some(ReaderProblem::InputTooLong)
                &&& self.offset >= MAX_FILE_SIZE
                &&& self.problem_offset == self.offset
                &&& self.problem_value == -1
            }
            ||| {
                &&& self.pending().len() > 0
                &&& next_char(self.reader.current_encoding(), self.pending(), self.reader.at_eof())
                    == DecodeStep::Invalid {
                    problem: self.problem.unwrap(),
                    at: self.problem_offset - self.offset,
                    value: self.problem_value as int,
                }
            }
        }
    }

    /// The read handler reported an input error: the last read that the
    /// reader made of it returned nothing.
    pub open spec fn input_failed(&self) -> bool {
        &&& self.error == yaml_error_type_t::YAML_READER_ERROR
        &&& self.problem == Some(ReaderProblem::InputError)
        &&& self.problem_offset == self.offset
        &&& self.problem_value == -1
        &&& self.reader.input_source() is Handler
        &&& self.reader.input_source()->Handler_0.failed()
        &&& self.reader.read_failed()
    }

    /// What the reader has taken in and given out only grew since `old`,
    /// from the same input and with the same requested encoding.
    pub open spec fn progressed_from(&self, old: Self) -> bool {
        &&& same_input_kind(self.reader.input_source(), old.reader.input_source())
        &&& self.reader.requested_encoding() == old.reader.requested_encoding()
        &&& self.supplied().len() >= old.supplied().len()
        &&& self.supplied().take(old.supplied().len() as int) == old.supplied()
        &&& self.output().len() >= old.output().len()
        &&& self.output().take(old.output().len() as int) == old.output()
    }
}

/// Makes sure that the buffer holds at least `length` characters, reading
/// and decoding more input where it does not (it may then hold more). Once
/// the input is exhausted, the buffer ends with a zero character. Returns 1
/// on success, and 0, with a reader error, on failure: no input set, an
/// input error, an undecodable character, or an input too long.
pub fn yaml_parser_update_buffer<H: ReadHandler>(parser: &mut yaml_parser_t<H>, length: usize) -> (r: i32)
    requires
        old(parser).wf(),
    ensures
        final(parser).wf(),
        r == 0 || r == 1,
        !old(parser).has_input() ==> r == 0 && *final(parser) == *old(parser),
        old(parser).has_input() && old(parser).offset >= MAX_FILE_SIZE ==> {
            &&& r == 0
            &&& final(parser).reader == old(parser).reader
            &&& final(parser).offset == old(parser).offset
            &&& final(parser).error == yaml_error_type_t::YAML_READER_ERROR
            &&& final(parser).problem == Some(ReaderProblem::InputTooLong)
            &&& final(parser).problem_offset == old(parser).offset
            &&& final(parser).problem_value == -1
        },
        final(parser).progressed_from(*old(parser)),
        old(parser).has_input() ==> final(parser).offset == old(parser).offset + (final(
            parser).reader.decoded_len() - old(parser).reader.decoded_len()),
        old(parser).has_input() && old(parser).offset < MAX_FILE_SIZE && (old(
            parser).reader.unread_count() >= length || old(parser).finished()) ==> r == 1
            && *final(parser) == *old(parser),
        r == 1 ==> {
            &&& final(parser).error == old(parser).error
            &&& final(parser).problem == old(parser).problem
            &&& final(parser).problem_offset == old(parser).problem_offset
            &&& final(parser).problem_value == old(parser).problem_value
            &&& final(parser).offset < MAX_FILE_SIZE
            &&& final(parser).reader.unread_count() >= length || final(parser).finished()
        },
        r == 0 && old(parser).has_input() ==> final(parser).decode_failed() || final(
            parser).input_failed(),
{
    assert(parser.supplied().take(parser.supplied().len() as int) =~= parser.supplied());
    assert(parser.output().take(parser.output().len() as int) =~= parser.output());
    match parser.reader.input {
        ParserInput::Unset => {
            return 0;
        },
        _ => {},
    }
    if parser.offset >= MAX_FILE_SIZE {
        return parser.set_input_too_long();
    }
    let result = parser.update_buffer_impl(length);
    if result != 0 && parser.offset >= MAX_FILE_SIZE {
        return parser.set_input_too_long();
    }
    result
}

/// Once the reader has read and decoded all of its input, the buffer holds
/// the UTF-8 text of what the supplied input decodes to (in the requested
/// encoding, or in the one detected from a byte order mark, which is
/// skipped), followed by a terminating zero.
pub proof fn lemma_finished_output<H: ReadHandler>(p: &yaml_parser_t<H>)
    requires
        p.wf(),
        p.finished(),
    ensures
        p.output().len() >= 1,
        p.output().last() == 0,
        decode_input(p.reader.requested_encoding(), p.supplied()) == Some(p.output().drop_last()),
{
    reveal(ReaderState::wf_core);
    let r = p.reader;
    let sup = r.supplied@;
    assert(r.pending() =~= Seq::<u8>::empty());
    assert(sup =~= r.bom@ + r.consumed@);
    assert(p.output().drop_last() =~= encode_all(r.chars@));
    if r.detected@ {
        assert(sup.skip(r.bom@.len() as int) =~= r.consumed@);
    } else {
        assert(sup.skip(0) =~= r.consumed@);
    }
}

/// A string input has been supplied in full once it reported its end.
pub proof fn lemma_string_input_supplied<H: ReadHandler>(p: &yaml_parser_t<H>)
    requires
        p.wf(),
        p.reader.input_source() is String,
        p.reader.at_eof(),
    ensures
        p.supplied() == p.reader.input_source()->String_0.data(),
{
    reveal(ReaderState::wf_core);
    let s = p.reader.input_source()->String_0;
    assert(s.data().take(s.position()) =~= s.data());
}

/// A character that the reader cannot decode makes it reject the input as a
/// whole, whatever bytes follow those supplied so far (none where the input
/// has ended).
pub proof fn lemma_undecodable_rejects<H: ReadHandler>(p: &yaml_parser_t<H>, rest: Seq<u8>)
    requires
        p.wf(),
        p.pending().len() > 0,
        next_char(p.reader.current_encoding(), p.pending(), p.reader.at_eof()) is Invalid,
        p.reader.at_eof() ==> rest.len() == 0,
    ensures
        decode_input(p.reader.requested_encoding(), p.supplied() + rest) is None,
{
    reveal(ReaderState::wf_core);
    let r = p.reader;
    let enc = r.encoding;
    let all = r.supplied@ + rest;
    assert(enc != yaml_encoding_t::YAML_ANY_ENCODING);
    lemma_invalid_rejects(enc, r.consumed@, r.pending(), rest, r.eof);
    if r.detected@ {
        if r.eof {
            assert(all =~= r.supplied@);
        } else {
            lemma_detect_extend(r.supplied@, rest);
        }
        assert(all.skip(r.bom@.len() as int) =~= r.consumed@ + r.pending() + rest);
    } else {
        assert(all.skip(0) =~= r.consumed@ + r.pending() + rest);
    }
}

/// A character that the reader cannot decode in a string input makes it
/// reject that input as a whole.
pub proof fn lemma_string_input_rejected<H: ReadHandler>(p: &yaml_parser_t<H>)
    requires
        p.wf(),
        p.reader.input_source() is String,
        p.pending().len() > 0,
        next_char(p.reader.current_encoding(), p.pending(), p.reader.at_eof()) is Invalid,
    ensures
        decode_input(p.reader.requested_encoding(), p.reader.input_source()->String_0.data()) is None,
{
    reveal(ReaderState::wf_core);
    let s = p.reader.input_source()->String_0;
    let rest = s.data().skip(s.position());
    assert(s.data() =~= p.supplied() + rest);
    lemma_undecodable_rejects(p, rest);
}

/// On a string input that the reader accepts as a whole, reading fails with
/// no decoding problem: only an input too long stops it.
pub proof fn lemma_valid_string_input_fails_only_when_too_long<H: ReadHandler>(p: &yaml_parser_t<H>)
    requires
        p.wf(),
        p.reader.input_source() is String,
        decode_input(p.reader.requested_encoding(), p.reader.input_source()->String_0.data()) is Some,
        p.decode_failed(),
    ensures
        p.problem == Some(ReaderProblem::InputTooLong),
        p.offset >= MAX_FILE_SIZE,
{
    if p.problem != Some(ReaderProblem::InputTooLong) {
        lemma_string_input_rejected(p);
    }
}

/// At all times the buffer holds the UTF-8 text of the characters that the
/// bytes decoded so far make, after the byte order mark, with a terminating
/// zero once all of the input is decoded; before the encoding is known,
/// nothing is decoded.
pub proof fn lemma_output_decodes_input<H: ReadHandler>(p: &yaml_parser_t<H>)
    requires
        p.wf(),
    ensures
        p.reader.current_encoding() == yaml_encoding_t::YAML_ANY_ENCODING ==> p.output()
            == Seq::<u8>::empty() && p.reader.decoded_len() == 0 && p.reader.unread_count() == 0,
        p.reader.current_encoding() != yaml_encoding_t::YAML_ANY_ENCODING ==> ({
            let (enc, bom) = input_encoding(p.reader.requested_encoding(), p.supplied());
            &&& enc == p.reader.current_encoding()
            &&& 0 <= bom <= p.reader.decoded_len() <= p.supplied().len()
            &&& decode_chars(enc, p.supplied().subrange(bom, p.reader.decoded_len())) matches Some(
                cs,
            ) && p.output() == encode_all(cs) + (if p.finished() {
                seq![0u8]
            } else {
                Seq::<u8>::empty()
            }) && p.reader.unread_count() == cs.len() + (if p.finished() {
                1int
            } else {
                0int
            })
        }),
{
    reveal(ReaderState::wf_core);
    let r = p.reader;
    if r.encoding == yaml_encoding_t::YAML_ANY_ENCODING {
        assert(r.buffer@ =~= Seq::<u8>::empty() + Seq::<u8>::empty());
    } else {
        let bl = r.bom@.len() as int;
        assert(r.supplied@.subrange(bl, r.supplied@.len() - r.pending().len()) =~= r.consumed@);
        if !r.finished() {
            assert(r.buffer@ =~= encode_all(r.chars@) + Seq::<u8>::empty());
        }
    }
}

/// At all times, a string input has supplied exactly its bytes up to its
/// position: a prefix of its data.
pub proof fn lemma_string_input_prefix<H: ReadHandler>(p: &yaml_parser_t<H>)
    requires
        p.wf(),
        p.reader.input_source() is String,
    ensures
        0 <= p.reader.input_source()->String_0.position()
            <= p.reader.input_source()->String_0.data().len(),
        p.supplied() == p.reader.input_source()->String_0.data().take(
            p.reader.input_source()->String_0.position(),
        ),
{
    reveal(ReaderState::wf_core);
}

/// Decoding does not depend on how the input came in chunks: two readers
/// that have read and decoded all of the same supplied bytes, with the same
/// requested encoding, hold the same buffer, whatever their inputs.
pub proof fn lemma_chunking_keeps_output<H1: ReadHandler, H2: ReadHandler>(p1: &yaml_parser_t<H1>, p2: &yaml_parser_t<H2>)
    requires
        p1.wf(),
        p2.wf(),
        p1.finished(),
        p2.finished(),
        p1.supplied() == p2.supplied(),
        p1.reader.requested_encoding() == p2.reader.requested_encoding(),
    ensures
        p1.output() == p2.output(),
{
    lemma_finished_output(p1);
    lemma_finished_output(p2);
    assert(p1.output() =~= p1.output().drop_last().push(0));
    assert(p2.output() =~= p2.output().drop_last().push(0));
}

/// Nor does rejection depend on chunking: where a string input stops the
/// reader on an undecodable character, no reader supplied the same bytes
/// in any chunks, with the same requested encoding, reads them all through.
pub proof fn lemma_chunking_keeps_rejection<H1: ReadHandler, H2: ReadHandler>(p1: &yaml_parser_t<H1>, p2: &yaml_parser_t<H2>)
    requires
        p1.wf(),
        p1.reader.input_source() is String,
        p1.pending().len() > 0,
        next_char(p1.reader.current_encoding(), p1.pending(), p1.reader.at_eof()) is Invalid,
        p2.wf(),
        p2.supplied() == p1.reader.input_source()->String_0.data(),
        p2.reader.requested_encoding() == p1.reader.requested_encoding(),
    ensures
        !p2.finished(),
{
    lemma_string_input_rejected(p1);
    if p2.finished() {
        lemma_finished_output(p2);
    }
}

/// At all times, a handler input has supplied exactly what the handler
/// handed out since it was set.
pub proof fn lemma_handler_supplied<H: ReadHandler>(p: &yaml_parser_t<H>)
    requires
        p.wf(),
        p.reader.input_source() is Handler,
    ensures
        p.reader.input_source()->Handler_0.handed_out() == p.reader.handler_origin()
            + p.supplied(),
{
    reveal(ReaderState::wf_core);
}

/// Once a handler input is read and decoded in full, the buffer holds the
/// UTF-8 text of what the bytes the handler handed out since it was set
/// decode to, then a terminating zero, however the handler cut them into
/// chunks.
pub proof fn lemma_handler_input_output<H: ReadHandler>(p: &yaml_parser_t<H>)
    requires
        p.wf(),
        p.finished(),
        p.reader.input_source() is Handler,
    ensures
        p.output().len() >= 1,
        p.output().last() == 0,
        decode_input(
            p.reader.requested_encoding(),
            p.reader.input_source()->Handler_0.handed_out().skip(
                p.reader.handler_origin().len() as int,
            ),
        ) == Some(p.output().drop_last()),
{
    lemma_handler_supplied(p);
    lemma_finished_output(p);
    assert((p.reader.handler_origin() + p.supplied()).skip(p.reader.handler_origin().len() as int)
        =~= p.supplied());
}

/// Nor does rejection of a handler input depend on chunking: where a handler
/// input stops the reader on an undecodable character, no reader supplied
/// what the handler handed out since it was set, followed by anything it may
/// hand out after (nothing once it reported its end), with the same
/// requested encoding, reads them all through.
pub proof fn lemma_handler_chunking_keeps_rejection<H1: ReadHandler, H2: ReadHandler>(
    p1: &yaml_parser_t<H1>,
    p2: &yaml_parser_t<H2>,
    rest: Seq<u8>,
)
    requires
        p1.wf(),
        p1.reader.input_source() is Handler,
        p1.pending().len() > 0,
        next_char(p1.reader.current_encoding(), p1.pending(), p1.reader.at_eof()) is Invalid,
        p1.reader.at_eof() ==> rest.len() == 0,
        p2.wf(),
        p2.supplied() == p1.reader.input_source()->Handler_0.handed_out().skip(
            p1.reader.handler_origin().len() as int,
        ) + rest,
        p2.reader.requested_encoding() == p1.reader.requested_encoding(),
    ensures
        !p2.finished(),
{
    lemma_handler_supplied(p1);
    assert((p1.reader.handler_origin() + p1.supplied()).skip(p1.reader.handler_origin().len() as int)
        =~= p1.supplied());
    lemma_undecodable_rejects(p1, rest);
    if p2.finished() {
        lemma_finished_output(p2);
    }
}

} // verus!
