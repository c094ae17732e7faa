//! Small line protocol for the USB CDC control port: the shape of a
//! command line, its error messages, line assembly and response buffers.

use vstd::prelude::*;
use vstd::string::StringSliceAdditionalSpecFns;
use vstd::utf8::{decode_utf8, valid_utf8};

verus! {

/// Why a command line was refused.
#[derive(Clone, Copy, Debug, PartialEq, Eq)]
pub enum ParseError {
    NotUtf8,
    Empty,
    UnknownCommand,
    MissingValue,
    ExtraArgument,
    InvalidValue,
    OutOfRange,
}

impl ParseError {
    /// The message sent back for the error.
    pub open spec fn spec_message(self) -> Seq<char> {
        match self {
            ParseError::NotUtf8 => "command must be UTF-8"@,
            ParseError::Empty => "empty command"@,
            ParseError::UnknownCommand => "unknown command"@,
            ParseError::MissingValue => "missing value"@,
            ParseError::ExtraArgument => "too many arguments"@,
            ParseError::InvalidValue => "invalid value"@,
            ParseError::OutOfRange => "value out of range"@,
        }
    }

    /// The message sent back for the error.
    pub fn message(self) -> (message: &'static str)
        ensures
            message@ == self.spec_message(),
    {
        match self {
            ParseError::NotUtf8 => "command must be UTF-8",
            ParseError::Empty => "empty command",
            ParseError::UnknownCommand => "unknown command",
            ParseError::MissingValue => "missing value",
            ParseError::ExtraArgument => "too many arguments",
            ParseError::InvalidValue => "invalid value",
            ParseError::OutOfRange => "value out of range",
        }
    }
}

/// The argument of `power`.
#[derive(Clone, Copy, Debug, PartialEq, Eq)]
pub enum PowerCommand {
    On,
    Off,
    Toggle,
}

/// Makes `core::fmt::Error`, the error of a `core::fmt::Write` sink, known
/// to the verifier as an opaque type.
#[verifier::external_type_specification]
#[verifier::external_body]
pub struct ExFmtError(core::fmt::Error);

/// The value `core::fmt::Error`, which a `core::fmt::Write` sink returns
/// when it cannot take more text. The type has no fields: the contract
/// claims nothing of the value.
#[verifier::external_body]
fn format_error() -> core::fmt::Error {
    core::fmt::Error
}

/// Fixed-capacity UTF-8 response buffer for USB packets.
pub struct ResponseBuffer<const N: usize> {
    bytes: Vec<u8>,
}

impl<const N: usize> View for ResponseBuffer<N> {
    type V = Seq<u8>;

    closed spec fn view(&self) -> Seq<u8> {
        self.bytes@
    }
}

impl<const N: usize> ResponseBuffer<N> {
    #[verifier::type_invariant]
    spec fn inv(&self) -> bool {
        self.bytes@.len() <= N
    }

    /// An empty buffer.
    pub fn new() -> (buffer: Self)
        ensures
            buffer@ == Seq::<u8>::empty(),
    {
        Self { bytes: Vec::new() }
    }

    /// Forgets what was written.
    pub fn clear(&mut self)
        ensures
            final(self)@ == Seq::<u8>::empty(),
    {
        self.bytes = Vec::new();
    }

    /// What was written since the buffer was made or cleared.
    pub fn as_bytes(&self) -> (bytes: &[u8])
        ensures
            bytes@ == self@,
            bytes@.len() <= N,
    {
        proof {
            use_type_invariant(self);
        }
        self.bytes.as_slice()
    }

    /// Appends the UTF-8 bytes of `value` if they fit; otherwise leaves the
    /// buffer as it was and fails.
    pub fn write_str(&mut self, value: &str) -> (result: Result<(), core::fmt::Error>)
        ensures
            old(self)@.len() + value.spec_bytes().len() <= N ==> result is Ok && final(self)@ == old(
                self,
            )@ + value.spec_bytes(),
            old(self)@.len() + value.spec_bytes().len() > N ==> result is Err && final(self)@ == old(
                self,
            )@,
    {
        proof {
            use_type_invariant(&*self);
        }
        let bytes = value.as_bytes();
        let end = match self.bytes.len().checked_add(bytes.len()) {
            Some(end) => end,
            None => return Err(format_error()),
        };
        if end > N {
            return Err(format_error());
        }
        let ghost start = self.bytes@;
        let mut buffer: Vec<u8> = Vec::new();
        core::mem::swap(&mut buffer, &mut self.bytes);
        let mut i: usize = 0;
        while i < bytes.len()
            invariant
                0 <= i <= bytes@.len(),
                bytes@ == value.spec_bytes(),
                start.len() + bytes@.len() <= N,
                buffer@ == start + bytes@.take(i as int),
            decreases bytes@.len() - i,
        {
            buffer.push(bytes[i]);
            proof {
                assert(bytes@.take(i + 1) =~= bytes@.take(i as int).push(bytes@[i as int]));
            }
            i = i + 1;
        }
        proof {
            assert(bytes@.take(bytes@.len() as int) =~= bytes@);
        }
        self.bytes = buffer;
        Ok(())
    }
}

impl<const N: usize> Default for ResponseBuffer<N> {
    fn default() -> (buffer: Self)
        ensures
            buffer@ == Seq::<u8>::empty(),
    {
        Self::new()
    }
}


/// The characters that carry the Unicode `White_Space` property, which
/// `str::trim` removes.
pub open spec fn is_white_space(c: char) -> bool {
    let v = c as u32;
    ||| 0x09 <= v <= 0x0d
    ||| v == 0x20
    ||| v == 0x85
    ||| v == 0xa0
    ||| v == 0x1680
    ||| 0x2000 <= v <= 0x200a
    ||| v == 0x2028
    ||| v == 0x2029
    ||| v == 0x202f
    ||| v == 0x205f
    ||| v == 0x3000
}

/// `s` without its leading white space.
pub open spec fn trim_start(s: Seq<char>) -> Seq<char>
    decreases s.len(),
{
    if s.len() > 0 && is_white_space(s[0]) {
        trim_start(s.drop_first())
    } else {
        s
    }
}

/// `s` without its trailing white space.
pub open spec fn trim_end(s: Seq<char>) -> Seq<char>
    decreases s.len(),
{
    if s.len() > 0 && is_white_space(s.last()) {
        trim_end(s.drop_last())
    } else {
        s
    }
}

/// `s` without its leading and trailing white space.
pub open spec fn trim_white_space(s: Seq<char>) -> Seq<char> {
    trim_end(trim_start(s))
}

/// Decodes `input` as UTF-8 with `core::str::from_utf8`, which succeeds
/// exactly on well-formed UTF-8 and then yields the encoded characters.
#[verifier::external_body]
fn text_of(input: &[u8]) -> (text: Option<&str>)
    ensures
        text is Some <==> valid_utf8(input@),
        text matches Some(t) ==> t@ == decode_utf8(input@),
{
    core::str::from_utf8(input).ok()
}

/// `str::trim`: the text without leading and trailing characters of the
/// Unicode `White_Space` property.
#[verifier::external_body]
fn trimmed(text: &str) -> (trimmed: &str)
    ensures
        trimmed@ == trim_white_space(text@),
{
    text.trim()
}

/// The bytes `u8::is_ascii_whitespace` accepts: space, tab, line feed,
/// form feed and carriage return.
pub open spec fn is_ascii_space(b: u8) -> bool {
    b == 0x20 || b == 0x09 || b == 0x0a || b == 0x0c || b == 0x0d
}

fn ascii_space(b: u8) -> (space: bool)
    ensures
        space == is_ascii_space(b),
{
    b == 0x20 || b == 0x09 || b == 0x0a || b == 0x0c || b == 0x0d
}

/// The words of `rest`, the first of them prefixed by `current`: the
/// maximal runs of bytes other than ASCII white space.
pub open spec fn words_from(rest: Seq<u8>, current: Seq<u8>) -> Seq<Seq<u8>>
    decreases rest.len(),
{
    if rest.len() == 0 {
        if current.len() > 0 {
            seq![current]
        } else {
            Seq::empty()
        }
    } else if is_ascii_space(rest[0]) {
        let later = words_from(rest.drop_first(), Seq::empty());
        if current.len() > 0 {
            seq![current] + later
        } else {
            later
        }
    } else {
        words_from(rest.drop_first(), current.push(rest[0]))
    }
}

/// The words of `bytes`, as `str::split_ascii_whitespace` yields them.
pub open spec fn ascii_words(bytes: Seq<u8>) -> Seq<Seq<u8>> {
    words_from(bytes, Seq::empty())
}

fn split_words(bytes: &[u8]) -> (words: Vec<Vec<u8>>)
    ensures
        words.deep_view() == ascii_words(bytes@),
{
    let mut words: Vec<Vec<u8>> = Vec::new();
    let mut current: Vec<u8> = Vec::new();
    let n = bytes.len();
    let mut i: usize = 0;
    proof {
        assert(bytes@.subrange(0, n as int) =~= bytes@);
        assert(words.deep_view() =~= Seq::<Seq<u8>>::empty());
        assert(words.deep_view() + ascii_words(bytes@) =~= ascii_words(bytes@));
    }
    while i < n
        invariant
            0 <= i <= n,
            n == bytes@.len(),
            ascii_words(bytes@) == words.deep_view() + words_from(bytes@.subrange(i as int, n as int), current@),
        decreases n - i,
    {
        let ghost rest = bytes@.subrange(i as int, n as int);
        assert(rest.drop_first() =~= bytes@.subrange(i + 1, n as int));
        assert(rest[0] == bytes@[i as int]);
        let b = bytes[i];
        if ascii_space(b) {
            if current.len() > 0 {
                let ghost before = words.deep_view();
                let ghost word = current@;
                assert(current.deep_view() =~= word);
                words.push(current);
                current = Vec::new();
                proof {
                    assert(words.deep_view() =~= before.push(word));
                    assert(before + (seq![word] + words_from(bytes@.subrange(i + 1, n as int), Seq::empty()))
                        =~= before.push(word) + words_from(bytes@.subrange(i + 1, n as int), Seq::empty()));
                }
            } else {
                proof {
                    assert(current@ =~= Seq::<u8>::empty());
                }
            }
        } else {
            current.push(b);
        }
        i = i + 1;
    }
    proof {
        assert(bytes@.subrange(n as int, n as int) =~= Seq::<u8>::empty());
    }
    if current.len() > 0 {
        let ghost before = words.deep_view();
        let ghost word = current@;
        assert(current.deep_view() =~= word);
        words.push(current);
        proof {
            assert(words.deep_view() =~= before.push(word));
            assert(before + seq![word] =~= before.push(word));
        }
    } else {
        proof {
            assert(words.deep_view() + Seq::<Seq<u8>>::empty() =~= words.deep_view());
        }
    }
    words
}


/// `b` with an ASCII capital letter turned into lower case.
pub open spec fn ascii_lower(b: u8) -> u8 {
    if 0x41 <= b <= 0x5a {
        (b + 0x20) as u8
    } else {
        b
    }
}

/// Whether `word` equals `keyword` ignoring ASCII case, as
/// `str::eq_ignore_ascii_case` compares them.
pub open spec fn same_ignoring_case(word: Seq<u8>, keyword: Seq<u8>) -> bool {
    &&& word.len() == keyword.len()
    &&& forall|i: int| 0 <= i < word.len() ==> #[trigger] ascii_lower(word[i]) == ascii_lower(keyword[i])
}

fn lower(b: u8) -> (l: u8)
    ensures
        l == ascii_lower(b),
{
    if 0x41 <= b && b <= 0x5a {
        b + 0x20
    } else {
        b
    }
}

fn is_keyword(word: &[u8], keyword: &[u8]) -> (matches: bool)
    ensures
        matches == same_ignoring_case(word@, keyword@),
{
    if word.len() != keyword.len() {
        return false;
    }
    let mut i: usize = 0;
    while i < word.len()
        invariant
            0 <= i <= word@.len(),
            word@.len() == keyword@.len(),
            forall|j: int| 0 <= j < i ==> #[trigger] ascii_lower(word@[j]) == ascii_lower(keyword@[j]),
        decreases word@.len() - i,
    {
        if lower(word[i]) != lower(keyword[i]) {
            return false;
        }
        i = i + 1;
    }
    true
}

pub open spec fn kw_help() -> Seq<u8> {
    seq!['h' as u8, 'e' as u8, 'l' as u8, 'p' as u8]
}

pub open spec fn kw_get() -> Seq<u8> {
    seq!['g' as u8, 'e' as u8, 't' as u8]
}

pub open spec fn kw_color() -> Seq<u8> {
    seq!['c' as u8, 'o' as u8, 'l' as u8, 'o' as u8, 'r' as u8]
}

pub open spec fn kw_hpf() -> Seq<u8> {
    seq!['h' as u8, 'p' as u8, 'f' as u8]
}

pub open spec fn kw_lpf() -> Seq<u8> {
    seq!['l' as u8, 'p' as u8, 'f' as u8]
}

pub open spec fn kw_volume() -> Seq<u8> {
    seq!['v' as u8, 'o' as u8, 'l' as u8, 'u' as u8, 'm' as u8, 'e' as u8]
}

pub open spec fn kw_vol() -> Seq<u8> {
    seq!['v' as u8, 'o' as u8, 'l' as u8]
}

pub open spec fn kw_power() -> Seq<u8> {
    seq!['p' as u8, 'o' as u8, 'w' as u8, 'e' as u8, 'r' as u8]
}

pub open spec fn kw_white() -> Seq<u8> {
    seq!['w' as u8, 'h' as u8, 'i' as u8, 't' as u8, 'e' as u8]
}

pub open spec fn kw_pink() -> Seq<u8> {
    seq!['p' as u8, 'i' as u8, 'n' as u8, 'k' as u8]
}

pub open spec fn kw_brown() -> Seq<u8> {
    seq!['b' as u8, 'r' as u8, 'o' as u8, 'w' as u8, 'n' as u8]
}

pub open spec fn kw_off() -> Seq<u8> {
    seq!['o' as u8, 'f' as u8, 'f' as u8]
}

pub open spec fn kw_on() -> Seq<u8> {
    seq!['o' as u8, 'n' as u8]
}

pub open spec fn kw_toggle() -> Seq<u8> {
    seq!['t' as u8, 'o' as u8, 'g' as u8, 'g' as u8, 'l' as u8, 'e' as u8]
}

/// The argument of `color`: a named color, or the text of a number for the
/// caller to read.
#[derive(Clone, Debug, PartialEq)]
pub enum ColorValue<T> {
    White,
    Pink,
    Brown,
    Number(T),
}

/// The argument of `hpf` and `lpf`: `off`, or the text of a number.
#[derive(Clone, Debug, PartialEq)]
pub enum CutoffValue<T> {
    Off,
    Number(T),
}

/// A well-formed command line. Numbers stay as the text of their word
/// (`T` is `Vec<u8>`, or `Seq<u8>` in specifications); reading them and
/// checking their range is the caller's part.
#[derive(Clone, Debug, PartialEq)]
pub enum Command<T> {
    Help,
    Get,
    Color(ColorValue<T>),
    HighPass(CutoffValue<T>),
    LowPass(CutoffValue<T>),
    /// Percent of full-scale gain, as text.
    Volume(T),
    Power(PowerCommand),
}

impl View for ColorValue<Vec<u8>> {
    type V = ColorValue<Seq<u8>>;

    open spec fn view(&self) -> ColorValue<Seq<u8>> {
        match self {
            ColorValue::White => ColorValue::White,
            ColorValue::Pink => ColorValue::Pink,
            ColorValue::Brown => ColorValue::Brown,
            ColorValue::Number(text) => ColorValue::Number(text@),
        }
    }
}

impl View for CutoffValue<Vec<u8>> {
    type V = CutoffValue<Seq<u8>>;

    open spec fn view(&self) -> CutoffValue<Seq<u8>> {
        match self {
            CutoffValue::Off => CutoffValue::Off,
            CutoffValue::Number(text) => CutoffValue::Number(text@),
        }
    }
}

impl View for Command<Vec<u8>> {
    type V = Command<Seq<u8>>;

    open spec fn view(&self) -> Command<Seq<u8>> {
        match self {
            Command::Help => Command::Help,
            Command::Get => Command::Get,
            Command::Color(value) => Command::Color(value@),
            Command::HighPass(value) => Command::HighPass(value@),
            Command::LowPass(value) => Command::LowPass(value@),
            Command::Volume(text) => Command::Volume(text@),
            Command::Power(power) => Command::Power(*power),
        }
    }
}

/// The argument of `color`.
pub open spec fn color_value(word: Seq<u8>) -> ColorValue<Seq<u8>> {
    if same_ignoring_case(word, kw_white()) {
        ColorValue::White
    } else if same_ignoring_case(word, kw_pink()) {
        ColorValue::Pink
    } else if same_ignoring_case(word, kw_brown()) {
        ColorValue::Brown
    } else {
        ColorValue::Number(word)
    }
}

/// The argument of `hpf` and `lpf`.
pub open spec fn cutoff_value(word: Seq<u8>) -> CutoffValue<Seq<u8>> {
    if same_ignoring_case(word, kw_off()) {
        CutoffValue::Off
    } else {
        CutoffValue::Number(word)
    }
}

/// The command the words of a line form. `help` and `get` take no
/// argument and every other command exactly one; names and named values
/// are matched ignoring ASCII case.
pub open spec fn command_of_words(words: Seq<Seq<u8>>) -> Result<Command<Seq<u8>>, ParseError> {
    if words.len() == 0 {
        Err(ParseError::Empty)
    } else if same_ignoring_case(words[0], kw_help()) {
        if words.len() > 1 {
            Err(ParseError::ExtraArgument)
        } else {
            Ok(Command::Help)
        }
    } else if same_ignoring_case(words[0], kw_get()) {
        if words.len() > 1 {
            Err(ParseError::ExtraArgument)
        } else {
            Ok(Command::Get)
        }
    } else if words.len() < 2 {
        Err(ParseError::MissingValue)
    } else if words.len() > 2 {
        Err(ParseError::ExtraArgument)
    } else if same_ignoring_case(words[0], kw_color()) {
        Ok(Command::Color(color_value(words[1])))
    } else if same_ignoring_case(words[0], kw_hpf()) {
        Ok(Command::HighPass(cutoff_value(words[1])))
    } else if same_ignoring_case(words[0], kw_lpf()) {
        Ok(Command::LowPass(cutoff_value(words[1])))
    } else if same_ignoring_case(words[0], kw_volume()) || same_ignoring_case(words[0], kw_vol()) {
        Ok(Command::Volume(words[1]))
    } else if same_ignoring_case(words[0], kw_power()) {
        if same_ignoring_case(words[1], kw_on()) {
            Ok(Command::Power(PowerCommand::On))
        } else if same_ignoring_case(words[1], kw_off()) {
            Ok(Command::Power(PowerCommand::Off))
        } else if same_ignoring_case(words[1], kw_toggle()) {
            Ok(Command::Power(PowerCommand::Toggle))
        } else {
            Err(ParseError::InvalidValue)
        }
    } else {
        Err(ParseError::UnknownCommand)
    }
}

/// The words of a line: its UTF-8 text without surrounding white space,
/// split at ASCII white space.
pub open spec fn line_words(input: Seq<u8>) -> Seq<Seq<u8>> {
    ascii_words(vstd::utf8::encode_utf8(trim_white_space(decode_utf8(input))))
}

/// What `parse_line` makes of `input`.
pub open spec fn parse_spec(input: Seq<u8>) -> Result<Command<Seq<u8>>, ParseError> {
    if !valid_utf8(input) {
        Err(ParseError::NotUtf8)
    } else {
        command_of_words(line_words(input))
    }
}

/// Whether the result of `parse_line` is `expected`.
pub open spec fn parsed_as(
    result: Result<Command<Vec<u8>>, ParseError>,
    expected: Result<Command<Seq<u8>>, ParseError>,
) -> bool {
    match (result, expected) {
        (Ok(command), Ok(spec_command)) => command@ == spec_command,
        (Err(error), Err(spec_error)) => error == spec_error,
        _ => false,
    }
}

fn copy_word(word: &Vec<u8>) -> (copy: Vec<u8>)
    ensures
        copy@ == word@,
{
    let mut copy: Vec<u8> = Vec::new();
    let mut i: usize = 0;
    while i < word.len()
        invariant
            0 <= i <= word@.len(),
            copy@ == word@.take(i as int),
        decreases word@.len() - i,
    {
        copy.push(word[i]);
        proof {
            assert(word@.take(i + 1) =~= word@.take(i as int).push(word@[i as int]));
        }
        i = i + 1;
    }
    proof {
        assert(word@.take(word@.len() as int) =~= word@);
    }
    copy
}

fn require_end(words: &Vec<Vec<u8>>, count: usize) -> (result: Result<(), ParseError>)
    ensures
        result is Ok <==> words@.len() <= count,
        result matches Err(e) ==> e == ParseError::ExtraArgument,
{
    if words.len() > count {
        Err(ParseError::ExtraArgument)
    } else {
        Ok(())
    }
}

/// Parse one newline-delimited command. A trailing CR/LF is optional.
pub fn parse_line(input: &[u8]) -> (result: Result<Command<Vec<u8>>, ParseError>)
    ensures
        parsed_as(result, parse_spec(input@)),
{
    let text = match text_of(input) {
        Some(text) => text,
        None => return Err(ParseError::NotUtf8),
    };
    let line = trimmed(text);
    let words = split_words(line.as_bytes());
    let ghost w = words.deep_view();
    proof {
        assert(forall|i: int| 0 <= i < words@.len() ==> #[trigger] words@[i]@ == w[i]);
    }
    if words.len() == 0 {
        return Err(ParseError::Empty);
    }
    let name = words[0].as_slice();
    if is_keyword(name, &['h' as u8, 'e' as u8, 'l' as u8, 'p' as u8]) {
        require_end(&words, 1)?;
        return Ok(Command::Help);
    }
    if is_keyword(name, &['g' as u8, 'e' as u8, 't' as u8]) {
        require_end(&words, 1)?;
        return Ok(Command::Get);
    }
    if words.len() < 2 {
        return Err(ParseError::MissingValue);
    }
    require_end(&words, 2)?;
    let value = words[1].as_slice();

    if is_keyword(name, &['c' as u8, 'o' as u8, 'l' as u8, 'o' as u8, 'r' as u8]) {
        let color = if is_keyword(value, &['w' as u8, 'h' as u8, 'i' as u8, 't' as u8, 'e' as u8]) {
            ColorValue::White
        } else if is_keyword(value, &['p' as u8, 'i' as u8, 'n' as u8, 'k' as u8]) {
            ColorValue::Pink
        } else if is_keyword(value, &['b' as u8, 'r' as u8, 'o' as u8, 'w' as u8, 'n' as u8]) {
            ColorValue::Brown
        } else {
            ColorValue::Number(copy_word(&words[1]))
        };
        return Ok(Command::Color(color));
    }
    let is_high_pass = is_keyword(name, &['h' as u8, 'p' as u8, 'f' as u8]);
    if is_high_pass || is_keyword(name, &['l' as u8, 'p' as u8, 'f' as u8]) {
        let cutoff = if is_keyword(value, &['o' as u8, 'f' as u8, 'f' as u8]) {
            CutoffValue::Off
        } else {
            CutoffValue::Number(copy_word(&words[1]))
        };
        return Ok(if is_high_pass { Command::HighPass(cutoff) } else { Command::LowPass(cutoff) });
    }
    if is_keyword(name, &['v' as u8, 'o' as u8, 'l' as u8, 'u' as u8, 'm' as u8, 'e' as u8]) || is_keyword(name, &['v' as u8, 'o' as u8, 'l' as u8]) {
        return Ok(Command::Volume(copy_word(&words[1])));
    }
    if is_keyword(name, &['p' as u8, 'o' as u8, 'w' as u8, 'e' as u8, 'r' as u8]) {
        let power = if is_keyword(value, &['o' as u8, 'n' as u8]) {
            PowerCommand::On
        } else if is_keyword(value, &['o' as u8, 'f' as u8, 'f' as u8]) {
            PowerCommand::Off
        } else if is_keyword(value, &['t' as u8, 'o' as u8, 'g' as u8, 'g' as u8, 'l' as u8, 'e' as u8]) {
            PowerCommand::Toggle
        } else {
            return Err(ParseError::InvalidValue);
        };
        return Ok(Command::Power(power));
    }

    Err(ParseError::UnknownCommand)
}


/// Longest command line the control port takes, in bytes.
pub const LINE_CAPACITY: usize = 64;

/// What one received byte completes.
#[derive(Clone, Debug, PartialEq)]
pub enum LineEvent<T> {
    /// The line goes on.
    Pending,
    /// A newline ended a line that fit; its bytes, without the newline.
    Line(T),
    /// A newline ended a line longer than `LINE_CAPACITY` bytes.
    TooLong,
}

impl View for LineEvent<Vec<u8>> {
    type V = LineEvent<Seq<u8>>;

    open spec fn view(&self) -> LineEvent<Seq<u8>> {
        match self {
            LineEvent::Pending => LineEvent::Pending,
            LineEvent::Line(bytes) => LineEvent::Line(bytes@),
            LineEvent::TooLong => LineEvent::TooLong,
        }
    }
}

/// The partial line held between bytes.
pub struct LineState {
    /// The bytes kept so far.
    pub line: Seq<u8>,
    /// Whether bytes were dropped because the line was full.
    pub overflowed: bool,
}

/// Before the first byte, and after each newline.
pub open spec fn empty_line() -> LineState {
    LineState { line: Seq::empty(), overflowed: false }
}

/// One received byte.
pub open spec fn line_step(s: LineState, byte: u8) -> (LineState, LineEvent<Seq<u8>>) {
    if byte == 0x0a {
        (empty_line(), if s.overflowed { LineEvent::TooLong } else { LineEvent::Line(s.line) })
    } else if s.line.len() < LINE_CAPACITY {
        (LineState { line: s.line.push(byte), ..s }, LineEvent::Pending)
    } else {
        (LineState { overflowed: true, ..s }, LineEvent::Pending)
    }
}

/// Feeds bytes in turn.
pub open spec fn line_run(s: LineState, bytes: Seq<u8>) -> LineState
    decreases bytes.len(),
{
    if bytes.len() == 0 {
        s
    } else {
        line_run(line_step(s, bytes[0]).0, bytes.drop_first())
    }
}

/// Splits the byte stream of the control port into command lines.
pub struct LineAssembler {
    line: Vec<u8>,
    overflowed: bool,
}

impl View for LineAssembler {
    type V = LineState;

    closed spec fn view(&self) -> LineState {
        LineState { line: self.line@, overflowed: self.overflowed }
    }
}

impl LineAssembler {
    #[verifier::type_invariant]
    spec fn inv(&self) -> bool {
        self.line@.len() <= LINE_CAPACITY
    }

    /// Nothing received yet.
    pub fn new() -> (assembler: Self)
        ensures
            assembler@ == empty_line(),
    {
        Self { line: Vec::new(), overflowed: false }
    }

    /// Takes one received byte.
    pub fn push(&mut self, byte: u8) -> (event: LineEvent<Vec<u8>>)
        ensures
            (final(self)@, event@) == line_step(old(self)@, byte),
    {
        proof {
            use_type_invariant(&*self);
        }
        if byte == 0x0a {
            let mut line: Vec<u8> = Vec::new();
            core::mem::swap(&mut line, &mut self.line);
            let overflowed = self.overflowed;
            self.overflowed = false;
            if overflowed {
                LineEvent::TooLong
            } else {
                LineEvent::Line(line)
            }
        } else if self.line.len() < LINE_CAPACITY {
            let mut line: Vec<u8> = Vec::new();
            core::mem::swap(&mut line, &mut self.line);
            line.push(byte);
            self.line = line;
            LineEvent::Pending
        } else {
            self.overflowed = true;
            LineEvent::Pending
        }
    }
}

proof fn lemma_line_run_body(s: LineState, body: Seq<u8>)
    requires
        !s.overflowed,
        forall|i: int| 0 <= i < body.len() ==> #[trigger] body[i] != 0x0a,
    ensures
        s.line.len() + body.len() <= LINE_CAPACITY ==> line_run(s, body) == (LineState {
            line: s.line + body,
            overflowed: false,
        }),
        s.line.len() <= LINE_CAPACITY && s.line.len() + body.len() > LINE_CAPACITY ==> line_run(
            s,
            body,
        ).overflowed,
    decreases body.len(),
{
    if body.len() > 0 {
        let t = line_step(s, body[0]).0;
        assert(body[0] != 0x0a);
        let rest = body.drop_first();
        assert(forall|i: int| 0 <= i < rest.len() ==> #[trigger] rest[i] == body[i + 1]);
        if s.line.len() < LINE_CAPACITY {
            lemma_line_run_body(t, rest);
            assert(s.line.push(body[0]) + rest =~= s.line + body);
        } else {
            lemma_line_run_overflowed(t, rest);
        }
    } else {
        assert(s.line + body =~= s.line);
    }
}

proof fn lemma_line_run_overflowed(s: LineState, body: Seq<u8>)
    requires
        s.overflowed,
        forall|i: int| 0 <= i < body.len() ==> #[trigger] body[i] != 0x0a,
    ensures
        line_run(s, body).overflowed,
    decreases body.len(),
{
    if body.len() > 0 {
        let rest = body.drop_first();
        assert(body[0] != 0x0a);
        assert(forall|i: int| 0 <= i < rest.len() ==> #[trigger] rest[i] == body[i + 1]);
        lemma_line_run_overflowed(line_step(s, body[0]).0, rest);
    }
}

/// Line assembly: after a newline, the bytes of the next line up to its
/// own newline come out as that line when they fit in `LINE_CAPACITY`
/// bytes, and as `TooLong` otherwise.
pub proof fn lemma_lines_are_delivered(body: Seq<u8>)
    requires
        forall|i: int| 0 <= i < body.len() ==> #[trigger] body[i] != 0x0a,
    ensures
        body.len() <= LINE_CAPACITY ==> line_step(line_run(empty_line(), body), 0x0a).1
            == LineEvent::Line(body),
        body.len() > LINE_CAPACITY ==> line_step(line_run(empty_line(), body), 0x0a).1
            == LineEvent::<Seq<u8>>::TooLong,
        line_step(line_run(empty_line(), body), 0x0a).0 == empty_line(),
{
    lemma_line_run_body(empty_line(), body);
    assert(Seq::<u8>::empty() + body =~= body);
}


/// Whether every byte of `bytes` is ASCII white space of the kind `trim`
/// removes: tab, line feed, vertical tab, form feed, carriage return or
/// space.
pub open spec fn all_ascii_blank(bytes: Seq<u8>) -> bool {
    forall|i: int| 0 <= i < bytes.len() ==> (0x09 <= #[trigger] bytes[i] <= 0x0d || bytes[i] == 0x20)
}

proof fn lemma_blank_bytes_decode(t: Seq<u8>)
    requires
        all_ascii_blank(t),
    ensures
        valid_utf8(t),
        decode_utf8(t).len() == t.len(),
        forall|i: int| 0 <= i < t.len() ==> is_white_space(#[trigger] decode_utf8(t)[i]),
    decreases t.len(),
{
    if t.len() > 0 {
        let rest = t.drop_first();
        assert(all_ascii_blank(rest)) by {
            assert forall|i: int| 0 <= i < rest.len() implies (0x09 <= #[trigger] rest[i] <= 0x0d
                || rest[i] == 0x20) by {
                assert(rest[i] == t[i + 1]);
            }
        }
        lemma_blank_bytes_decode(rest);
        assert(0x09 <= t[0] <= 0x0d || t[0] == 0x20);
        assert(vstd::utf8::pop_first_scalar(t) =~= rest);
        let c = vstd::utf8::decode_first_scalar(t);
        let b = t[0];
        assert(b <= 0x7f ==> (b & 0x7f) as u32 == b as u32) by (bit_vector);
        assert(c == t[0] as u32);
        vstd::utf8::char_u32_cast(c as char, c);
        assert forall|i: int| 0 <= i < t.len() implies is_white_space(#[trigger] decode_utf8(t)[i]) by {
            if i > 0 {
                assert(decode_utf8(t)[i] == decode_utf8(rest)[i - 1]);
            }
        }
    }
}

proof fn lemma_trim_start_append(x: Seq<char>, y: Seq<char>)
    requires
        forall|i: int| 0 <= i < y.len() ==> is_white_space(#[trigger] y[i]),
    ensures
        trim_start(x + y) == (if trim_start(x).len() > 0 {
            trim_start(x) + y
        } else {
            Seq::<char>::empty()
        }),
    decreases x.len() + y.len(),
{
    if x.len() == 0 {
        assert(x + y =~= y);
        if y.len() > 0 {
            let rest = y.drop_first();
            assert(forall|i: int| 0 <= i < rest.len() ==> #[trigger] rest[i] == y[i + 1]);
            assert(is_white_space(y[0]));
            lemma_trim_start_append(x, rest);
            assert(x + rest =~= rest);
        }
    } else if is_white_space(x[0]) {
        assert((x + y).drop_first() =~= x.drop_first() + y);
        assert((x + y)[0] == x[0]);
        lemma_trim_start_append(x.drop_first(), y);
    } else {
        assert((x + y)[0] == x[0]);
    }
}

proof fn lemma_trim_end_append(z: Seq<char>, y: Seq<char>)
    requires
        forall|i: int| 0 <= i < y.len() ==> is_white_space(#[trigger] y[i]),
    ensures
        trim_end(z + y) == trim_end(z),
    decreases y.len(),
{
    if y.len() == 0 {
        assert(z + y =~= z);
    } else {
        let init = y.drop_last();
        assert(forall|i: int| 0 <= i < init.len() ==> #[trigger] init[i] == y[i]);
        assert((z + y).last() == y.last());
        assert(is_white_space(y[y.len() - 1]));
        assert((z + y).drop_last() =~= z + init);
        lemma_trim_end_append(z, init);
    }
}

/// A trailing CR/LF is optional: ASCII white space after a line never
/// changes how it parses.
pub proof fn lemma_trailing_blanks_are_ignored(line: Seq<u8>, blanks: Seq<u8>)
    requires
        all_ascii_blank(blanks),
    ensures
        parse_spec(line + blanks) == parse_spec(line),
{
    lemma_blank_bytes_decode(blanks);
    let whole = line + blanks;
    if valid_utf8(line) {
        vstd::utf8::valid_utf8_concat(line, blanks);
        assert(whole.subrange(0, line.len() as int) =~= line);
        assert(whole.subrange(line.len() as int, whole.len() as int) =~= blanks);
        if blanks.len() > 0 {
            assert(whole[line.len() as int] == blanks[0]);
            vstd::utf8::is_char_boundary_iff_not_is_continuation_byte(whole, line.len() as int);
        } else {
            assert(whole =~= line);
        }
        if blanks.len() > 0 {
            vstd::utf8::decode_utf8_split(whole, line.len() as int);
        }
        assert(decode_utf8(whole) =~= decode_utf8(line) + decode_utf8(blanks));
        let x = decode_utf8(line);
        let y = decode_utf8(blanks);
        lemma_trim_start_append(x, y);
        if trim_start(x).len() > 0 {
            lemma_trim_end_append(trim_start(x), y);
        } else {
            assert(trim_start(x) =~= Seq::<char>::empty());
        }
        assert(trim_white_space(x + y) == trim_white_space(x));
    } else {
        if valid_utf8(whole) {
            if blanks.len() > 0 {
                assert(whole[line.len() as int] == blanks[0]);
                vstd::utf8::is_char_boundary_iff_not_is_continuation_byte(whole, line.len() as int);
                vstd::utf8::valid_utf8_split(whole, line.len() as int);
                assert(whole.subrange(0, line.len() as int) =~= line);
            } else {
                assert(whole =~= line);
            }
        }
    }
}

/// `hpf` and `lpf` read their argument alike: a line naming one filter and
/// a value parses as that filter's command exactly when the line naming
/// the other filter with the same value parses as the other's, with the
/// same argument. The value `off`, in any ASCII case, switches the filter
/// off; any other value is handed on as the text of a number.
pub proof fn lemma_filters_read_alike(high: Seq<u8>, low: Seq<u8>)
    requires
        valid_utf8(high),
        valid_utf8(low),
        line_words(high).len() == 2,
        line_words(low).len() == 2,
        same_ignoring_case(line_words(high)[0], kw_hpf()),
        same_ignoring_case(line_words(low)[0], kw_lpf()),
        line_words(high)[1] == line_words(low)[1],
    ensures
        forall|x: CutoffValue<Seq<u8>>|
            parse_spec(low) == Ok::<Command<Seq<u8>>, ParseError>(Command::LowPass(x)) <==> parse_spec(
                high,
            ) == Ok::<Command<Seq<u8>>, ParseError>(Command::HighPass(x)),
        same_ignoring_case(line_words(low)[1], kw_off()) ==> parse_spec(low) == Ok::<
            Command<Seq<u8>>,
            ParseError,
        >(Command::LowPass(CutoffValue::Off)),
        !same_ignoring_case(line_words(low)[1], kw_off()) ==> parse_spec(low) == Ok::<
            Command<Seq<u8>>,
            ParseError,
        >(Command::LowPass(CutoffValue::Number(line_words(low)[1]))),
{
    let h = line_words(high)[0];
    let l = line_words(low)[0];
    assert(ascii_lower(h[0]) == ascii_lower(kw_hpf()[0]));
    assert(ascii_lower(l[0]) == ascii_lower(kw_lpf()[0]));
    assert(ascii_lower(l[1]) == ascii_lower(kw_lpf()[1]));
    assert(!same_ignoring_case(h, kw_help()));
    assert(!same_ignoring_case(h, kw_get()) ) by {
        assert(ascii_lower(kw_get()[0]) != ascii_lower(kw_hpf()[0]));
    }
    assert(!same_ignoring_case(h, kw_color()));
    assert(!same_ignoring_case(l, kw_help()));
    assert(!same_ignoring_case(l, kw_get())) by {
        assert(ascii_lower(kw_get()[0]) != ascii_lower(kw_lpf()[0]));
    }
    assert(!same_ignoring_case(l, kw_color()));
    assert(!same_ignoring_case(l, kw_hpf())) by {
        assert(ascii_lower(kw_hpf()[0]) != ascii_lower(kw_lpf()[0]));
    }
}

} // verus!
