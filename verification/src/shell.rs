//! The command tokenizer: splits a command line into arguments with
//! shell-like quoting and backslash escapes.

use vstd::prelude::*;
use vstd::string::*;
use vstd::utf8::*;
use crate::text::{is_ascii_ws, is_space, lemma_cut_valid, utf8_str};

verus! {

/// Why a command line could not be split into arguments.
#[derive(Clone, Copy, Debug, PartialEq, Eq)]
pub enum TokenError {
    /// The input ends right after a backslash.
    DanglingBackslash,
    /// A single or double quote is never closed.
    UnclosedQuote,
    /// An argument is not well-formed UTF-8.
    InvalidUtf8,
}

impl TokenError {
    /// The text that describes the error.
    pub open spec fn message_spec(self) -> Seq<char> {
        match self {
            TokenError::DanglingBackslash => "dangling backslash at end of input"@,
            TokenError::UnclosedQuote => "unclosed quote"@,
            TokenError::InvalidUtf8 => "invalid utf-8 in token"@,
        }
    }

    /// The text that describes the error.
    pub fn message(&self) -> (r: &'static str)
        ensures
            r@ == self.message_spec(),
    {
        match self {
            TokenError::DanglingBackslash => "dangling backslash at end of input",
            TokenError::UnclosedQuote => "unclosed quote",
            TokenError::InvalidUtf8 => "invalid utf-8 in token",
        }
    }
}

/// Where the tokenizer stands between two bytes.
#[derive(Clone, Copy, Debug, PartialEq, Eq)]
pub enum LexMode {
    /// Outside any quotes.
    Unquoted,
    /// Inside single quotes: every byte but the closing quote is literal.
    SingleQuoted,
    /// Inside double quotes: a backslash escapes, a double quote closes.
    DoubleQuoted,
    /// Right after a backslash, which stood inside double quotes if `quoted`.
    Escaping { quoted: bool },
}

/// The tokenizer's state: its mode, the bytes of the argument being read,
/// and the arguments completed so far.
pub struct LexState {
    pub mode: LexMode,
    pub token: Seq<u8>,
    pub args: Seq<Seq<char>>,
}

/// The byte that a backslash followed by `b` stands for.
pub open spec fn unescape(b: u8) -> u8 {
    if b == 0x6E {
        0x0A
    } else if b == 0x74 {
        0x09
    } else if b == 0x72 {
        0x0D
    } else {
        b
    }
}

/// Ends the argument being read: an empty one is dropped, a well-formed one
/// joins the arguments, anything else is an error.
pub open spec fn flush(st: LexState) -> Result<LexState, TokenError> {
    if st.token.len() == 0 {
        Ok(st)
    } else if valid_utf8(st.token) {
        Ok(LexState { mode: st.mode, token: Seq::empty(), args: st.args.push(decode_utf8(st.token)) })
    } else {
        Err(TokenError::InvalidUtf8)
    }
}

/// One transition of the tokenizer on the byte `b`.
pub open spec fn lex_step(st: LexState, b: u8) -> Result<LexState, TokenError> {
    match st.mode {
        LexMode::Escaping { quoted } => Ok(
            LexState {
                mode: if quoted {
                    LexMode::DoubleQuoted
                } else {
                    LexMode::Unquoted
                },
                token: st.token.push(unescape(b)),
                args: st.args,
            },
        ),
        LexMode::SingleQuoted => if b == 0x27 {
            Ok(LexState { mode: LexMode::Unquoted, ..st })
        } else {
            Ok(LexState { token: st.token.push(b), ..st })
        },
        LexMode::DoubleQuoted => if b == 0x22 {
            Ok(LexState { mode: LexMode::Unquoted, ..st })
        } else if b == 0x5C {
            Ok(LexState { mode: LexMode::Escaping { quoted: true }, ..st })
        } else {
            Ok(LexState { token: st.token.push(b), ..st })
        },
        LexMode::Unquoted => if b == 0x5C {
            Ok(LexState { mode: LexMode::Escaping { quoted: false }, ..st })
        } else if b == 0x27 {
            Ok(LexState { mode: LexMode::SingleQuoted, ..st })
        } else if b == 0x22 {
            Ok(LexState { mode: LexMode::DoubleQuoted, ..st })
        } else if is_space(b) {
            flush(st)
        } else {
            Ok(LexState { token: st.token.push(b), ..st })
        },
    }
}

/// What the tokenizer returns when the input ends in state `st`.
pub open spec fn lex_finish(st: LexState) -> Result<Seq<Seq<char>>, TokenError> {
    match st.mode {
        LexMode::Escaping { .. } => Err(TokenError::DanglingBackslash),
        LexMode::SingleQuoted | LexMode::DoubleQuoted => Err(TokenError::UnclosedQuote),
        LexMode::Unquoted => match flush(st) {
            Ok(end) => Ok(end.args),
            Err(e) => Err(e),
        },
    }
}

/// Runs the tokenizer from state `st` over `bytes[i..]`.
pub open spec fn lex_from(bytes: Seq<u8>, i: int, st: LexState) -> Result<
    Seq<Seq<char>>,
    TokenError,
>
    decreases bytes.len() - i,
{
    if i >= bytes.len() {
        lex_finish(st)
    } else {
        match lex_step(st, bytes[i]) {
            Ok(next) => lex_from(bytes, i + 1, next),
            Err(e) => Err(e),
        }
    }
}

/// The state before the first byte.
pub open spec fn lex_start() -> LexState {
    LexState { mode: LexMode::Unquoted, token: Seq::empty(), args: Seq::empty() }
}

/// The arguments that `bytes` splits into, or the reason why it does not.
pub open spec fn tokenize(bytes: Seq<u8>) -> Result<Seq<Seq<char>>, TokenError> {
    lex_from(bytes, 0, lex_start())
}

/// Ends the argument collected in `token_buf` and appends it to `args`.
fn push_token(args: &mut Vec<String>, token_buf: &mut Vec<u8>) -> (r: Result<(), TokenError>)
    ensures
        old(token_buf)@.len() == 0 ==> r is Ok && *final(args) == *old(args)
            && final(token_buf)@ == old(token_buf)@,
        old(token_buf)@.len() > 0 && valid_utf8(old(token_buf)@) ==> r is Ok
            && final(args).deep_view() == old(args).deep_view().push(decode_utf8(old(token_buf)@))
            && final(token_buf)@.len() == 0,
        old(token_buf)@.len() > 0 && !valid_utf8(old(token_buf)@) ==> r == Err::<(), TokenError>(
            TokenError::InvalidUtf8,
        ) && *final(args) == *old(args),
{
    if token_buf.len() == 0 {
        return Ok(());
    }
    match utf8_str(token_buf.as_slice()) {
        Some(token) => {
            let owned = token.to_owned();
            args.push(owned);
            token_buf.clear();
            assert(args.deep_view() =~= old(args).deep_view().push(decode_utf8(old(token_buf)@)));
            Ok(())
        },
        None => Err(TokenError::InvalidUtf8),
    }
}

/// The state that the executable tokenizer holds in `mode`, `token_buf`
/// and `args`.
pub open spec fn lex_state(mode: LexMode, token_buf: &Vec<u8>, args: &Vec<String>) -> LexState {
    LexState { mode, token: token_buf@, args: args.deep_view() }
}

/// Whether the executable result `r` is what the specification `want` asks for.
pub open spec fn agrees(
    r: Result<Vec<String>, TokenError>,
    want: Result<Seq<Seq<char>>, TokenError>,
) -> bool {
    match want {
        Ok(args) => r is Ok && r->Ok_0.deep_view() == args,
        Err(e) => r == Err::<Vec<String>, TokenError>(e),
    }
}

/// Feeds one byte to the tokenizer and returns its next mode.
fn step(mode: LexMode, b: u8, token_buf: &mut Vec<u8>, args: &mut Vec<String>) -> (r: Result<
    LexMode,
    TokenError,
>)
    ensures
        match lex_step(lex_state(mode, old(token_buf), old(args)), b) {
            Ok(next) => r is Ok && lex_state(r->Ok_0, final(token_buf), final(args)) == next,
            Err(e) => r == Err::<LexMode, TokenError>(e),
        },
{
    match mode {
        LexMode::Escaping { quoted } => {
            let value: u8 = if b == 0x6E {
                0x0A
            } else if b == 0x74 {
                0x09
            } else if b == 0x72 {
                0x0D
            } else {
                b
            };
            token_buf.push(value);
            if quoted {
                Ok(LexMode::DoubleQuoted)
            } else {
                Ok(LexMode::Unquoted)
            }
        },
        LexMode::SingleQuoted => {
            if b == 0x27 {
                Ok(LexMode::Unquoted)
            } else {
                token_buf.push(b);
                Ok(LexMode::SingleQuoted)
            }
        },
        LexMode::DoubleQuoted => {
            if b == 0x22 {
                Ok(LexMode::Unquoted)
            } else if b == 0x5C {
                Ok(LexMode::Escaping { quoted: true })
            } else {
                token_buf.push(b);
                Ok(LexMode::DoubleQuoted)
            }
        },
        LexMode::Unquoted => {
            if b == 0x5C {
                Ok(LexMode::Escaping { quoted: false })
            } else if b == 0x27 {
                Ok(LexMode::SingleQuoted)
            } else if b == 0x22 {
                Ok(LexMode::DoubleQuoted)
            } else if is_ascii_ws(b) {
                match push_token(args, token_buf) {
                    Ok(()) => {
                        assert(token_buf@ =~= Seq::<u8>::empty());
                        Ok(LexMode::Unquoted)
                    },
                    Err(e) => Err(e),
                }
            } else {
                token_buf.push(b);
                Ok(LexMode::Unquoted)
            }
        },
    }
}

/// Whether a word starts at position `i`: a byte that is no whitespace and
/// follows whitespace or nothing.
pub open spec fn starts_word(bytes: Seq<u8>, i: int) -> bool {
    !is_space(bytes[i]) && (i == 0 || is_space(bytes[i - 1]))
}

/// The number of words that start among the first `n` bytes.
pub open spec fn word_starts(bytes: Seq<u8>, n: int) -> nat
    decreases n,
{
    if n <= 0 {
        0
    } else {
        word_starts(bytes, n - 1) + if starts_word(bytes, n - 1) {
            1nat
        } else {
            0nat
        }
    }
}

/// A guess at the number of arguments, for reserving space: the number of
/// whitespace-separated words, and at least one.
fn estimate_tokens(command_bytes: &[u8]) -> (r: usize)
    ensures
        r == if word_starts(command_bytes@, command_bytes@.len() as int) == 0 {
            1
        } else {
            word_starts(command_bytes@, command_bytes@.len() as int)
        },
{
    let total_len = command_bytes.len();
    let mut token_count: usize = 0;
    let mut inside_whitespace = true;
    let mut index: usize = 0;
    while index < total_len
        invariant
            index <= total_len == command_bytes@.len(),
            token_count == word_starts(command_bytes@, index as int),
            token_count <= index,
            inside_whitespace == (index == 0 || is_space(command_bytes@[index - 1])),
        decreases total_len - index,
    {
        let is_whitespace = is_ascii_ws(command_bytes[index]);
        if inside_whitespace && !is_whitespace {
            token_count += 1;
        }
        inside_whitespace = is_whitespace;
        index += 1;
    }
    if token_count == 0 {
        1
    } else {
        token_count
    }
}

/// The general tokenizer: runs the state machine over every byte.
pub fn parse_command_full(input_bytes: &[u8]) -> (r: Result<Vec<String>, TokenError>)
    ensures
        agrees(r, tokenize(input_bytes@)),
{
    let mut args: Vec<String> = Vec::with_capacity(estimate_tokens(input_bytes));
    let mut token_buffer: Vec<u8> = Vec::with_capacity(input_bytes.len());
    let mut mode = LexMode::Unquoted;
    let mut index: usize = 0;
    let input_len = input_bytes.len();
    assert(token_buffer@ =~= Seq::<u8>::empty());
    assert(args.deep_view() =~= Seq::<Seq<char>>::empty());
    while index < input_len
        invariant
            index <= input_len == input_bytes@.len(),
            lex_from(input_bytes@, index as int, lex_state(mode, &token_buffer, &args))
                == tokenize(input_bytes@),
        decreases input_len - index,
    {
        match step(mode, input_bytes[index], &mut token_buffer, &mut args) {
            Ok(next) => {
                mode = next;
            },
            Err(e) => {
                return Err(e);
            },
        }
        index += 1;
    }
    match mode {
        LexMode::Escaping { .. } => Err(TokenError::DanglingBackslash),
        LexMode::SingleQuoted | LexMode::DoubleQuoted => Err(TokenError::UnclosedQuote),
        LexMode::Unquoted => match push_token(&mut args, &mut token_buffer) {
            Ok(()) => Ok(args),
            Err(e) => Err(e),
        },
    }
}

/// A byte that changes the tokenizer's mode: a quote or a backslash.
pub open spec fn is_quoting(b: u8) -> bool {
    b == 0x27 || b == 0x22 || b == 0x5C
}

/// A byte that the tokenizer, outside quotes, takes as it is.
pub open spec fn is_plain(b: u8) -> bool {
    !is_space(b) && !is_quoting(b)
}

/// Whether the input is one plain word: no whitespace, quote or backslash.
fn is_single_token(bytes: &[u8]) -> (r: bool)
    ensures
        r == forall|i: int| 0 <= i < bytes@.len() ==> is_plain(#[trigger] bytes@[i]),
{
    let mut i: usize = 0;
    while i < bytes.len()
        invariant
            i <= bytes@.len(),
            forall|j: int| 0 <= j < i ==> is_plain(#[trigger] bytes@[j]),
        decreases bytes@.len() - i,
    {
        let b = bytes[i];
        if b == 0x27 || b == 0x22 || b == 0x5C || is_ascii_ws(b) {
            assert(!is_plain(bytes@[i as int]));
            return false;
        }
        i += 1;
    }
    true
}

/// Whether the input holds neither quote nor backslash.
fn has_no_quotes_or_backslashes(bytes: &[u8]) -> (r: bool)
    ensures
        r == forall|i: int| 0 <= i < bytes@.len() ==> !is_quoting(#[trigger] bytes@[i]),
{
    let mut i: usize = 0;
    while i < bytes.len()
        invariant
            i <= bytes@.len(),
            forall|j: int| 0 <= j < i ==> !is_quoting(#[trigger] bytes@[j]),
        decreases bytes@.len() - i,
    {
        let b = bytes[i];
        if b == 0x27 || b == 0x22 || b == 0x5C {
            assert(is_quoting(bytes@[i as int]));
            return false;
        }
        i += 1;
    }
    true
}

/// Outside quotes the tokenizer carries a run of plain bytes into the
/// argument being read and changes nothing else.
pub proof fn lemma_plain_run(bytes: Seq<u8>, i: int, j: int, st: LexState)
    requires
        0 <= i <= j <= bytes.len(),
        st.mode == LexMode::Unquoted,
        forall|k: int| i <= k < j ==> is_plain(#[trigger] bytes[k]),
    ensures
        lex_from(bytes, i, st) == lex_from(
            bytes,
            j,
            LexState { token: st.token + bytes.subrange(i, j), ..st },
        ),
    decreases j - i,
{
    if i == j {
        assert(st.token + bytes.subrange(i, j) =~= st.token);
    } else {
        assert(is_plain(bytes[i]));
        let next = LexState { token: st.token.push(bytes[i]), ..st };
        lemma_plain_run(bytes, i + 1, j, next);
        assert(next.token + bytes.subrange(i + 1, j) =~= st.token + bytes.subrange(i, j));
    }
}

/// Splits input without quotes or backslashes at its runs of whitespace.
fn split_words(bytes: &[u8]) -> (r: Result<Vec<String>, TokenError>)
    requires
        forall|i: int| 0 <= i < bytes@.len() ==> !is_quoting(#[trigger] bytes@[i]),
    ensures
        agrees(r, tokenize(bytes@)),
{
    let mut args: Vec<String> = Vec::with_capacity(estimate_tokens(bytes));
    let len = bytes.len();
    let mut i: usize = 0;
    assert(args.deep_view() =~= Seq::<Seq<char>>::empty());
    while i < len
        invariant
            i <= len == bytes@.len(),
            forall|k: int| 0 <= k < bytes@.len() ==> !is_quoting(#[trigger] bytes@[k]),
            lex_from(
                bytes@,
                i as int,
                LexState { mode: LexMode::Unquoted, token: Seq::empty(), args: args.deep_view() },
            ) == tokenize(bytes@),
        decreases len - i,
    {
        let ghost st = LexState {
            mode: LexMode::Unquoted,
            token: Seq::empty(),
            args: args.deep_view(),
        };
        if is_ascii_ws(bytes[i]) {
            assert(!is_quoting(bytes@[i as int]));
            i += 1;
        } else {
            let start = i;
            while i < len && !is_ascii_ws(bytes[i])
                invariant
                    start <= i <= len == bytes@.len(),
                    forall|k: int| 0 <= k < bytes@.len() ==> !is_quoting(#[trigger] bytes@[k]),
                    forall|k: int| start <= k < i ==> is_plain(#[trigger] bytes@[k]),
                decreases len - i,
            {
                assert(!is_quoting(bytes@[i as int]));
                i += 1;
            }
            let word = vstd::slice::slice_subrange(bytes, start, i);
            let ghost full = LexState { token: word@, ..st };
            proof {
                lemma_plain_run(bytes@, start as int, i as int, st);
                assert(st.token + bytes@.subrange(start as int, i as int) =~= word@);
                if i < len {
                    assert(!is_quoting(bytes@[i as int]));
                }
            }
            match utf8_str(word) {
                Some(text) => {
                    args.push(text.to_owned());
                    assert(args.deep_view() =~= st.args.push(decode_utf8(word@)));
                    if i < len {
                        i += 1;
                    }
                },
                None => {
                    return Err(TokenError::InvalidUtf8);
                },
            }
        }
    }
    Ok(args)
}

/// A single ASCII byte is well-formed UTF-8.
proof fn lemma_ascii_byte_valid(b: u8)
    requires
        b < 0x80,
    ensures
        valid_utf8(seq![b]),
{
    let chars = seq![b as char];
    assert(is_ascii_chars(chars));
    is_ascii_chars_encode_utf8(chars);
    encode_utf8_valid_utf8(chars);
    assert(encode_utf8(chars) =~= seq![b]);
}

/// Where the argument being read followed by the rest of the input is
/// well-formed UTF-8, it stays so when an ASCII byte of the input is
/// dropped or replaced by an ASCII byte.
proof fn lemma_ascii_step(token: Seq<u8>, bytes: Seq<u8>, i: int)
    requires
        0 <= i < bytes.len(),
        bytes[i] < 0x80,
        valid_utf8(token + bytes.skip(i)),
    ensures
        valid_utf8(token),
        valid_utf8(bytes.skip(i + 1)),
        valid_utf8(token + bytes.skip(i + 1)),
        forall|c: u8| c < 0x80 ==> valid_utf8(#[trigger] token.push(c) + bytes.skip(i + 1)),
{
    let whole = token + bytes.skip(i);
    let k = token.len() as int;
    assert(whole[k] == bytes[i]);
    lemma_cut_valid(whole, k);
    lemma_cut_valid(whole, k + 1);
    assert(whole.subrange(0, k) =~= token);
    assert(whole.subrange(k + 1, whole.len() as int) =~= bytes.skip(i + 1));
    valid_utf8_concat(token, bytes.skip(i + 1));
    assert forall|c: u8| c < 0x80 implies valid_utf8(#[trigger] token.push(c) + bytes.skip(i + 1)) by {
        lemma_ascii_byte_valid(c);
        valid_utf8_concat(token, seq![c]);
        assert(token + seq![c] =~= token.push(c));
        valid_utf8_concat(token.push(c), bytes.skip(i + 1));
    }
}

proof fn lemma_tokens_valid(bytes: Seq<u8>, i: int, st: LexState)
    requires
        0 <= i <= bytes.len(),
        valid_utf8(st.token + bytes.skip(i)),
    ensures
        lex_from(bytes, i, st) != Err::<Seq<Seq<char>>, TokenError>(TokenError::InvalidUtf8),
    decreases bytes.len() - i,
{
    if i >= bytes.len() {
        assert(st.token + bytes.skip(i) =~= st.token);
    } else {
        let b = bytes[i];
        let rest = bytes.skip(i + 1);
        assert(st.token.push(b) + rest =~= st.token + bytes.skip(i));
        if b < 0x80 {
            lemma_ascii_step(st.token, bytes, i);
            assert(unescape(b) < 0x80);
            assert(valid_utf8(st.token.push(unescape(b)) + rest));
            assert(Seq::<u8>::empty() + rest =~= rest);
        } else {
            assert(unescape(b) == b);
            assert(!is_space(b));
        }
        match lex_step(st, b) {
            Ok(next) => {
                lemma_tokens_valid(bytes, i + 1, next);
            },
            Err(_) => {},
        }
    }
}

/// The arguments of a text are text: tokenizing the UTF-8 bytes of a
/// string never fails for an argument that is not well-formed UTF-8.
pub proof fn lemma_text_tokens_are_text(text: Seq<char>)
    ensures
        tokenize(encode_utf8(text)) != Err::<Seq<Seq<char>>, TokenError>(TokenError::InvalidUtf8),
{
    let bytes = encode_utf8(text);
    encode_utf8_valid_utf8(text);
    assert(Seq::<u8>::empty() + bytes.skip(0) =~= bytes);
    lemma_tokens_valid(bytes, 0, lex_start());
}

/// The arguments of a command line, or the reason why it has none. Input
/// without quotes and backslashes takes a shorter path to the same result.
pub fn parse_command(input: &str) -> (r: Result<Vec<String>, TokenError>)
    ensures
        agrees(r, tokenize(input.spec_bytes())),
        r != Err::<Vec<String>, TokenError>(TokenError::InvalidUtf8),
{
    proof {
        lemma_text_tokens_are_text(input@);
    }
    let input_bytes = input.as_bytes();
    if input_bytes.len() == 0 {
        let args: Vec<String> = Vec::new();
        assert(args.deep_view() =~= Seq::<Seq<char>>::empty());
        return Ok(args);
    }
    if is_single_token(input_bytes) {
        let mut args: Vec<String> = Vec::new();
        args.push(input.to_owned());
        proof {
            let bytes = input_bytes@;
            lemma_plain_run(bytes, 0, bytes.len() as int, lex_start());
            assert(lex_start().token + bytes.subrange(0, bytes.len() as int) =~= bytes);
            encode_utf8_valid_utf8(input@);
            encode_utf8_decode_utf8(input@);
            assert(args.deep_view() =~= lex_start().args.push(input@));
        }
        return Ok(args);
    }
    if has_no_quotes_or_backslashes(input_bytes) {
        return split_words(input_bytes);
    }
    parse_command_full(input_bytes)
}

/// The arguments of a command line; none where it cannot be tokenized.
pub open spec fn command_args(bytes: Seq<u8>) -> Seq<Seq<char>> {
    match tokenize(bytes) {
        Ok(args) => args,
        Err(_) => Seq::empty(),
    }
}

/// Splits a command line into its arguments. Input that cannot be tokenized
/// gives no arguments rather than an error.
pub fn get_command(input: &str) -> (args: Vec<String>)
    ensures
        args.deep_view() == command_args(input.spec_bytes()),
{
    match parse_command(input) {
        Ok(args) => args,
        Err(_) => {
            let args: Vec<String> = Vec::new();
            assert(args.deep_view() =~= Seq::<Seq<char>>::empty());
            args
        },
    }
}

} // verus!
