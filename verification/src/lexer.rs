//! Lexical analysis: from source text to tokens.
//!
//! The eight commands of the language are single ASCII characters. Every
//! other byte of the source is a comment and is skipped.

use vstd::prelude::*;
use vstd::string::StringSliceAdditionalSpecFns;
use vstd::utf8::char_is_scalar;
use vstd::utf8::encode_scalar;
use vstd::utf8::encode_utf8;
use vstd::utf8::has_width_1_encoding;

verus! {

/// A command of the language.
#[derive(Debug, Clone, Copy, PartialEq, Eq, Structural)]
pub enum Token {
    /// `>`
    IncrementPtr,
    /// `<`
    DecrementPtr,
    /// `+`
    Increment,
    /// `-`
    Decrement,
    /// `[`
    LoopStart,
    /// `]`
    LoopEnd,
    /// `,`
    Input,
    /// `.`
    Output,
}

/// The command that a byte of source text stands for, if it is one.
pub open spec fn token_of(byte: u8) -> Option<Token> {
    if byte == 0x2B {
        Some(Token::Increment)
    } else if byte == 0x2D {
        Some(Token::Decrement)
    } else if byte == 0x3C {
        Some(Token::DecrementPtr)
    } else if byte == 0x3E {
        Some(Token::IncrementPtr)
    } else if byte == 0x5B {
        Some(Token::LoopStart)
    } else if byte == 0x5D {
        Some(Token::LoopEnd)
    } else if byte == 0x2C {
        Some(Token::Input)
    } else if byte == 0x2E {
        Some(Token::Output)
    } else {
        None
    }
}

/// Index of the first byte that is a command, or the length if there is
/// none.
pub open spec fn first_command(bytes: Seq<u8>) -> int
    decreases bytes.len(),
{
    if bytes.len() == 0 || token_of(bytes[0]) is Some {
        0
    } else {
        1 + first_command(bytes.drop_first())
    }
}

/// The commands of a source text, in order.
pub open spec fn tokens_of(bytes: Seq<u8>) -> Seq<Token>
    decreases bytes.len(),
{
    if bytes.len() == 0 {
        Seq::empty()
    } else {
        match token_of(bytes[0]) {
            Some(token) => seq![token] + tokens_of(bytes.drop_first()),
            None => tokens_of(bytes.drop_first()),
        }
    }
}

/// The first command lies within the text or at its end, and no byte before
/// it is a command.
pub proof fn lemma_first_command(bytes: Seq<u8>)
    ensures
        0 <= first_command(bytes) <= bytes.len(),
        forall|j: int| 0 <= j < first_command(bytes) ==> token_of(#[trigger] bytes[j]) is None,
        first_command(bytes) < bytes.len() ==> token_of(bytes[first_command(bytes)]) is Some,
    decreases bytes.len(),
{
    if !(bytes.len() == 0 || token_of(bytes[0]) is Some) {
        let rest = bytes.drop_first();
        lemma_first_command(rest);
        assert forall|j: int| 0 <= j < first_command(bytes) implies token_of(
            #[trigger] bytes[j],
        ) is None by {
            if j > 0 {
                assert(bytes[j] == rest[j - 1]);
            }
        }
    }
}

/// The commands of a text are its first command and the commands of what
/// follows it.
pub proof fn lemma_tokens_after_first(bytes: Seq<u8>)
    ensures
        first_command(bytes) >= bytes.len() ==> tokens_of(bytes) == Seq::<Token>::empty(),
        first_command(bytes) < bytes.len() ==> tokens_of(bytes) == seq![
            token_of(bytes[first_command(bytes)])->0,
        ] + tokens_of(bytes.skip(first_command(bytes) + 1)),
    decreases bytes.len(),
{
    lemma_first_command(bytes);
    if bytes.len() == 0 {
    } else if token_of(bytes[0]) is Some {
        assert(bytes.skip(1) =~= bytes.drop_first());
    } else {
        let rest = bytes.drop_first();
        lemma_tokens_after_first(rest);
        lemma_first_command(rest);
        if first_command(rest) < rest.len() {
            assert(rest.skip(first_command(rest) + 1) =~= bytes.skip(first_command(bytes) + 1));
        }
    }
}

/// A lexer over a source text.
pub struct Lexer<'a> {
    input: &'a [u8],
    position: usize,
}

impl<'a> Lexer<'a> {
    /// The position is within the input.
    pub closed spec fn wf(&self) -> bool {
        self.position <= self.input@.len()
    }

    /// The bytes of the source that have not been read yet.
    pub closed spec fn remaining(&self) -> Seq<u8> {
        self.input@.skip(self.position as int)
    }

    /// A lexer at the beginning of `input`.
    pub fn new(input: &'a str) -> (lexer: Self)
        ensures
            lexer.wf(),
            lexer.remaining() == input.spec_bytes(),
    {
        let lexer = Lexer { input: input.as_bytes(), position: 0 };
        assert(lexer.input@.skip(0) =~= lexer.input@);
        lexer
    }

    /// Reads up to and including the next command and returns it; reads
    /// the rest of the input and returns `None` if there is no command
    /// left.
    pub fn next_token(&mut self) -> (token: Option<Token>)
        requires
            old(self).wf(),
        ensures
            final(self).wf(),
            first_command(old(self).remaining()) < old(self).remaining().len() ==> {
                &&& token == token_of(
                    old(self).remaining()[first_command(old(self).remaining())],
                )
                &&& final(self).remaining() == old(self).remaining().skip(
                    first_command(old(self).remaining()) + 1,
                )
            },
            first_command(old(self).remaining()) >= old(self).remaining().len() ==> {
                &&& token is None
                &&& final(self).remaining() == Seq::<u8>::empty()
            },
    {
        let ghost rest = self.remaining();
        let ghost start = self.position;
        proof {
            lemma_first_command(rest);
        }
        while self.position < self.input.len()
            invariant
                self.wf(),
                self.input == old(self).input,
                start <= self.position <= self.input@.len(),
                self.position - start <= first_command(rest),
                rest == old(self).input@.skip(start as int),
                rest == old(self).remaining(),
                0 <= first_command(rest) <= rest.len(),
                forall|j: int| 0 <= j < first_command(rest) ==> token_of(#[trigger] rest[j]) is None,
                first_command(rest) < rest.len() ==> token_of(rest[first_command(rest)]) is Some,
            decreases self.input@.len() - self.position,
        {
            let byte = self.input[self.position];
            let ghost k = self.position - start;
            assert(byte == rest[k]);
            self.position += 1;
            let token = if byte == 0x2B {
                Some(Token::Increment)
            } else if byte == 0x2D {
                Some(Token::Decrement)
            } else if byte == 0x3C {
                Some(Token::DecrementPtr)
            } else if byte == 0x3E {
                Some(Token::IncrementPtr)
            } else if byte == 0x5B {
                Some(Token::LoopStart)
            } else if byte == 0x5D {
                Some(Token::LoopEnd)
            } else if byte == 0x2C {
                Some(Token::Input)
            } else if byte == 0x2E {
                Some(Token::Output)
            } else {
                None
            };
            assert(token == token_of(byte));
            if token.is_some() {
                assert(k == first_command(rest));
                assert(self.remaining() =~= rest.skip(first_command(rest) + 1));
                return token;
            }
            assert(k != first_command(rest));
        }
        assert(self.remaining() =~= Seq::<u8>::empty());
        None
    }

    /// Reads the rest of the input and returns its commands.
    pub fn tokenize(&mut self) -> (tokens: Vec<Token>)
        requires
            old(self).wf(),
        ensures
            final(self).wf(),
            tokens@ == tokens_of(old(self).remaining()),
            final(self).remaining() == Seq::<u8>::empty(),
    {
        let mut tokens: Vec<Token> = Vec::new();
        loop
            invariant
                self.wf(),
                tokens@ + tokens_of(self.remaining()) == tokens_of(old(self).remaining()),
            decreases self.remaining().len(),
        {
            let ghost rest = self.remaining();
            proof {
                lemma_first_command(rest);
                lemma_tokens_after_first(rest);
            }
            match self.next_token() {
                Some(token) => {
                    tokens.push(token);
                    assert(tokens@ + tokens_of(self.remaining()) =~= tokens_of(
                        old(self).remaining(),
                    ));
                },
                None => {
                    assert(tokens@ + Seq::<Token>::empty() =~= tokens@);
                    return tokens;
                },
            }
        }
    }
}

/// The command that a character of source text stands for, if it is one.
pub open spec fn token_of_char(c: char) -> Option<Token> {
    if c == '+' {
        Some(Token::Increment)
    } else if c == '-' {
        Some(Token::Decrement)
    } else if c == '<' {
        Some(Token::DecrementPtr)
    } else if c == '>' {
        Some(Token::IncrementPtr)
    } else if c == '[' {
        Some(Token::LoopStart)
    } else if c == ']' {
        Some(Token::LoopEnd)
    } else if c == ',' {
        Some(Token::Input)
    } else if c == '.' {
        Some(Token::Output)
    } else {
        None
    }
}

/// The commands of a source text, read character by character.
pub open spec fn tokens_of_text(text: Seq<char>) -> Seq<Token>
    decreases text.len(),
{
    if text.len() == 0 {
        Seq::empty()
    } else {
        match token_of_char(text[0]) {
            Some(token) => seq![token] + tokens_of_text(text.drop_first()),
            None => tokens_of_text(text.drop_first()),
        }
    }
}

/// The commands of two texts, one after the other, are the commands of
/// the first and then those of the second.
pub proof fn lemma_tokens_of_concat(a: Seq<u8>, b: Seq<u8>)
    ensures
        tokens_of(a + b) == tokens_of(a) + tokens_of(b),
    decreases a.len(),
{
    if a.len() == 0 {
        assert(a + b =~= b);
        assert(tokens_of(a) + tokens_of(b) =~= tokens_of(b));
    } else {
        assert((a + b).drop_first() =~= a.drop_first() + b);
        lemma_tokens_of_concat(a.drop_first(), b);
        match token_of(a[0]) {
            Some(token) => {
                assert(seq![token] + (tokens_of(a.drop_first()) + tokens_of(b)) =~= (seq![token]
                    + tokens_of(a.drop_first())) + tokens_of(b));
            },
            None => {},
        }
    }
}

/// A byte with its highest bit set, as every byte in the encoding of a
/// character beyond ASCII has it.
proof fn lemma_high_bytes(low: u8)
    by (bit_vector)
    ensures
        0x80u8 | low >= 0x80,
        0xC0u8 | low >= 0x80,
        0xE0u8 | low >= 0x80,
        0xF0u8 | low >= 0x80,
{
}

/// The one byte that encodes an ASCII character is its code.
proof fn lemma_ascii_byte(scalar: u32)
    by (bit_vector)
    requires
        scalar <= 0x7F,
    ensures
        scalar & 0x7F == scalar,
{
}

/// The commands among the bytes that encode a character: the command that
/// the character stands for, if it is one.
proof fn lemma_tokens_of_char(c: char)
    ensures
        tokens_of(encode_scalar(c as u32)) == match token_of_char(c) {
            Some(token) => seq![token],
            None => Seq::empty(),
        },
{
    let scalar = c as u32;
    let bytes = encode_scalar(scalar);
    char_is_scalar(c);
    if has_width_1_encoding(scalar) {
        lemma_ascii_byte(scalar);
        assert(bytes[0] == scalar);
        assert(bytes.drop_first() =~= Seq::<u8>::empty());
        assert(tokens_of(bytes.drop_first()) =~= Seq::<Token>::empty());
        match token_of(bytes[0]) {
            Some(token) => {
                assert(seq![token] + Seq::<Token>::empty() =~= seq![token]);
            },
            None => {},
        }
    } else {
        lemma_high_bytes((((scalar >> 6) & 0x1F) as u8));
        lemma_high_bytes((((scalar >> 12) & 0x0F) as u8));
        lemma_high_bytes((((scalar >> 18) & 0x7) as u8));
        lemma_high_bytes(((scalar & 0x3F) as u8));
        lemma_high_bytes((((scalar >> 6) & 0x3F) as u8));
        lemma_high_bytes((((scalar >> 12) & 0x3F) as u8));
        assert forall|j: int| 0 <= j < bytes.len() implies token_of(#[trigger] bytes[j]) is None by {
            assert(bytes[j] >= 0x80);
        }
        lemma_no_commands(bytes);
    }
}

/// A text without a command byte has no commands.
proof fn lemma_no_commands(bytes: Seq<u8>)
    requires
        forall|j: int| 0 <= j < bytes.len() ==> token_of(#[trigger] bytes[j]) is None,
    ensures
        tokens_of(bytes) == Seq::<Token>::empty(),
    decreases bytes.len(),
{
    if bytes.len() > 0 {
        let rest = bytes.drop_first();
        assert forall|j: int| 0 <= j < rest.len() implies token_of(#[trigger] rest[j]) is None by {
            assert(rest[j] == bytes[j + 1]);
        }
        lemma_no_commands(rest);
    }
}

/// Lexing by bytes is lexing by characters: the commands among the bytes
/// of the UTF-8 encoding of a text are the commands among its characters.
pub proof fn lemma_tokens_of_text(text: Seq<char>)
    ensures
        tokens_of(encode_utf8(text)) == tokens_of_text(text),
    decreases text.len(),
{
    if text.len() > 0 {
        let head = encode_scalar(text[0] as u32);
        let tail = encode_utf8(text.drop_first());
        lemma_tokens_of_char(text[0]);
        lemma_tokens_of_text(text.drop_first());
        lemma_tokens_of_concat(head, tail);
        match token_of_char(text[0]) {
            Some(token) => {},
            None => {
                assert(Seq::<Token>::empty() + tokens_of(tail) =~= tokens_of(tail));
            },
        }
    }
}

} // verus!
