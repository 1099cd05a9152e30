//! A tokenizer for story scripts.
//!
//! Blanks and tabs are skipped. A name is the longest run of ASCII letters; a
//! comma and a line feed are tokens of one byte. Any other character is
//! invalid and is passed over as a whole, with the bytes that continue it.
use vstd::prelude::*;
use vstd::string::{StrSliceExecFns, StringSliceAdditionalSpecFns};
use crate::tokens::Token;

verus! {

/// The kinds of byte of which the tokenizer looks for runs.
#[derive(Clone, Copy, Debug, PartialEq, Eq, Structural)]
pub enum ByteClass {
    /// A blank or a tab.
    Blank,
    /// An ASCII letter.
    Letter,
    /// A byte that continues a character of several bytes.
    Continuation,
}

/// Whether the byte belongs to the class.
pub open spec fn in_class(class: ByteClass, b: u8) -> bool {
    match class {
        ByteClass::Blank => b == 32 || b == 9,
        ByteClass::Letter => (65 <= b <= 90) || (97 <= b <= 122),
        ByteClass::Continuation => 128 <= b <= 191,
    }
}

/// Where the run of bytes of the class that starts at `from` ends.
pub open spec fn class_end(bytes: Seq<u8>, from: int, class: ByteClass) -> int
    decreases bytes.len() - from,
{
    if 0 <= from < bytes.len() && in_class(class, bytes[from]) {
        class_end(bytes, from + 1, class)
    } else {
        from
    }
}

/// What the tokenizer finds from a position on.
pub enum Scan {
    /// Nothing but blanks is left.
    End,
    /// A character that starts no token; the next token is sought from `end`.
    Invalid { end: int },
    /// A token in the bytes from `start` up to `end`.
    Found { token: Token, start: int, end: int },
}

/// The next token from position `pos` on.
pub open spec fn scan(bytes: Seq<u8>, pos: int) -> Scan {
    let start = class_end(bytes, pos, ByteClass::Blank);
    if start >= bytes.len() {
        Scan::End
    } else if in_class(ByteClass::Letter, bytes[start]) {
        Scan::Found { token: Token::Name, start: start, end: class_end(bytes, start, ByteClass::Letter) }
    } else if bytes[start] == 44 {
        Scan::Found { token: Token::Comma, start: start, end: start + 1 }
    } else if bytes[start] == 10 {
        Scan::Found { token: Token::Newline, start: start, end: start + 1 }
    } else {
        Scan::Invalid { end: class_end(bytes, start + 1, ByteClass::Continuation) }
    }
}

/// The text of a run of ASCII bytes: every byte is one character.
pub open spec fn text_of(bytes: Seq<u8>) -> Seq<char> {
    Seq::new(bytes.len(), |i: int| bytes[i] as char)
}

/// Why a token could not be consumed.
#[derive(Debug, PartialEq, Eq, Clone, Copy, Structural)]
pub enum LexError {
    /// The input ended where a token was expected.
    EndOfInput { expected: Token },
    /// A character that starts no token stood where a token was expected.
    InvalidToken { expected: Token },
    /// Another token stood where this one was expected.
    Unexpected { expected: Token, found: Token },
}

/// The answer that a request for `expected` gets, given what was found.
pub open spec fn verdict(found: Scan, expected: Token) -> Result<(int, int), LexError> {
    match found {
        Scan::End => Err(LexError::EndOfInput { expected: expected }),
        Scan::Invalid { end } => Err(LexError::InvalidToken { expected: expected }),
        Scan::Found { token, start, end } => if token == expected {
            Ok((start, end))
        } else {
            Err(LexError::Unexpected { expected: expected, found: token })
        },
    }
}

/// The position from which the next token is sought, given what was found.
pub open spec fn position_after(bytes: Seq<u8>, found: Scan) -> int {
    match found {
        Scan::End => bytes.len() as int,
        Scan::Invalid { end } => end,
        Scan::Found { token, start, end } => end,
    }
}

/// The mathematical value of a `Lexer`: the bytes of its input, and how many
/// of them have been consumed.
pub struct LexerView {
    pub bytes: Seq<u8>,
    pub pos: int,
}

/// A tokenizer over the bytes of a script.
#[derive(Clone, Debug)]
pub struct Lexer {
    bytes: Vec<u8>,
    pos: usize,
}

/// A byte of the class is a byte of the run; the run ends within the input.
pub proof fn lemma_class_end_bounds(bytes: Seq<u8>, from: int, class: ByteClass)
    requires
        0 <= from <= bytes.len(),
    ensures
        from <= class_end(bytes, from, class) <= bytes.len(),
        forall|i: int| from <= i < class_end(bytes, from, class) ==> in_class(class, #[trigger] bytes[i]),
        class_end(bytes, from, class) < bytes.len() ==> !in_class(
            class,
            bytes[class_end(bytes, from, class)],
        ),
    decreases bytes.len() - from,
{
    if from < bytes.len() && in_class(class, bytes[from]) {
        lemma_class_end_bounds(bytes, from + 1, class);
    }
}

/// Every token and every invalid character takes at least one byte, and no
/// position lies beyond the end of the input: a caller that consumes until
/// the input ends comes to an end.
pub proof fn lemma_scan_progress(bytes: Seq<u8>, pos: int)
    requires
        0 <= pos <= bytes.len(),
    ensures
        pos <= position_after(bytes, scan(bytes, pos)) <= bytes.len(),
        !(scan(bytes, pos) is End) ==> pos < position_after(bytes, scan(bytes, pos)),
{
    let start = class_end(bytes, pos, ByteClass::Blank);
    lemma_class_end_bounds(bytes, pos, ByteClass::Blank);
    if start < bytes.len() {
        lemma_class_end_bounds(bytes, start + 1, ByteClass::Letter);
        lemma_class_end_bounds(bytes, start + 1, ByteClass::Continuation);
    }
}

impl View for Lexer {
    type V = LexerView;

    closed spec fn view(&self) -> LexerView {
        LexerView { bytes: self.bytes@, pos: self.pos as int }
    }
}

impl Lexer {
    /// The position lies within the input.
    pub open spec fn wf(&self) -> bool {
        0 <= self@.pos <= self@.bytes.len()
    }

    /// A tokenizer at the start of `input`.
    pub fn new(input: &str) -> (lexer: Self)
        ensures
            lexer.wf(),
            lexer@.bytes == input.spec_bytes(),
            lexer@.pos == 0,
    {
        Lexer { bytes: input.as_bytes_vec(), pos: 0 }
    }

    /// How many bytes of the input have been consumed.
    pub fn position(&self) -> (pos: usize)
        ensures
            pos == self@.pos,
    {
        self.pos
    }

    fn in_class_at(&self, class: ByteClass, i: usize) -> (r: bool)
        requires
            i < self@.bytes.len(),
        ensures
            r == in_class(class, self@.bytes[i as int]),
    {
        let b: u8 = self.bytes[i];
        match class {
            ByteClass::Blank => b == 32 || b == 9,
            ByteClass::Letter => (65 <= b && b <= 90) || (97 <= b && b <= 122),
            ByteClass::Continuation => 128 <= b && b <= 191,
        }
    }

    fn run_end(&self, from: usize, class: ByteClass) -> (end: usize)
        requires
            from <= self@.bytes.len(),
        ensures
            end == class_end(self@.bytes, from as int, class),
            from <= end <= self@.bytes.len(),
    {
        let mut i: usize = from;
        while i < self.bytes.len() && self.in_class_at(class, i)
            invariant
                from <= i <= self@.bytes.len(),
                class_end(self@.bytes, i as int, class) == class_end(self@.bytes, from as int, class),
            decreases self@.bytes.len() - i,
        {
            i += 1;
        }
        i
    }

    /// Consumes the next token, whatever it is, and says where it stands if
    /// it is the expected one.
    fn advance(&mut self, expected: Token) -> (r: Result<(usize, usize), LexError>)
        requires
            old(self).wf(),
        ensures
            final(self).wf(),
            final(self)@.bytes == old(self)@.bytes,
            final(self)@.pos == position_after(old(self)@.bytes, scan(old(self)@.bytes, old(self)@.pos)),
            match verdict(scan(old(self)@.bytes, old(self)@.pos), expected) {
                Ok((start, end)) => r == Ok::<(usize, usize), LexError>((start as usize, end as usize))
                    && 0 <= start < end <= old(self)@.bytes.len(),
                Err(e) => r == Err::<(usize, usize), LexError>(e),
            },
    {
        let start = self.run_end(self.pos, ByteClass::Blank);
        if start >= self.bytes.len() {
            self.pos = self.bytes.len();
            return Err(LexError::EndOfInput { expected: expected });
        }
        let b: u8 = self.bytes[start];
        let found = if self.in_class_at(ByteClass::Letter, start) {
            proof {
                lemma_class_end_bounds(self@.bytes, start as int + 1, ByteClass::Letter);
            }
            self.pos = self.run_end(start, ByteClass::Letter);
            Token::Name
        } else if b == 44 {
            self.pos = start + 1;
            Token::Comma
        } else if b == 10 {
            self.pos = start + 1;
            Token::Newline
        } else {
            self.pos = self.run_end(start + 1, ByteClass::Continuation);
            return Err(LexError::InvalidToken { expected: expected });
        };
        if found == expected {
            Ok((start, self.pos))
        } else {
            Err(LexError::Unexpected { expected: expected, found: found })
        }
    }

    /// Consumes the next token and checks that it is the expected one. The
    /// token is consumed also where it is another or invalid.
    pub fn consume_exact(&mut self, token: Token) -> (r: Result<(), LexError>)
        requires
            old(self).wf(),
        ensures
            final(self).wf(),
            final(self)@.bytes == old(self)@.bytes,
            final(self)@.pos == position_after(old(self)@.bytes, scan(old(self)@.bytes, old(self)@.pos)),
            match verdict(scan(old(self)@.bytes, old(self)@.pos), token) {
                Ok(span) => r == Ok::<(), LexError>(()),
                Err(e) => r == Err::<(), LexError>(e),
            },
    {
        match self.advance(token) {
            Ok(span) => Ok(()),
            Err(e) => Err(e),
        }
    }

    /// Consumes the next token, checks that it is the expected one and returns
    /// its text.
    pub fn consume_slice_exact(&mut self, token: Token) -> (r: Result<String, LexError>)
        requires
            old(self).wf(),
        ensures
            final(self).wf(),
            final(self)@.bytes == old(self)@.bytes,
            final(self)@.pos == position_after(old(self)@.bytes, scan(old(self)@.bytes, old(self)@.pos)),
            match verdict(scan(old(self)@.bytes, old(self)@.pos), token) {
                Ok((start, end)) => r is Ok && r.unwrap()@ == text_of(
                    old(self)@.bytes.subrange(start, end),
                ),
                Err(e) => r is Err && r.unwrap_err() == e,
            },
    {
        match self.advance(token) {
            Ok((start, end)) => {
                let ghost slice = self.bytes@.subrange(start as int, end as int);
                let mut text = String::new();
                let mut i: usize = start;
                while i < end
                    invariant
                        start <= i <= end <= self.bytes@.len(),
                        slice == self.bytes@.subrange(start as int, end as int),
                        text@ == text_of(slice.take(i - start)),
                    decreases end - i,
                {
                    push_char(&mut text, self.bytes[i] as char);
                    assert(text@ =~= text_of(slice.take(i + 1 - start)));
                    i += 1;
                }
                assert(slice.take(end - start) =~= slice);
                Ok(text)
            },
            Err(e) => Err(e),
        }
    }
}

/// Appends a character to a string. This is `String::push` of the standard
/// library, taken on trust: the string afterwards is the string before,
/// followed by the character.
#[verifier::external_body]
fn push_char(text: &mut String, c: char)
    ensures
        final(text)@ == old(text)@.push(c),
{
    text.push(c);
}

} // verus!
