//! The lexer: it turns the input bytes into tokens, reads decimal literals
//! and raw byte runs, and keeps one token of lookahead.
use vstd::prelude::*;
use crate::value::{is_digit, lit_char, INT_BEGIN, LIST_BEGIN, DICT_BEGIN, END, COLON, MINUS};
use crate::decimal::{
    all_digits, digits_val, lemma_digits_val_pos, lemma_digits_val_prefix, lemma_digits_val_push,
    lemma_lit_end, lemma_lit_end_bounds, lemma_lit_end_skip, lit_body, lit_end, lit_neg, lit_value,
    valid_lit,
};

verus! {

/// One lexical unit of bencode.
#[derive(PartialEq, Eq, Structural, Clone, Copy, Debug)]
pub enum Token {
    IntegerBegin,
    IntegerEnd,
    ListBegin,
    ListEnd,
    DictBegin,
    DictEnd,
    Length(i64),
    Colon,
    EndOfInput,
}

/// Why decoding stopped.
#[derive(PartialEq, Eq, Structural, Clone, Copy, Debug)]
pub enum ErrorKind {
    /// A byte other than a digit or a sign inside a number.
    InvalidInteger,
    /// A number of several digits that starts with `0`.
    LeadingZero,
    /// The number `-0`.
    NegativeZero,
    /// A `-` that is not the first byte of a number.
    MisplacedSign,
    /// The input ends inside a number.
    UnterminatedNumber,
    /// A number outside the range of `i64`.
    IntegerOverflow,
    /// Fewer bytes remain than a byte string declares; how many remain.
    TruncatedByteString(usize),
    /// An `e` with no open integer, list or dictionary.
    UnmatchedEnd,
    /// A `:` that does not follow a length.
    MisplacedColon,
    /// A byte that starts no token.
    UnknownToken,
    /// A token where the grammar does not allow it.
    UnexpectedToken,
    /// `ie`: an integer without digits.
    EmptyInteger,
    /// A dictionary key that is not a byte string.
    NonStringDictKey,
    /// A dictionary key that is not valid UTF-8.
    InvalidKeyEncoding,
    /// Bytes after a complete value.
    TrailingData,
}

/// A decoding failure and the byte offset at which it was found.
#[derive(PartialEq, Eq, Structural, Clone, Copy, Debug)]
pub struct Error {
    pub position: usize,
    pub kind: ErrorKind,
}

impl Error {
    /// A short description of the failure.
    pub fn msg(&self) -> &'static str {
        match self.kind {
            ErrorKind::InvalidInteger => "invalid integer",
            ErrorKind::LeadingZero => "Leading zero is not permitted",
            ErrorKind::NegativeZero => "Negative zero is not permitted",
            ErrorKind::MisplacedSign => "`-` can only appear in the head of the integer",
            ErrorKind::UnterminatedNumber => "the input ends inside a number",
            ErrorKind::IntegerOverflow => "the number does not fit in 64 bits",
            ErrorKind::TruncatedByteString(_) => "fewer bytes remain than the declared length",
            ErrorKind::UnmatchedEnd => "`e` should be the end of integer, list and dictionary.",
            ErrorKind::MisplacedColon => "`:` should be after the length of bytes.",
            ErrorKind::UnknownToken => "unknown token",
            ErrorKind::UnexpectedToken => "invalid input",
            ErrorKind::EmptyInteger => "Integer cannot be empty",
            ErrorKind::NonStringDictKey => "a dictionary key must be a byte string",
            ErrorKind::InvalidKeyEncoding => "a dictionary key must be valid UTF-8",
            ErrorKind::TrailingData => "Expect EOF",
        }
    }
}

/// Why a valid literal `lit` stops being one when the byte `c` follows it.
pub open spec fn lit_fault(lit: Seq<u8>, c: u8) -> ErrorKind {
    if c == MINUS {
        ErrorKind::MisplacedSign
    } else if lit_neg(lit) && lit_body(lit).len() == 0 && c == 48 {
        ErrorKind::NegativeZero
    } else if lit_body(lit).len() >= 1 && lit_body(lit)[0] == 48 {
        ErrorKind::LeadingZero
    } else {
        ErrorKind::IntegerOverflow
    }
}

/// The failure of reading a literal at `p` of `s` up to `symbol`: the first
/// byte at which the literal stops being valid, or, if all of the run of
/// literal bytes is valid, the end of the input or a byte other than
/// `symbol` after it.
pub open spec fn lit_error(s: Seq<u8>, p: int, symbol: u8, e: Error) -> bool {
    let j = lit_end(s, p);
    let k = e.position as int;
    ||| {
        &&& p <= k < j
        &&& valid_lit(s.subrange(p, k))
        &&& !valid_lit(s.subrange(p, k + 1))
        &&& e.kind == lit_fault(s.subrange(p, k), s[k])
    }
    ||| valid_lit(s.subrange(p, j)) && j == s.len() && e.kind == ErrorKind::UnterminatedNumber && k == s.len()
    ||| valid_lit(s.subrange(p, j)) && j < s.len() && s[j] != symbol && e.kind == ErrorKind::InvalidInteger && k == j
}

/// A literal failure is reported inside the input, at or after where the
/// literal starts.
pub proof fn lemma_lit_error_bounds(s: Seq<u8>, p: int, symbol: u8, e: Error)
    requires
        0 <= p <= s.len(),
        lit_error(s, p, symbol, e),
    ensures
        p <= e.position <= s.len(),
{
    lemma_lit_end_bounds(s, p);
}

/// The token that closes what `open` began.
pub open spec fn end_of(open: Token) -> Option<Token> {
    match open {
        Token::IntegerBegin => Some(Token::IntegerEnd),
        Token::ListBegin => Some(Token::ListEnd),
        Token::DictBegin => Some(Token::DictEnd),
        _ => None,
    }
}

/// One step of the tokenizer on `s` at offset `p`, with the stack of open
/// structures and the previous token. It gives the token, the offset of the
/// next unread byte, the new stack and the new previous token; `None` when
/// no token can be read there.
pub open spec fn lex_step(s: Seq<u8>, p: int, stack: Seq<Token>, cur: Option<Token>) -> Option<
    (Token, int, Seq<Token>, Option<Token>),
> {
    if p >= s.len() {
        Some((Token::EndOfInput, p, stack, cur))
    } else {
        let c = s[p];
        if c == INT_BEGIN {
            Some((Token::IntegerBegin, p + 1, stack.push(Token::IntegerBegin), Some(Token::IntegerBegin)))
        } else if c == LIST_BEGIN {
            Some((Token::ListBegin, p + 1, stack.push(Token::ListBegin), Some(Token::ListBegin)))
        } else if c == DICT_BEGIN {
            Some((Token::DictBegin, p + 1, stack.push(Token::DictBegin), Some(Token::DictBegin)))
        } else if c == END {
            if stack.len() > 0 && end_of(stack.last()) is Some {
                Some((end_of(stack.last())->Some_0, p + 1, stack.drop_last(), None))
            } else {
                None
            }
        } else if is_digit(c) {
            let j = lit_end(s, p);
            let lit = s.subrange(p, j);
            if j < s.len() && s[j] == COLON && valid_lit(lit) {
                let t = Token::Length(lit_value(lit) as i64);
                Some((t, j, stack, Some(t)))
            } else {
                None
            }
        } else if c == COLON {
            if cur matches Some(Token::Length(_)) {
                Some((Token::Colon, p + 1, stack, Some(Token::Colon)))
            } else {
                None
            }
        } else {
            None
        }
    }
}

/// The tokenizer over a byte slice. It reads forward only, with one byte of
/// pushback and one token of lookahead.
pub struct Lexer<'a> {
    input: &'a [u8],
    consumed: usize,
    cached_byte: Option<u8>,
    cached_token: Option<Token>,
    token_stack: Vec<Token>,
    current_token: Option<Token>,
    /// The offset at which the cached token starts.
    token_at: usize,
    /// Where the lexer stands for its caller: before the cached token, if any.
    at: Ghost<int>,
    stack_before: Ghost<Seq<Token>>,
    current_before: Ghost<Option<Token>>,
}

impl<'a> Lexer<'a> {
    pub closed spec fn input(&self) -> Seq<u8> {
        self.input@
    }

    /// The offset of the next byte that the caller has not yet seen as a token.
    pub closed spec fn pos(&self) -> int {
        self.at@
    }

    /// The open structures, innermost last, as the caller sees them.
    pub closed spec fn stack(&self) -> Seq<Token> {
        self.stack_before@
    }

    /// The token before `pos`, as the caller sees it.
    pub closed spec fn current(&self) -> Option<Token> {
        self.current_before@
    }

    /// A token is waiting in the lookahead cache.
    pub closed spec fn peeked(&self) -> bool {
        self.cached_token is Some
    }

    /// How many bytes have been taken from the input.
    pub closed spec fn consumed(&self) -> int {
        self.consumed as int
    }

    spec fn cursor(&self) -> int {
        self.consumed - if self.cached_byte is Some {
            1int
        } else {
            0int
        }
    }

    spec fn bytes_ok(&self) -> bool {
        &&& self.consumed <= self.input@.len()
        &&& self.cached_byte matches Some(b) ==> self.consumed >= 1 && self.input@[self.consumed - 1] == b
    }

    pub closed spec fn wf(&self) -> bool {
        &&& self.bytes_ok()
        &&& self.input@.len() <= usize::MAX
        &&& 0 <= self.at@ <= self.input@.len()
        &&& self.cached_token is None ==> {
            &&& self.at@ == self.cursor()
            &&& self.stack_before@ == self.token_stack@
            &&& self.current_before@ == self.current_token
        }
        &&& self.cached_token is Some ==> self.token_at == self.at@
        &&& self.cached_token matches Some(t) ==> (self.cached_byte is Some <==> t is Length)
        &&& self.cached_token matches Some(t) ==> lex_step(
            self.input@,
            self.at@,
            self.stack_before@,
            self.current_before@,
        ) == Some((t, self.cursor(), self.token_stack@, self.current_token))
    }

    pub proof fn lemma_pos(&self)
        requires
            self.wf(),
        ensures
            0 <= self.pos() <= self.input().len(),
            self.consumed() <= self.input().len(),
            self.input().len() <= usize::MAX,
    {
    }

    pub fn new(input: &'a [u8]) -> (r: Lexer<'a>)
        ensures
            r.wf(),
            r.input() == input@,
            r.pos() == 0,
            r.stack() == Seq::<Token>::empty(),
            r.current() is None,
            !r.peeked(),
            r.consumed() == 0,
    {
        let _len = input.len();
        Lexer {
            input,
            consumed: 0,
            cached_byte: None,
            cached_token: None,
            token_stack: Vec::new(),
            current_token: None,
            token_at: 0,
            at: Ghost(0),
            stack_before: Ghost(Seq::empty()),
            current_before: Ghost(None),
        }
    }

    /// The offset of the last byte taken from the input; a byte pushed back
    /// and delivered again is not counted twice.
    pub fn position(&self) -> (r: usize)
        requires
            self.consumed() >= 1,
        ensures
            r == self.consumed() - 1,
    {
        self.consumed - 1
    }

    fn cursor_exec(&self) -> (r: usize)
        requires
            self.bytes_ok(),
        ensures
            r == self.cursor(),
    {
        match self.cached_byte {
            Some(_) => self.consumed - 1,
            None => self.consumed,
        }
    }

    fn next_byte(&mut self) -> (r: Option<u8>)
        requires
            old(self).bytes_ok(),
        ensures
            final(self).bytes_ok(),
            final(self).input == old(self).input,
            final(self).cached_token == old(self).cached_token,
            final(self).token_stack == old(self).token_stack,
            final(self).current_token == old(self).current_token,
            final(self).at == old(self).at,
            final(self).stack_before == old(self).stack_before,
            final(self).current_before == old(self).current_before,
            old(self).cursor() < old(self).input@.len() ==> {
                &&& r == Some(old(self).input@[old(self).cursor()])
                &&& final(self).cursor() == old(self).cursor() + 1
                &&& final(self).cached_byte is None
            },
            old(self).cursor() >= old(self).input@.len() ==> r is None && *final(self) == *old(self),
    {
        match self.cached_byte {
            Some(b) => {
                self.cached_byte = None;
                Some(b)
            },
            None => {
                if self.consumed < self.input.len() {
                    let b = self.input[self.consumed];
                    self.consumed = self.consumed + 1;
                    Some(b)
                } else {
                    None
                }
            },
        }
    }
}

impl<'a> Lexer<'a> {
    /// Reads a decimal literal that runs up to the byte `symbol`, which is
    /// pushed back, not consumed. It returns the value and the number of
    /// digits (none for an empty literal or a lone `-`).
    pub fn read_i64_before(&mut self, symbol: u8) -> (r: Result<(i64, usize), Error>)
        requires
            old(self).wf(),
            !old(self).peeked(),
        ensures
            final(self).wf(),
            !final(self).peeked(),
            final(self).input() == old(self).input(),
            final(self).stack() == old(self).stack(),
            final(self).current() == old(self).current(),
            ({
                let s = old(self).input();
                let p = old(self).pos();
                let j = lit_end(s, p);
                let lit = s.subrange(p, j);
                &&& r is Ok <==> (j < s.len() && s[j] == symbol && !lit_char(symbol) && valid_lit(lit))
                &&& r matches Ok((v, nd)) ==> {
                    &&& v == lit_value(lit)
                    &&& nd == lit_body(lit).len()
                    &&& final(self).pos() == j
                    &&& final(self).consumed() == j + 1
                }
                &&& r matches Err(e) ==> lit_error(s, p, symbol, e)
            }),
    {
        let ghost s = self.input@;
        let ghost p = self.at@;
        let start = self.cursor_exec();
        let mut neg = false;
        let mut nd: usize = 0;
        let mut num: i64 = 0;
        loop
            invariant
                self.bytes_ok(),
                self.input@ == s,
                self.input == old(self).input,
                s == old(self).input(),
                s.len() <= usize::MAX,
                p == old(self).pos(),
                self.cached_token is None,
                self.token_stack@ == old(self).token_stack@,
                self.current_token == old(self).current_token,
                self.stack_before == old(self).stack_before,
                self.current_before == old(self).current_before,
                self.stack_before@ == self.token_stack@,
                self.current_before@ == self.current_token,
                start == p,
                p <= self.cursor() <= s.len(),
                forall|i: int| p <= i < self.cursor() ==> lit_char(#[trigger] s[i]),
                valid_lit(s.subrange(p, self.cursor())),
                num == lit_value(s.subrange(p, self.cursor())),
                neg == lit_neg(s.subrange(p, self.cursor())),
                nd == lit_body(s.subrange(p, self.cursor())).len(),
            decreases s.len() - self.cursor(),
        {
            let here = self.cursor_exec();
            let ghost lit = s.subrange(p, here as int);
            let ghost body = lit_body(lit);
            proof {
                lemma_lit_end_bounds(s, here as int);
                lemma_lit_end_skip(s, p, here as int);
            }
            match self.next_byte() {
                None => {
                    proof {
                        lemma_lit_end(s, p, here as int);
                    }
                    self.at = Ghost(self.cursor());
                    return Err(Error { position: self.input.len(), kind: ErrorKind::UnterminatedNumber });
                },
                Some(x) => {
                    let ghost j = lit_end(s, p);
                    let ghost full = s.subrange(p, j);
                    if 48 <= x && x <= 57 {
                        proof {
                            lemma_lit_end_skip(s, p, here + 1);
                            lemma_lit_end_bounds(s, here + 1);
                        }
                        if neg && nd == 0 && x == 48 {
                            proof {
                                assert(lit_body(full)[0] == full[1]);
                            }
                            self.cached_byte = None;
                            self.at = Ghost(self.cursor());
                            return Err(Error { position: here, kind: ErrorKind::NegativeZero });
                        }
                        if nd >= 1 && num == 0 {
                            proof {
                                if body[0] != 48 {
                                    lemma_digits_val_pos(body);
                                }
                                let fb = lit_body(full);
                                if neg {
                                    assert(fb[0] == full[1]);
                                    assert(fb[nd as int] == s[here as int]);
                                } else {
                                    assert(fb[0] == full[0]);
                                }
                                assert(fb[0] == body[0]);
                            }
                            self.at = Ghost(self.cursor());
                            return Err(Error { position: here, kind: ErrorKind::LeadingZero });
                        }
                        let d: i128 = (x - 48) as i128;
                        let next: i128 = if neg {
                            (num as i128) * 10 - d
                        } else {
                            (num as i128) * 10 + d
                        };
                        let ghost lit2 = s.subrange(p, here + 1);
                        proof {
                            if neg {
                                assert(lit2 =~= lit.push(x));
                                assert(lit_body(lit2) =~= body.push(x));
                            } else {
                                assert(lit2 =~= lit.push(x));
                                if lit2[0] == MINUS {
                                    assert(lit2[0] == x);
                                }
                                assert(lit_body(lit2) =~= body.push(x));
                            }
                            lemma_digits_val_push(body, x);
                        }
                        proof {
                            if body.len() >= 1 && body[0] == 48 {
                                assert(body.subrange(0, 0) =~= Seq::<u8>::empty());
                                assert(digits_val(Seq::<u8>::empty()) == 0);
                                assert(digits_val(body) == 0);
                            }
                        }
                        if next < i64::MIN as i128 || next > i64::MAX as i128 {
                            proof {
                                let fb = lit_body(full);
                                let b2 = lit_body(lit2);
                                if all_digits(fb) {
                                    assert(fb.subrange(0, b2.len() as int) =~= b2);
                                    lemma_digits_val_prefix(fb, b2.len() as int);
                                }
                            }
                            self.at = Ghost(self.cursor());
                            return Err(Error { position: here, kind: ErrorKind::IntegerOverflow });
                        }
                        num = next as i64;
                        nd = nd + 1;
                    } else if x == MINUS {
                        if here != start {
                            proof {
                                lemma_lit_end_skip(s, p, here + 1);
                                lemma_lit_end_bounds(s, here + 1);
                                let fb = lit_body(full);
                                if lit_neg(full) {
                                    assert(fb[here - p - 1] == s[here as int]);
                                } else {
                                    assert(fb[here - p] == s[here as int]);
                                }
                            }
                            self.at = Ghost(self.cursor());
                            return Err(Error { position: here, kind: ErrorKind::MisplacedSign });
                        }
                        neg = true;
                        proof {
                            let lit2 = s.subrange(p, here + 1);
                            assert(lit_body(lit2) =~= Seq::<u8>::empty());
                        }
                    } else if x == symbol {
                        proof {
                            lemma_lit_end(s, p, here as int);
                        }
                        self.cached_byte = Some(x);
                        self.at = Ghost(self.cursor());
                        return Ok((num, nd));
                    } else {
                        proof {
                            lemma_lit_end(s, p, here as int);
                        }
                        self.at = Ghost(self.cursor());
                        return Err(Error { position: here, kind: ErrorKind::InvalidInteger });
                    }
                },
            }
        }
    }
}

impl<'a> Lexer<'a> {
    /// Reads exactly `len` raw bytes; fails if fewer remain.
    pub fn read_bytes(&mut self, len: usize) -> (r: Result<Vec<u8>, Error>)
        requires
            old(self).wf(),
            !old(self).peeked(),
        ensures
            final(self).wf(),
            !final(self).peeked(),
            final(self).input() == old(self).input(),
            final(self).stack() == old(self).stack(),
            final(self).current() == old(self).current(),
            r is Ok <==> old(self).pos() + len <= old(self).input().len(),
            r matches Ok(b) ==> {
                &&& b@ == old(self).input().subrange(old(self).pos(), old(self).pos() + len)
                &&& final(self).pos() == old(self).pos() + len
                &&& len > 0 ==> final(self).consumed() == old(self).pos() + len
            },
            r matches Err(e) ==> e.kind == ErrorKind::TruncatedByteString(
                (old(self).input().len() - old(self).pos()) as usize,
            ) && e.position == old(self).input().len(),
    {
        let ghost s = self.input@;
        let ghost p = self.at@;
        let start = self.cursor_exec();
        let mut ret: Vec<u8> = Vec::new();
        let mut k: usize = 0;
        while k < len
            invariant
                self.bytes_ok(),
                self.input@ == s,
                self.input == old(self).input,
                s == old(self).input(),
                s.len() <= usize::MAX,
                p == old(self).pos(),
                self.cached_token is None,
                self.stack_before == old(self).stack_before,
                self.current_before == old(self).current_before,
                self.stack_before@ == self.token_stack@,
                self.current_before@ == self.current_token,
                self.at == old(self).at,
                0 <= p <= s.len(),
                k <= len,
                self.cursor() == p + k,
                self.cursor() <= s.len(),
                ret@ == s.subrange(p, p + k),
                start == p,
                k > 0 ==> self.cached_byte is None,
            decreases len - k,
        {
            match self.next_byte() {
                Some(b) => {
                    ret.push(b);
                    k = k + 1;
                    assert(ret@ =~= s.subrange(p, p + k));
                },
                None => {
                    self.at = Ghost(self.cursor());
                    let available = self.input.len() - start;
                    return Err(Error { position: self.input.len(), kind: ErrorKind::TruncatedByteString(available) });
                },
            }
        }
        self.at = Ghost(self.cursor());
        Ok(ret)
    }

    /// Reads the next token, from the lookahead cache if one waits there.
    pub fn next_token(&mut self) -> (r: Result<Token, Error>)
        requires
            old(self).wf(),
        ensures
            final(self).wf(),
            !final(self).peeked(),
            final(self).input() == old(self).input(),
            r matches Ok(t) ==> lex_step(old(self).input(), old(self).pos(), old(self).stack(), old(self).current())
                == Some((t, final(self).pos(), final(self).stack(), final(self).current())),
            r matches Ok(t) ==> final(self).consumed() == final(self).pos() + if t is Length {
                1int
            } else {
                0int
            },
            r is Err ==> lex_step(old(self).input(), old(self).pos(), old(self).stack(), old(self).current()) is None,
            r matches Err(e) ==> {
                let s = old(self).input();
                let p = old(self).pos();
                let c = s[p];
                &&& p < s.len()
                &&& c == END ==> e.kind == ErrorKind::UnmatchedEnd && e.position == p
                &&& c == COLON ==> e.kind == ErrorKind::MisplacedColon && e.position == p
                &&& is_digit(c) ==> lit_error(s, p, COLON, e)
                &&& !(is_digit(c) || c == INT_BEGIN || c == LIST_BEGIN || c == DICT_BEGIN || c == END || c == COLON)
                    ==> e.kind == ErrorKind::UnknownToken && e.position == p
                &&& p <= e.position <= s.len()
            },
    {
        if let Some(t) = self.cached_token {
            self.cached_token = None;
            self.at = Ghost(self.cursor());
            self.stack_before = Ghost(self.token_stack@);
            self.current_before = Ghost(self.current_token);
            return Ok(t);
        }
        let here = self.cursor_exec();
        let r = match self.next_byte() {
            None => Ok(Token::EndOfInput),
            Some(c) => {
                if c == INT_BEGIN {
                    self.current_token = Some(Token::IntegerBegin);
                    self.token_stack.push(Token::IntegerBegin);
                    Ok(Token::IntegerBegin)
                } else if c == LIST_BEGIN {
                    self.current_token = Some(Token::ListBegin);
                    self.token_stack.push(Token::ListBegin);
                    Ok(Token::ListBegin)
                } else if c == DICT_BEGIN {
                    self.current_token = Some(Token::DictBegin);
                    self.token_stack.push(Token::DictBegin);
                    Ok(Token::DictBegin)
                } else if c == END {
                    match self.token_stack.pop() {
                        Some(Token::IntegerBegin) => {
                            self.current_token = None;
                            Ok(Token::IntegerEnd)
                        },
                        Some(Token::ListBegin) => {
                            self.current_token = None;
                            Ok(Token::ListEnd)
                        },
                        Some(Token::DictBegin) => {
                            self.current_token = None;
                            Ok(Token::DictEnd)
                        },
                        _ => Err(Error { position: here, kind: ErrorKind::UnmatchedEnd }),
                    }
                } else if 48 <= c && c <= 57 {
                    // The digit is the first byte of the length: push it back
                    // and read the whole literal up to the colon.
                    self.cached_byte = Some(c);
                    match self.read_i64_before(COLON) {
                        Ok((v, _)) => {
                            self.current_token = Some(Token::Length(v));
                            Ok(Token::Length(v))
                        },
                        Err(e) => Err(e),
                    }
                } else if c == COLON {
                    match self.current_token {
                        Some(Token::Length(_)) => {
                            self.current_token = Some(Token::Colon);
                            Ok(Token::Colon)
                        },
                        _ => Err(Error { position: here, kind: ErrorKind::MisplacedColon }),
                    }
                } else {
                    Err(Error { position: here, kind: ErrorKind::UnknownToken })
                }
            },
        };
        proof {
            if let Err(e) = r {
                if 48 <= self.input@[here as int] && self.input@[here as int] <= 57 {
                    lemma_lit_error_bounds(self.input@, here as int, COLON, e);
                }
            }
        }
        self.at = Ghost(self.cursor());
        self.stack_before = Ghost(self.token_stack@);
        self.current_before = Ghost(self.current_token);
        r
    }

    /// The next token, left in the lookahead cache so that the following
    /// `next_token` returns it; the lexer's position does not move.
    pub fn look_ahead(&mut self) -> (r: Result<Token, Error>)
        requires
            old(self).wf(),
        ensures
            final(self).wf(),
            final(self).input() == old(self).input(),
            r matches Ok(t) ==> {
                &&& lex_step(old(self).input(), old(self).pos(), old(self).stack(), old(self).current()) matches Some(
                    x,
                ) && x.0 == t && final(self).consumed() == x.1 + if t is Length {
                    1int
                } else {
                    0int
                }
                &&& final(self).peeked()
                &&& final(self).pos() == old(self).pos()
                &&& final(self).stack() == old(self).stack()
                &&& final(self).current() == old(self).current()
            },
            r is Err ==> lex_step(old(self).input(), old(self).pos(), old(self).stack(), old(self).current()) is None,
            r matches Err(e) ==> {
                let s = old(self).input();
                let p = old(self).pos();
                let c = s[p];
                &&& p < s.len()
                &&& c == END ==> e.kind == ErrorKind::UnmatchedEnd && e.position == p
                &&& c == COLON ==> e.kind == ErrorKind::MisplacedColon && e.position == p
                &&& is_digit(c) ==> lit_error(s, p, COLON, e)
                &&& !(is_digit(c) || c == INT_BEGIN || c == LIST_BEGIN || c == DICT_BEGIN || c == END || c == COLON)
                    ==> e.kind == ErrorKind::UnknownToken && e.position == p
                &&& p <= e.position <= s.len()
            },
    {
        if let Some(t) = self.cached_token {
            return Ok(t);
        }
        let here = self.cursor_exec();
        let ghost at = self.at@;
        let ghost st = self.stack_before@;
        let ghost cur = self.current_before@;
        match self.next_token() {
            Ok(t) => {
                self.cached_token = Some(t);
                self.token_at = here;
                self.at = Ghost(at);
                self.stack_before = Ghost(st);
                self.current_before = Ghost(cur);
                Ok(t)
            },
            Err(e) => Err(e),
        }
    }
}

impl<'a> Lexer<'a> {
    /// The offset of the next token: where the caller stands in the input.
    pub fn offset(&self) -> (r: usize)
        requires
            self.wf(),
        ensures
            r == self.pos(),
    {
        match self.cached_token {
            Some(_) => self.token_at,
            None => self.cursor_exec(),
        }
    }
}

impl<'a> Lexer<'a> {
    /// The length of the input.
    pub fn input_len(&self) -> (r: usize)
        ensures
            r == self.input().len(),
    {
        self.input.len()
    }
}

} // verus!
