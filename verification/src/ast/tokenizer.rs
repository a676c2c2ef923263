//! The lexer: a total map from source bytes to tagged tokens.

use vstd::prelude::*;
use vstd::math::min;

verus! {

/// One token per source byte. Bytes outside the eight-symbol alphabet become
/// inert `Nop` tokens that keep the original byte.
#[derive(Clone, Copy, Debug, PartialEq, Eq, Structural)]
pub enum Token {
    IncPtr,
    DecPtr,
    Inc,
    Dec,
    Out,
    In,
    JmpFwd,
    JmpBck,
    Nop(u8),
}

/// The token a source byte denotes. Total: unrecognized bytes map to `Nop`.
pub open spec fn token_of(b: u8) -> Token {
    if b == 62 {
        Token::IncPtr
    } else if b == 60 {
        Token::DecPtr
    } else if b == 43 {
        Token::Inc
    } else if b == 45 {
        Token::Dec
    } else if b == 46 {
        Token::Out
    } else if b == 44 {
        Token::In
    } else if b == 91 {
        Token::JmpFwd
    } else if b == 93 {
        Token::JmpBck
    } else {
        Token::Nop(b)
    }
}

/// The source byte a token denotes; `Nop` yields its preserved byte.
pub open spec fn byte_of(t: Token) -> u8 {
    match t {
        Token::IncPtr => 62,
        Token::DecPtr => 60,
        Token::Inc => 43,
        Token::Dec => 45,
        Token::Out => 46,
        Token::In => 44,
        Token::JmpFwd => 91,
        Token::JmpBck => 93,
        Token::Nop(b) => b,
    }
}

impl Token {
    /// Lexes one byte.
    pub fn from_byte(b: u8) -> (t: Token)
        ensures
            t == token_of(b),
    {
        if b == 62 {
            Token::IncPtr
        } else if b == 60 {
            Token::DecPtr
        } else if b == 43 {
            Token::Inc
        } else if b == 45 {
            Token::Dec
        } else if b == 46 {
            Token::Out
        } else if b == 44 {
            Token::In
        } else if b == 91 {
            Token::JmpFwd
        } else if b == 93 {
            Token::JmpBck
        } else {
            Token::Nop(b)
        }
    }

    /// Renders the token back as a byte.
    pub fn to_byte(self) -> (b: u8)
        ensures
            b == byte_of(self),
    {
        match self {
            Token::IncPtr => 62,
            Token::DecPtr => 60,
            Token::Inc => 43,
            Token::Dec => 45,
            Token::Out => 46,
            Token::In => 44,
            Token::JmpFwd => 91,
            Token::JmpBck => 93,
            Token::Nop(b) => b,
        }
    }
}

/// The token stream of a byte sequence.
pub open spec fn tokens_of(src: Seq<u8>) -> Seq<Token> {
    src.map_values(|b: u8| token_of(b))
}

/// An ordered token stream, produced once per run from the source bytes.
pub struct Tokenizer(Vec<Token>);

impl View for Tokenizer {
    type V = Seq<Token>;

    closed spec fn view(&self) -> Seq<Token> {
        self.0@
    }
}

impl Tokenizer {
    /// Wraps an already-lexed token stream.
    pub fn new(tokens: Vec<Token>) -> (t: Tokenizer)
        ensures
            t@ == tokens@,
    {
        Tokenizer(tokens)
    }

    /// Surrenders the token stream.
    pub fn inner(self) -> (r: Vec<Token>)
        ensures
            r@ == self@,
    {
        self.0
    }

    /// Lexes a whole source: one token per byte, in order.
    pub fn from_bytes(bytes: &Vec<u8>) -> (t: Tokenizer)
        ensures
            t@ == tokens_of(bytes@),
    {
        let mut tokens: Vec<Token> = Vec::new();
        let mut i: usize = 0;
        while i < bytes.len()
            invariant
                i <= bytes@.len(),
                tokens@ == tokens_of(bytes@.take(i as int)),
            decreases bytes@.len() - i,
        {
            tokens.push(Token::from_byte(bytes[i]));
            proof {
                assert(bytes@.take(i + 1).drop_last() =~= bytes@.take(i as int));
                assert(tokens@ =~= tokens_of(bytes@.take(i + 1)));
            }
            i = i + 1;
        }
        proof {
            assert(bytes@.take(bytes@.len() as int) =~= bytes@);
        }
        Tokenizer(tokens)
    }

    /// Lexes `buf` and appends the tokens; reports the new stream length.
    pub fn write(&mut self, buf: &Vec<u8>) -> (n: usize)
        ensures
            final(self)@ == old(self)@ + tokens_of(buf@),
            n == final(self)@.len(),
    {
        let mut i: usize = 0;
        while i < buf.len()
            invariant
                i <= buf@.len(),
                self@ == old(self)@ + tokens_of(buf@.take(i as int)),
            decreases buf@.len() - i,
        {
            self.0.push(Token::from_byte(buf[i]));
            proof {
                assert(buf@.take(i + 1).drop_last() =~= buf@.take(i as int));
                assert(self@ =~= old(self)@ + tokens_of(buf@.take(i + 1)));
            }
            i = i + 1;
        }
        proof {
            assert(buf@.take(buf@.len() as int) =~= buf@);
        }
        self.0.len()
    }

    /// Discards the whole stream.
    pub fn flush(&mut self)
        ensures
            final(self)@ == Seq::<Token>::empty(),
    {
        self.0 = Vec::new();
    }

    /// Removes up to `n` leading tokens and renders them as bytes.
    pub fn read(&mut self, n: usize) -> (out: Vec<u8>)
        ensures
            out@ == old(self)@.take(min(n as int, old(self)@.len() as int)).map_values(
                |t: Token| byte_of(t),
            ),
            final(self)@ == old(self)@.skip(min(n as int, old(self)@.len() as int)),
    {
        let k = if n < self.0.len() {
            n
        } else {
            self.0.len()
        };
        let mut out: Vec<u8> = Vec::new();
        let mut i: usize = 0;
        while i < k
            invariant
                i <= k,
                k == min(n as int, old(self)@.len() as int),
                self@ == old(self)@,
                k <= self@.len(),
                out@ == old(self)@.take(i as int).map_values(|t: Token| byte_of(t)),
            decreases k - i,
        {
            out.push(self.0[i].to_byte());
            proof {
                assert(old(self)@.take(i + 1).drop_last() =~= old(self)@.take(i as int));
                assert(out@ =~= old(self)@.take(i + 1).map_values(|t: Token| byte_of(t)));
            }
            i = i + 1;
        }
        let mut rest: Vec<Token> = Vec::new();
        let mut j: usize = k;
        while j < self.0.len()
            invariant
                k <= j <= self@.len(),
                self@ == old(self)@,
                k == min(n as int, old(self)@.len() as int),
                rest@ == old(self)@.subrange(k as int, j as int),
            decreases self@.len() - j,
        {
            rest.push(self.0[j]);
            proof {
                assert(rest@ =~= old(self)@.subrange(k as int, j + 1));
            }
            j = j + 1;
        }
        proof {
            assert(old(self)@.subrange(k as int, old(self)@.len() as int) =~= old(self)@.skip(
                k as int,
            ));
        }
        self.0 = rest;
        out
    }
}

} // verus!
