//! Bencode tokens from the `bendy` decoder, and the reading of values from them
//! the way `bendy`'s object interface hands them out.
use vstd::prelude::*;
use bendy::decoding::Decoder;
use bendy::state_tracker::Token as RawToken;
use crate::bencode::{all_digits, digits_value, is_digit, lemma_digits_prefix};

verus! {

/// A bencode token as plain values.
#[derive(Debug, Clone, PartialEq, Eq)]
pub enum Token {
    /// The start of a list.
    List,
    /// The start of a dictionary.
    Dict,
    /// A byte string.
    Bytes(Vec<u8>),
    /// An integer, as the bytes of its numeral.
    Num(Vec<u8>),
    /// The end of a list or dictionary.
    End,
    /// The decoder stopped here, with this message.
    Error(String),
}

/// A token with its contents as sequences.
pub enum TokenView {
    List,
    Dict,
    Bytes(Seq<u8>),
    Num(Seq<u8>),
    End,
    Error(Seq<char>),
}

pub open spec fn token_view(t: Token) -> TokenView {
    match t {
        Token::List => TokenView::List,
        Token::Dict => TokenView::Dict,
        Token::Bytes(b) => TokenView::Bytes(b@),
        Token::Num(n) => TokenView::Num(n@),
        Token::End => TokenView::End,
        Token::Error(m) => TokenView::Error(m@),
    }
}

pub open spec fn token_views(ts: Seq<Token>) -> Seq<TokenView> {
    Seq::new(ts.len(), |i: int| token_view(ts[i]))
}

/// The tokens that `bendy`'s decoder reads from `data`.
pub uninterp spec fn bendy_tokens(data: Seq<u8>) -> Seq<TokenView>;

/// `Decoder::new(data).tokens()` of `bendy`, collected: the tokens of `data` in
/// order, each error reported by its message; the decoder stops after the first.
#[verifier::external_body]
pub(crate) fn decode_tokens(data: &[u8]) -> (tokens: Vec<Token>)
    ensures
        token_views(tokens@) == bendy_tokens(data@),
{
    let mut tokens = Vec::new();
    for item in Decoder::new(data).tokens() {
        tokens.push(match item {
            Ok(RawToken::List) => Token::List,
            Ok(RawToken::Dict) => Token::Dict,
            Ok(RawToken::String(bytes)) => Token::Bytes(bytes.to_vec()),
            Ok(RawToken::Num(digits)) => Token::Num(digits.as_bytes().to_vec()),
            Ok(RawToken::End) => Token::End,
            Err(err) => Token::Error(err.to_string()),
        });
    }
    tokens
}

/// The message of `bendy`'s error for a value of kind `discovered` where one of
/// kind `expected` was asked for. `bendy` prints the two kinds the other way round:
/// its message names the expected kind as the one discovered.
pub open spec fn unexpected_token_text(expected: Seq<char>, discovered: Seq<char>) -> Seq<char> {
    "Error: discovered "@ + expected + " but expected "@ + discovered
}

/// `bendy::decoding::Error::unexpected_token(expected, discovered)`, as the text that
/// it displays: `Error: ` and then its kind's message, `discovered {expected} but
/// expected {discovered}`.
#[verifier::external_body]
pub(crate) fn unexpected_token_message(expected: &str, discovered: &str) -> (s: String)
    ensures
        s@ == unexpected_token_text(expected@, discovered@),
{
    bendy::decoding::Error::unexpected_token(expected, discovered).to_string()
}

/// The name that `bendy` gives the kind of a token.
pub open spec fn kind_name(t: TokenView) -> Seq<char> {
    match t {
        TokenView::List => "List"@,
        TokenView::Dict => "Dict"@,
        TokenView::Bytes(_) => "String"@,
        TokenView::Num(_) => "Num"@,
        _ => "End"@,
    }
}

pub fn token_kind_name(t: &Token) -> (s: &'static str)
    ensures
        s@ == kind_name(token_view(*t)),
{
    match t {
        Token::List => "List",
        Token::Dict => "Dict",
        Token::Bytes(_) => "String",
        Token::Num(_) => "Num",
        _ => "End",
    }
}

/// The message for the token `t` where a value of kind `expected` was asked for.
pub fn unexpected(expected: &str, t: &Token) -> (s: String)
    ensures
        s@ == unexpected_token_text(expected@, kind_name(token_view(*t))),
{
    unexpected_token_message(expected, token_kind_name(t))
}

/// What stands at the position `q` where a value must start: `Ok` for a value,
/// the decoder's message, or `None` where no well-formed stream can stop or end.
pub open spec fn value_start(ts: Seq<TokenView>, q: int) -> Result<(), Option<Seq<char>>> {
    if q < 0 || q >= ts.len() {
        Err(None)
    } else {
        match ts[q] {
            TokenView::Error(m) => Err(Some(m)),
            TokenView::End => Err(None),
            _ => Ok(()),
        }
    }
}

/// The position after the value that is `depth` containers deep at `p`: how
/// dropping an unread value consumes it.
pub open spec fn skip_from(ts: Seq<TokenView>, p: int, depth: nat) -> Result<int, Option<Seq<char>>>
    decreases ts.len() - p,
{
    if p < 0 || p >= ts.len() {
        Err(None)
    } else {
        match ts[p] {
            TokenView::Error(m) => Err(Some(m)),
            TokenView::List => skip_from(ts, p + 1, depth + 1),
            TokenView::Dict => skip_from(ts, p + 1, depth + 1),
            TokenView::End => if depth == 0 {
                Err(None)
            } else if depth == 1 {
                Ok(p + 1)
            } else {
                skip_from(ts, p + 1, (depth - 1) as nat)
            },
            _ => if depth == 0 {
                Ok(p + 1)
            } else {
                skip_from(ts, p + 1, depth)
            },
        }
    }
}

pub open spec fn skip_value(ts: Seq<TokenView>, p: int) -> Result<int, Option<Seq<char>>> {
    skip_from(ts, p, 0)
}

/// A skipped value ends past where it starts, and within the stream.
pub proof fn lemma_skip_from_advances(ts: Seq<TokenView>, p: int, depth: nat)
    ensures
        skip_from(ts, p, depth) matches Ok(e) ==> p < e <= ts.len(),
    decreases ts.len() - p,
{
    if 0 <= p < ts.len() {
        match ts[p] {
            TokenView::List => lemma_skip_from_advances(ts, p + 1, depth + 1),
            TokenView::Dict => lemma_skip_from_advances(ts, p + 1, depth + 1),
            TokenView::End => if depth > 1 {
                lemma_skip_from_advances(ts, p + 1, (depth - 1) as nat);
            },
            TokenView::Error(_) => {},
            _ => if depth > 0 {
                lemma_skip_from_advances(ts, p + 1, depth);
            },
        }
    }
}

/// Checks what stands where a value must start.
pub fn check_value_start(ts: &[Token], q: usize) -> (r: Result<(), Option<String>>)
    ensures
        match value_start(token_views(ts@), q as int) {
            Ok(()) => r is Ok,
            Err(None) => r matches Err(None),
            Err(Some(m)) => r matches Err(Some(x)) && x@ == m,
        },
{
    if q >= ts.len() {
        return Err(None);
    }
    match &ts[q] {
        Token::Error(m) => Err(Some(m.clone())),
        Token::End => Err(None),
        _ => Ok(()),
    }
}

/// Skips the value at `p`, returning the position after it.
pub fn skip(ts: &[Token], p: usize) -> (r: Result<usize, Option<String>>)
    ensures
        match skip_value(token_views(ts@), p as int) {
            Ok(e) => r == Ok::<usize, Option<String>>(e as usize),
            Err(None) => r matches Err(None),
            Err(Some(m)) => r matches Err(Some(x)) && x@ == m,
        },
{
    let ghost views = token_views(ts@);
    let mut depth: usize = 0;
    let mut i: usize = p;
    while i < ts.len()
        invariant
            p <= i,
            depth <= i - p,
            views == token_views(ts@),
            skip_value(views, p as int) == skip_from(views, i as int, depth as nat),
            i > p ==> depth > 0,
        decreases ts.len() - i,
    {
        match &ts[i] {
            Token::Error(m) => {
                return Err(Some(m.clone()));
            },
            Token::List | Token::Dict => {
                depth = depth + 1;
            },
            Token::End => {
                if depth == 0 {
                    return Err(None);
                } else if depth == 1 {
                    return Ok(i + 1);
                }
                depth = depth - 1;
            },
            _ => {
                if depth == 0 {
                    return Ok(i + 1);
                }
            },
        }
        i += 1;
    }
    Err(None)
}

/// The digits of an unsigned numeral: what follows a leading `+`, if any.
pub open spec fn unsigned_digits(s: Seq<u8>) -> Seq<u8> {
    if s.len() > 0 && s[0] == 43 {
        s.skip(1)
    } else {
        s
    }
}

/// Parsing `s` as a `u64` the way `str::parse` does: an optional `+`, then at least
/// one decimal digit, with the value in range.
pub open spec fn parse_u64_text(s: Seq<u8>) -> Option<u64> {
    let digits = unsigned_digits(s);
    if digits.len() == 0 || !all_digits(digits) {
        None
    } else if digits_value(digits) > u64::MAX {
        None
    } else {
        Some(digits_value(digits) as u64)
    }
}

/// Parses the numeral `s` as a `u64`.
pub fn parse_u64(s: &[u8]) -> (r: Option<u64>)
    ensures
        r == parse_u64_text(s@),
{
    let first: usize = if s.len() > 0 && s[0] == 43 {
        1
    } else {
        0
    };
    let ghost digits = s@.skip(first as int);
    assert(digits == unsigned_digits(s@));
    if first == s.len() {
        return None;
    }
    let mut value: u64 = 0;
    let mut i: usize = first;
    while i < s.len()
        invariant
            first <= i <= s@.len(),
            digits == s@.skip(first as int),
            digits == unsigned_digits(s@),
            forall|j: int| 0 <= j < i - first ==> is_digit(#[trigger] digits[j]),
            value == digits_value(digits.take(i - first)),
        decreases s.len() - i,
    {
        let c = s[i];
        assert(digits[i - first] == s@[i as int]);
        if c < 48 || c > 57 {
            assert(!is_digit(digits[i - first]));
            return None;
        }
        assert(digits.take(i - first + 1).drop_last() =~= digits.take(i - first));
        let d: u64 = (c - 48) as u64;
        if value > (u64::MAX - d) / 10 {
            proof {
                assert(digits_value(digits.take(i - first + 1)) == value * 10 + d);
                assert(value * 10 + d > u64::MAX) by (nonlinear_arith)
                    requires
                        value > (u64::MAX - d) / 10,
                        d <= 9,
                ;
                if forall|j: int| 0 <= j < digits.len() ==> is_digit(#[trigger] digits[j]) {
                    lemma_digits_prefix(digits, i - first + 1);
                    assert(digits_value(digits) > u64::MAX);
                }
            }
            return None;
        }
        value = value * 10 + d;
        i += 1;
    }
    assert(digits.take(digits.len() as int) =~= digits);
    Some(value)
}

} // verus!
