//! Measuring bencode values in raw bytes, and the torrent info hash.
use vstd::prelude::*;
use crate::hashing::{sha1, sha1_digest};
use crate::text::{string_of, push_decimal, decimal};
use crate::bytes::bytes_equal;
use crate::utf8::utf8_valid;
use vstd::utf8::valid_utf8;

verus! {

/// Why a bencode value could not be measured, or the info dictionary found.
#[derive(Debug, Clone, Copy, PartialEq, Eq)]
pub enum BencodeError {
    Empty,
    UnterminatedInteger,
    UnterminatedList,
    UnterminatedDictionary,
    InvalidStringLength,
    InvalidLengthDigits,
    InvalidLengthValue,
    UnexpectedPrefix(u8),
    /// A byte string says it is longer than what is left of the input.
    TruncatedString,
    MissingInfo,
}

impl BencodeError {
    pub open spec fn spec_message(self) -> Seq<char> {
        match self {
            BencodeError::Empty => "empty bencode input"@,
            BencodeError::UnterminatedInteger => "unterminated bencode integer"@,
            BencodeError::UnterminatedList => "unterminated bencode list"@,
            BencodeError::UnterminatedDictionary => "unterminated bencode dictionary"@,
            BencodeError::InvalidStringLength => "invalid bencode string length"@,
            BencodeError::InvalidLengthDigits => "invalid bencode string length digits"@,
            BencodeError::InvalidLengthValue => "invalid bencode string length value"@,
            BencodeError::UnexpectedPrefix(b) => "unexpected bencode prefix: "@ + decimal(b as nat),
            BencodeError::TruncatedString => "bencode string runs past the end of the input"@,
            BencodeError::MissingInfo => "torrent file is missing the info dictionary"@,
        }
    }

    /// The error's message.
    pub fn to_string(&self) -> (s: String)
        ensures
            s@ == self.spec_message(),
    {
        match self {
            BencodeError::Empty => string_of("empty bencode input"),
            BencodeError::UnterminatedInteger => string_of("unterminated bencode integer"),
            BencodeError::UnterminatedList => string_of("unterminated bencode list"),
            BencodeError::UnterminatedDictionary => string_of("unterminated bencode dictionary"),
            BencodeError::InvalidStringLength => string_of("invalid bencode string length"),
            BencodeError::InvalidLengthDigits => string_of("invalid bencode string length digits"),
            BencodeError::InvalidLengthValue => string_of("invalid bencode string length value"),
            BencodeError::UnexpectedPrefix(b) => {
                let mut s = string_of("unexpected bencode prefix: ");
                push_decimal(&mut s, *b as u64);
                s
            },
            BencodeError::TruncatedString => string_of("bencode string runs past the end of the input"),
            BencodeError::MissingInfo => string_of("torrent file is missing the info dictionary"),
        }
    }
}

/// The index of the first `b` in `d`.
pub open spec fn first_index(d: Seq<u8>, b: u8) -> Option<int>
    decreases d.len(),
{
    if d.len() == 0 {
        None
    } else if d[0] == b {
        Some(0)
    } else {
        match first_index(d.drop_first(), b) {
            Some(i) => Some(i + 1),
            None => None,
        }
    }
}

/// The first `b` is at `i` when none comes before it; none is there when none is anywhere.
pub proof fn lemma_first_index(d: Seq<u8>, b: u8, i: int)
    requires
        0 <= i <= d.len(),
        forall|j: int| 0 <= j < i ==> d[j] != b,
    ensures
        i < d.len() && d[i] == b ==> first_index(d, b) == Some(i),
        i == d.len() ==> first_index(d, b) is None,
    decreases d.len(),
{
    if d.len() > 0 && i > 0 {
        assert forall|j: int| 0 <= j < i - 1 implies d.drop_first()[j] != b by {
            assert(d.drop_first()[j] == d[j + 1]);
        }
        lemma_first_index(d.drop_first(), b, i - 1);
    }
}

pub open spec fn is_digit(b: u8) -> bool {
    48 <= b <= 57
}

/// Whether every byte of `s` is a decimal digit.
pub open spec fn all_digits(s: Seq<u8>) -> bool {
    forall|i: int| 0 <= i < s.len() ==> is_digit(#[trigger] s[i])
}

/// The number written by the decimal digits `s`.
pub open spec fn digits_value(s: Seq<u8>) -> int
    decreases s.len(),
{
    if s.len() == 0 {
        0
    } else {
        digits_value(s.drop_last()) * 10 + (s.last() - 48)
    }
}

/// Parsing `s` as a `usize`: `s` must be a nonempty run of decimal digits whose value
/// fits in a `usize`.
pub open spec fn parse_usize(s: Seq<u8>) -> Option<usize> {
    if s.len() > 0 && (forall|i: int| 0 <= i < s.len() ==> is_digit(#[trigger] s[i])) && digits_value(s)
        <= usize::MAX {
        Some(digits_value(s) as usize)
    } else {
        None
    }
}

/// What measuring a bencode value can come to: its length, an error, or a length
/// that does not fit in a `usize`, which no input held in memory comes to
/// (`lemma_scan_value_len`).
pub enum Scan {
    Len(int),
    Fail(BencodeError),
    Crash,
}

/// How much of `d` is left to scan from `offset`.
pub open spec fn items_measure(d: Seq<u8>, offset: int) -> int {
    if offset <= d.len() {
        d.len() + 1 - offset
    } else {
        0
    }
}

/// The outcome of measuring the bencode value at the start of `d`.
pub open spec fn scan_value(d: Seq<u8>) -> Scan
    decreases d.len(), d.len() + 2,
{
    if d.len() == 0 {
        Scan::Fail(BencodeError::Empty)
    } else if d[0] == 105 {
        // 'i'
        match first_index(d, 101) {
            Some(end) => Scan::Len(end + 1),
            None => Scan::Fail(BencodeError::UnterminatedInteger),
        }
    } else if d[0] == 108 {
        // 'l'
        scan_items(d, 1, false)
    } else if d[0] == 100 {
        // 'd'
        scan_items(d, 1, true)
    } else if is_digit(d[0]) {
        match first_index(d, 58) {
            None => Scan::Fail(BencodeError::InvalidStringLength),
            Some(colon) => {
                if !valid_utf8(d.take(colon)) {
                    Scan::Fail(BencodeError::InvalidLengthDigits)
                } else {
                    match parse_usize(d.take(colon)) {
                        None => Scan::Fail(BencodeError::InvalidLengthValue),
                        Some(len) => {
                            if colon + 1 + len > d.len() {
                                Scan::Fail(BencodeError::TruncatedString)
                            } else {
                                Scan::Len(colon + 1 + len)
                            }
                        },
                    }
                }
            },
        }
    } else {
        Scan::Fail(BencodeError::UnexpectedPrefix(d[0]))
    }
}

/// The outcome of measuring the items of a list (or, when `dict`, the key-value pairs
/// of a dictionary) that start at `offset` in `d`.
pub open spec fn scan_items(d: Seq<u8>, offset: int, dict: bool) -> Scan
    decreases d.len(), items_measure(d, offset),
{
    if offset < 1 {
        Scan::Crash
    } else if offset < d.len() && d[offset] != 101 {
        match scan_value(d.skip(offset)) {
            Scan::Len(n) => {
                let o1 = offset + n;
                if n < 1 || o1 > usize::MAX {
                    Scan::Crash
                } else if !dict {
                    scan_items(d, o1, dict)
                } else if o1 > d.len() {
                    Scan::Crash
                } else {
                    match scan_value(d.skip(o1)) {
                        Scan::Len(n2) => {
                            if n2 < 1 || o1 + n2 > usize::MAX {
                                Scan::Crash
                            } else {
                                scan_items(d, o1 + n2, dict)
                            }
                        },
                        other => other,
                    }
                }
            },
            other => other,
        }
    } else if offset < d.len() {
        Scan::Len(offset + 1)
    } else if dict {
        Scan::Fail(BencodeError::UnterminatedDictionary)
    } else {
        Scan::Fail(BencodeError::UnterminatedList)
    }
}

pub open spec fn spec_value_len(d: Seq<u8>) -> Result<usize, BencodeError> {
    match scan_value(d) {
        Scan::Len(n) => Ok(n as usize),
        Scan::Fail(e) => Err(e),
        Scan::Crash => Err(BencodeError::Empty),
    }
}

/// A measured value is at least one byte long and lies within the input, and
/// measuring an input held in memory always comes to a length or an error.
pub proof fn lemma_scan_value_len(d: Seq<u8>)
    requires
        d.len() <= usize::MAX,
    ensures
        !(scan_value(d) is Crash),
        scan_value(d) matches Scan::Len(n) ==> 1 <= n <= d.len(),
    decreases d.len(), d.len() + 2,
{
    if d.len() > 0 {
        if d[0] == 105 {
            lemma_first_index_bound(d, 101);
        } else if is_digit(d[0]) {
            lemma_first_index_bound(d, 58);
        } else if d[0] == 108 {
            lemma_scan_items_len(d, 1, false);
        } else if d[0] == 100 {
            lemma_scan_items_len(d, 1, true);
        }
    }
}

/// Measured list or dictionary items end past `offset` and within the input, and
/// measuring them never comes to `Crash`.
pub proof fn lemma_scan_items_len(d: Seq<u8>, offset: int, dict: bool)
    requires
        d.len() <= usize::MAX,
        1 <= offset,
    ensures
        !(scan_items(d, offset, dict) is Crash),
        scan_items(d, offset, dict) matches Scan::Len(n) ==> offset < n <= d.len(),
    decreases d.len(), items_measure(d, offset),
{
    if offset < d.len() && d[offset] != 101 {
        lemma_scan_value_len(d.skip(offset));
        if let Scan::Len(n) = scan_value(d.skip(offset)) {
            let o1 = offset + n;
            if !dict {
                lemma_scan_items_len(d, o1, dict);
            } else {
                lemma_scan_value_len(d.skip(o1));
                if let Scan::Len(n2) = scan_value(d.skip(o1)) {
                    lemma_scan_items_len(d, o1 + n2, dict);
                }
            }
        }
    }
}

/// A first index found holds `b`, and no `b` comes before it.
pub proof fn lemma_first_index_bound(d: Seq<u8>, b: u8)
    ensures
        first_index(d, b) matches Some(i) ==> 0 <= i < d.len() && d[i] == b && forall|j: int| 0 <= j < i ==> d[j] != b,
    decreases d.len(),
{
    if d.len() > 0 && d[0] != b {
        lemma_first_index_bound(d.drop_first(), b);
        if let Some(i) = first_index(d.drop_first(), b) {
            assert forall|j: int| 0 <= j < i + 1 implies d[j] != b by {
                if j > 0 {
                    assert(d[j] == d.drop_first()[j - 1]);
                }
            }
        }
    }
}

/// The index of the first `b` at or after `from` in `data`, if any.
pub(crate) fn find_byte(data: &[u8], from: usize, b: u8) -> (r: Option<usize>)
    requires
        from <= data@.len(),
    ensures
        r matches Some(i) ==> from <= i < data@.len() && first_index(data@.skip(from as int), b) == Some(i - from),
        r is None ==> first_index(data@.skip(from as int), b) is None,
{
    let ghost d = data@.skip(from as int);
    let mut i = from;
    while i < data.len()
        invariant
            from <= i <= data@.len(),
            d == data@.skip(from as int),
            forall|j: int| 0 <= j < i - from ==> d[j] != b,
        decreases data.len() - i,
    {
        if data[i] == b {
            proof {
                lemma_first_index(d, b, i - from);
            }
            return Some(i);
        }
        i += 1;
    }
    proof {
        lemma_first_index(d, b, i - from);
    }
    None
}

/// A prefix of a run of digits is worth no more than the whole run.
pub proof fn lemma_digits_prefix(s: Seq<u8>, i: int)
    requires
        0 <= i <= s.len(),
        forall|j: int| 0 <= j < s.len() ==> is_digit(#[trigger] s[j]),
    ensures
        0 <= digits_value(s.take(i)) <= digits_value(s),
    decreases s.len(),
{
    if s.len() > 0 {
        assert forall|j: int| 0 <= j < s.drop_last().len() implies is_digit(#[trigger] s.drop_last()[j]) by {
            assert(s.drop_last()[j] == s[j]);
        }
        if i < s.len() {
            assert(s.drop_last().take(i) =~= s.take(i));
            lemma_digits_prefix(s.drop_last(), i);
        } else {
            assert(s.take(i) =~= s);
            lemma_digits_prefix(s.drop_last(), i - 1);
            assert(s.drop_last().take(i - 1) =~= s.drop_last());
        }
    }
}

/// Parses `data[from..to]` as a decimal `usize`.
fn parse_usize_range(data: &[u8], from: usize, to: usize) -> (r: Option<usize>)
    requires
        from <= to <= data@.len(),
    ensures
        r == parse_usize(data@.subrange(from as int, to as int)),
{
    let ghost s = data@.subrange(from as int, to as int);
    if from == to {
        return None;
    }
    let mut value: usize = 0;
    let mut i = from;
    while i < to
        invariant
            from <= i <= to <= data@.len(),
            s == data@.subrange(from as int, to as int),
            forall|j: int| 0 <= j < i - from ==> is_digit(#[trigger] s[j]),
            value == digits_value(s.take(i - from)),
        decreases to - i,
    {
        let c = data[i];
        if c < 48 || c > 57 {
            assert(!is_digit(s[i - from]));
            return None;
        }
        assert(s.take(i - from + 1).drop_last() =~= s.take(i - from));
        let d: usize = (c - 48) as usize;
        if value > (usize::MAX - d) / 10 {
            proof {
                assert(digits_value(s.take(i - from + 1)) == value * 10 + d);
                assert(value * 10 + d > usize::MAX) by (nonlinear_arith)
                    requires
                        value > (usize::MAX - d) / 10,
                        d <= 9,
                ;
                let ghost rest_digits = forall|j: int| 0 <= j < s.len() ==> is_digit(#[trigger] s[j]);
                if rest_digits {
                    lemma_digits_prefix(s, i - from + 1);
                }
            }
            return None;
        }
        value = value * 10 + d;
        i += 1;
    }
    assert(s.take(s.len() as int) =~= s);
    Some(value)
}

/// The outcome of `scan_value` as an exec result: `Err(None)` for `Crash`.
pub open spec fn scan_result(s: Scan) -> Result<usize, Option<BencodeError>> {
    match s {
        Scan::Len(n) => Ok(n as usize),
        Scan::Fail(e) => Err(Some(e)),
        Scan::Crash => Err(None),
    }
}

/// Measures the bencode value at `data[start..]`.
pub(crate) fn value_len_at(data: &[u8], start: usize) -> (r: Result<usize, Option<BencodeError>>)
    requires
        start <= data@.len(),
    ensures
        r == scan_result(scan_value(data@.skip(start as int))),
        r matches Ok(n) ==> n >= 1,
    decreases data@.len() - start, 1int,
{
    let ghost d = data@.skip(start as int);
    proof {
        assert(d.len() == data.len() - start);
        lemma_scan_value_len(d);
    }
    if start == data.len() {
        return Err(Some(BencodeError::Empty));
    }
    let first = data[start];
    assert(first == d[0]);
    if first == 105 {
        match find_byte(data, start, 101) {
            Some(end) => Ok(end - start + 1),
            None => Err(Some(BencodeError::UnterminatedInteger)),
        }
    } else if first == 108 {
        items_len_at(data, start, false)
    } else if first == 100 {
        items_len_at(data, start, true)
    } else if first >= 48 && first <= 57 {
        let colon = match find_byte(data, start, 58) {
            Some(c) => c,
            None => {
                return Err(Some(BencodeError::InvalidStringLength));
            },
        };
        proof {
            lemma_first_index_bound(d, 58);
        }
        assert(data@.subrange(start as int, colon as int) =~= d.take(colon - start));
        if !utf8_valid(&data[start..colon]) {
            return Err(Some(BencodeError::InvalidLengthDigits));
        }
        let len = match parse_usize_range(data, start, colon) {
            Some(n) => n,
            None => {
                return Err(Some(BencodeError::InvalidLengthValue));
            },
        };
        if len > data.len() - colon - 1 {
            return Err(Some(BencodeError::TruncatedString));
        }
        Ok(colon - start + 1 + len)
    } else {
        Err(Some(BencodeError::UnexpectedPrefix(first)))
    }
}

/// Measures the list (or, when `dict`, dictionary) that starts at `data[start]`.
fn items_len_at(data: &[u8], start: usize, dict: bool) -> (r: Result<usize, Option<BencodeError>>)
    requires
        start < data@.len(),
    ensures
        r == scan_result(scan_items(data@.skip(start as int), 1, dict)),
    decreases data@.len() - start, 0int,
{
    let ghost d = data@.skip(start as int);
    let ghost outcome = scan_items(d, 1, dict);
    let mut offset: usize = 1;
    loop
        invariant
            start < data@.len(),
            d == data@.skip(start as int),
            d.len() == data@.len() - start,
            1 <= offset,
            scan_items(d, offset as int, dict) == outcome,
            outcome == scan_items(data@.skip(start as int), 1, dict),
        ensures
            !(offset < data.len() - start && data@[start + offset] != 101),
        decreases items_measure(d, offset as int),
    {
        if !(offset < data.len() - start && data[start + offset] != 101) {
            break;
        }
        assert(d[offset as int] == data@[start + offset]);
        assert(data@.skip(start + offset) =~= d.skip(offset as int));
        let ghost sv = scan_value(d.skip(offset as int));
        let n = match value_len_at(data, start + offset) {
            Ok(n) => n,
            Err(e) => {
                return Err(e);
            },
        };
        proof {
            lemma_scan_value_len(d.skip(offset as int));
        }
        assert(sv == Scan::Len(n as int));
        if n > usize::MAX - offset {
            return Err(None);
        }
        offset = offset + n;
        if dict {
            if offset > data.len() - start {
                return Err(None);
            }
            assert(data@.skip(start + offset) =~= d.skip(offset as int));
            let ghost sv2 = scan_value(d.skip(offset as int));
            let n2 = match value_len_at(data, start + offset) {
                Ok(n2) => n2,
                Err(e) => {
                    return Err(e);
                },
            };
            proof {
                lemma_scan_value_len(d.skip(offset as int));
            }
            assert(sv2 == Scan::Len(n2 as int));
            if n2 > usize::MAX - offset {
                return Err(None);
            }
            offset = offset + n2;
        }
    }
    if offset < data.len() - start {
        assert(d[offset as int] == data@[start + offset]);
        assert(scan_items(d, offset as int, dict) == Scan::Len(offset + 1));
        Ok(offset + 1)
    } else if dict {
        Err(Some(BencodeError::UnterminatedDictionary))
    } else {
        Err(Some(BencodeError::UnterminatedList))
    }
}

/// Returns the byte length of one complete bencode value starting at `data[0]`.
pub fn bencode_value_len(data: &[u8]) -> (r: Result<usize, BencodeError>)
    ensures
        r == spec_value_len(data@),
        r matches Ok(n) ==> 1 <= n <= data@.len(),
{
    assert(data@.skip(0) =~= data@);
    assert(data@.len() == data.len());
    proof {
        lemma_scan_value_len(data@);
    }
    match value_len_at(data, 0) {
        Ok(n) => Ok(n),
        Err(Some(e)) => Err(e),
        Err(None) => Err(BencodeError::Empty),
    }
}

/// The bytes of `4:info`, the key of the info dictionary.
pub open spec fn info_key() -> Seq<u8> {
    seq![52u8, 58, 105, 110, 102, 111]
}

/// The raw value of the key `info` among the key/value pairs of the dictionary `d`
/// from `offset` on; each key and value is measured by `scan_value`.
pub open spec fn info_in_pairs(d: Seq<u8>, offset: int) -> Result<Seq<u8>, BencodeError>
    decreases d.len() - offset,
{
    if offset < 1 || offset >= d.len() {
        Err(BencodeError::UnterminatedDictionary)
    } else if d[offset] == 101 {
        Err(BencodeError::MissingInfo)
    } else {
        match scan_value(d.skip(offset)) {
            Scan::Len(k) => {
                let o1 = offset + k;
                match scan_value(d.skip(o1)) {
                    Scan::Len(v) => {
                        if k < 1 || v < 1 || o1 + v > d.len() {
                            Err(BencodeError::Empty)
                        } else if d.subrange(offset, o1) == info_key() {
                            Ok(d.subrange(o1, o1 + v))
                        } else {
                            info_in_pairs(d, o1 + v)
                        }
                    },
                    Scan::Fail(e) => Err(e),
                    Scan::Crash => Err(BencodeError::Empty),
                }
            },
            Scan::Fail(e) => Err(e),
            Scan::Crash => Err(BencodeError::Empty),
        }
    }
}

/// The raw bytes of the info dictionary of the torrent file `d`: the value of the
/// key `info` of its root dictionary.
pub open spec fn spec_info_dict(d: Seq<u8>) -> Result<Seq<u8>, BencodeError> {
    if d.len() == 0 {
        Err(BencodeError::Empty)
    } else if d[0] != 100 {
        Err(BencodeError::MissingInfo)
    } else {
        info_in_pairs(d, 1)
    }
}

/// Locates and returns the raw bencode bytes of the torrent `info` dictionary.
pub fn info_dict_bytes(data: &[u8]) -> (r: Result<&[u8], BencodeError>)
    ensures
        r matches Ok(v) ==> spec_info_dict(data@) == Ok::<Seq<u8>, BencodeError>(v@),
        r matches Err(e) ==> spec_info_dict(data@) == Err::<Seq<u8>, BencodeError>(e),
{
    assert(data@.len() == data.len());
    if data.len() == 0 {
        return Err(BencodeError::Empty);
    }
    if data[0] != 100 {
        return Err(BencodeError::MissingInfo);
    }
    let key: [u8; 6] = [52u8, 58, 105, 110, 102, 111];
    assert(key@ =~= info_key());
    let mut offset: usize = 1;
    loop
        invariant
            1 <= offset,
            data@.len() == data.len(),
            data@.len() > 0 && data@[0] == 100,
            key@ == info_key(),
            info_in_pairs(data@, offset as int) == spec_info_dict(data@),
        decreases data@.len() - offset,
    {
        if offset >= data.len() {
            return Err(BencodeError::UnterminatedDictionary);
        }
        if data[offset] == 101 {
            return Err(BencodeError::MissingInfo);
        }
        proof {
            lemma_scan_value_len(data@.skip(offset as int));
        }
        let k = match value_len_at(data, offset) {
            Ok(n) => n,
            Err(Some(e)) => {
                return Err(e);
            },
            Err(None) => {
                return Err(BencodeError::Empty);
            },
        };
        let o1 = offset + k;
        proof {
            lemma_scan_value_len(data@.skip(o1 as int));
        }
        let v = match value_len_at(data, o1) {
            Ok(n) => n,
            Err(Some(e)) => {
                return Err(e);
            },
            Err(None) => {
                return Err(BencodeError::Empty);
            },
        };
        let found = bytes_equal(vstd::slice::slice_subrange(data, offset, o1), &key);
        if found {
            return Ok(vstd::slice::slice_subrange(data, o1, o1 + v));
        }
        offset = o1 + v;
    }
}

/// Computes the 20-byte info hash (SHA-1 of the raw `info` dictionary bytes).
pub fn info_hash(data: &[u8]) -> (r: Result<[u8; 20], BencodeError>)
    ensures
        r matches Ok(h) ==> spec_info_dict(data@) is Ok && h@ == sha1(spec_info_dict(data@)->Ok_0),
        r matches Err(e) ==> spec_info_dict(data@) == Err::<Seq<u8>, BencodeError>(e),
{
    let info = info_dict_bytes(data)?;
    Ok(sha1_digest(info))
}

} // verus!
