//! The mainline DHT: query encoding, a bencode reader for responses, and the
//! contents of `get_peers` responses.
use vstd::prelude::*;
use vstd::utf8::{decode_utf8, valid_utf8};
use vstd::string::StringSliceAdditionalSpecFns;
use crate::addr::{addr_view, compact_peer, compact_peers, read_compact_peer, AddrView, PeerAddr};
use crate::bencode::{all_digits, scan_items, value_len_at, scan_result, find_byte, first_index, is_digit, scan_value, spec_value_len, BencodeError, Scan, digits_value, lemma_first_index_bound, lemma_scan_value_len};
use crate::random::{client_tag, random_bytes, tagged_random_id};
use crate::text::{decimal, decimal_bytes, push_decimal, push_decimal_bytes, push_signed_decimal, push_str, signed_decimal, string_of};
use crate::bytes::{append, array20_at, bytes_equal, copy_range};
use crate::utf8::{debug_string, debug_text, lossy_utf8, string_from_utf8, string_from_utf8_lossy, utf8_valid};

verus! {

/// A fresh DHT node id: `-BT0001-` followed by twelve random bytes.
pub fn generate_node_id() -> (id: [u8; 20])
    ensures
        id@.take(8) == client_tag(),
{
    tagged_random_id()
}

/// A two-byte random transaction id.
pub fn random_transaction_id() -> (tx: Vec<u8>)
    ensures
        tx@.len() == 2,
{
    random_bytes(2)
}

/// The byte-wise exclusive or of two ids: their distance in the DHT metric.
pub open spec fn spec_distance(left: Seq<u8>, right: Seq<u8>) -> Seq<u8> {
    Seq::new(20, |i: int| left[i] ^ right[i])
}

pub fn distance(left: &[u8; 20], right: &[u8; 20]) -> (out: [u8; 20])
    ensures
        out@ == spec_distance(left@, right@),
{
    let mut out = [0u8; 20];
    let mut index: usize = 0;
    while index < 20
        invariant
            index <= 20,
            forall|j: int| 0 <= j < index ==> out@[j] == left@[j] ^ right@[j],
        decreases 20 - index,
    {
        out[index] = left[index] ^ right[index];
        index += 1;
    }
    assert(out@ =~= spec_distance(left@, right@));
    out
}

/// The DHT metric on 20-byte ids: an id is at distance zero from itself and from no
/// other id, distance is symmetric, and moving by a distance is undone by moving by
/// it again.
pub proof fn lemma_distance_metric(a: Seq<u8>, b: Seq<u8>)
    requires
        a.len() == 20,
        b.len() == 20,
    ensures
        spec_distance(a, a) == Seq::new(20, |i: int| 0u8),
        spec_distance(a, b) == spec_distance(b, a),
        spec_distance(a, b) == Seq::new(20, |i: int| 0u8) <==> a == b,
        spec_distance(spec_distance(a, b), b) == a,
{
    assert forall|x: u8, y: u8| #![trigger x ^ y]
        x ^ x == 0u8 && x ^ y == y ^ x && (x ^ y == 0u8 <==> x == y) && (x ^ y) ^ y == x by {
        assert(x ^ x == 0u8 && x ^ y == y ^ x && (x ^ y == 0u8 <==> x == y) && (x ^ y) ^ y == x) by (bit_vector);
    }
    let zero = Seq::new(20, |i: int| 0u8);
    assert(spec_distance(a, a) =~= zero);
    assert(spec_distance(a, b) =~= spec_distance(b, a));
    assert(spec_distance(spec_distance(a, b), b) =~= a);
    if spec_distance(a, b) == zero {
        assert forall|i: int| 0 <= i < 20 implies a[i] == b[i] by {
            assert(spec_distance(a, b)[i] == zero[i]);
        }
        assert(a =~= b);
    }
}

/// The bencode byte string holding `value`: its length, a colon, then the bytes.
pub open spec fn spec_encode_string(value: Seq<u8>) -> Seq<u8> {
    decimal_bytes(value.len()) + seq![58u8] + value
}

pub fn encode_string(value: &[u8]) -> (out: Vec<u8>)
    ensures
        out@ == spec_encode_string(value@),
{
    let mut out: Vec<u8> = Vec::new();
    push_decimal_bytes(&mut out, value.len() as u64);
    out.push(58u8);
    append(&mut out, value);
    assert(out@ =~= spec_encode_string(value@));
    out
}

pub fn encode_bytes(value: &[u8]) -> (out: Vec<u8>)
    ensures
        out@ == spec_encode_string(value@),
{
    encode_string(value)
}

/// A dictionary entry: the key as a byte string, then the already encoded value.
pub fn encode_dict_pair(key: &[u8], encoded_value: &[u8]) -> (out: Vec<u8>)
    ensures
        out@ == spec_encode_string(key@) + encoded_value@,
{
    let mut out = encode_string(key);
    append(&mut out, encoded_value);
    out
}

/// The bytes of a one-byte string such as `a` or `q`.
pub open spec fn key_byte(b: u8) -> Seq<u8> {
    seq![b]
}

/// A KRPC query with transaction id `tx`, method `method` and the argument pairs
/// `args` (already encoded, in order).
pub open spec fn spec_encode_query(tx: Seq<u8>, method: Seq<u8>, args: Seq<u8>) -> Seq<u8> {
    seq![100u8] + (spec_encode_string(key_byte(97)) + (seq![100u8] + args + seq![101u8]))
        + (spec_encode_string(key_byte(113)) + spec_encode_string(method))
        + (spec_encode_string(key_byte(116)) + spec_encode_string(tx))
        + (spec_encode_string(key_byte(121)) + spec_encode_string(key_byte(113))) + seq![101u8]
}

/// Encodes a KRPC query whose argument dictionary holds the encoded pairs that
/// filling in the arguments gave, `Ok(args)`; where filling them in failed with an
/// error, that error is the result.
pub fn encode_query(tx: &[u8], method: &str, filled: Result<&[u8], DhtError>) -> (r: Result<Vec<u8>, DhtError>)
    ensures
        match filled {
            Ok(args) => r matches Ok(m) && m@ == spec_encode_query(tx@, method.spec_bytes(), args@),
            Err(e) => r == Err::<Vec<u8>, DhtError>(e),
        },
{
    let args = match filled {
        Ok(a) => a,
        Err(e) => {
            return Err(e);
        },
    };
    let mut wrapped: Vec<u8> = Vec::new();
    wrapped.push(100u8);
    append(&mut wrapped, args);
    wrapped.push(101u8);

    let mut message: Vec<u8> = Vec::new();
    message.push(100u8);
    let a = encode_dict_pair(&[97u8], wrapped.as_slice());
    append(&mut message, a.as_slice());
    let m = encode_string(method.as_bytes());
    let q = encode_dict_pair(&[113u8], m.as_slice());
    append(&mut message, q.as_slice());
    let t_value = encode_bytes(tx);
    let t = encode_dict_pair(&[116u8], t_value.as_slice());
    append(&mut message, t.as_slice());
    let y_value = encode_string(&[113u8]);
    let y = encode_dict_pair(&[121u8], y_value.as_slice());
    append(&mut message, y.as_slice());
    message.push(101u8);
    assert([97u8]@ =~= key_byte(97));
    assert([113u8]@ =~= key_byte(113));
    assert([116u8]@ =~= key_byte(116));
    assert([121u8]@ =~= key_byte(121));
    assert(message@ =~= spec_encode_query(tx@, method.spec_bytes(), args@));
    Ok(message)
}

/// The arguments of a `get_peers` query: the asking node's id, then the info hash.
pub open spec fn get_peers_args(node_id: Seq<u8>, info_hash: Seq<u8>) -> Seq<u8> {
    spec_encode_string(seq![105u8, 100]) + spec_encode_string(node_id) + spec_encode_string(
        seq![105u8, 110, 102, 111, 95, 104, 97, 115, 104],
    ) + spec_encode_string(info_hash)
}

/// The `get_peers` query with transaction id `tx` from the node `node_id` for the
/// torrent `info_hash`.
pub fn get_peers_query(tx: &[u8], node_id: &[u8; 20], info_hash: &[u8; 20]) -> (r: Vec<u8>)
    ensures
        r@ == spec_encode_query(tx@, "get_peers".spec_bytes(), get_peers_args(node_id@, info_hash@)),
{
    let id_key: [u8; 2] = [105u8, 100];
    let hash_key: [u8; 9] = [105u8, 110, 102, 111, 95, 104, 97, 115, 104];
    let mut args = encode_dict_pair(&id_key, encode_bytes(node_id).as_slice());
    let second = encode_dict_pair(&hash_key, encode_bytes(info_hash).as_slice());
    append(&mut args, second.as_slice());
    assert(id_key@ =~= seq![105u8, 100]);
    assert(hash_key@ =~= seq![105u8, 110, 102, 111, 95, 104, 97, 115, 104]);
    assert(args@ =~= get_peers_args(node_id@, info_hash@));
    match encode_query(tx, "get_peers", Ok(args.as_slice())) {
        Ok(m) => m,
        Err(_) => Vec::new(),
    }
}

/// Why a DHT message could not be read.
#[derive(Debug, Clone, PartialEq, Eq)]
pub enum DhtError {
    Empty,
    UnterminatedInteger,
    InvalidIntegerDigits,
    InvalidIntegerValue,
    /// A byte string could not be measured.
    Bencode(BencodeError),
    UnexpectedPrefix(u8),
    ExpectedBytes,
    ExpectedInteger,
    TrailingBytes,
    RootNotDictionary,
    MissingTransaction,
    UnexpectedTransaction,
    /// The node answered with this error code and message.
    Remote(i64, String),
    MissingType,
    /// The message type was these bytes instead of `r`.
    NotResponse(Vec<u8>),
    MissingBody,
    BodyNotDictionary,
    BadNodesLength,
    BadPeersLength,
    ValuesNotList,
    ErrorNotList,
    InvalidErrorCode,
    InvalidErrorMessage,
    InvalidErrorEncoding,
    /// The lookup ended without finding a peer.
    NoPeers,
}

impl DhtError {
    pub open spec fn spec_message(self) -> Seq<char> {
        match self {
            DhtError::Empty => "empty bencode input"@,
            DhtError::UnterminatedInteger => "unterminated bencode integer"@,
            DhtError::InvalidIntegerDigits => "invalid bencode integer digits"@,
            DhtError::InvalidIntegerValue => "invalid bencode integer value"@,
            DhtError::ExpectedBytes => "expected bencode bytes"@,
            DhtError::ExpectedInteger => "expected bencode integer"@,
            DhtError::TrailingBytes => "trailing bytes in bencode message"@,
            DhtError::RootNotDictionary => "DHT response root must be a dictionary"@,
            DhtError::MissingTransaction => "DHT response missing transaction id"@,
            DhtError::UnexpectedTransaction => "unexpected DHT transaction id"@,
            DhtError::MissingType => "DHT response missing type"@,
            DhtError::MissingBody => "DHT response missing body"@,
            DhtError::BodyNotDictionary => "DHT response body must be a dictionary"@,
            DhtError::BadNodesLength => "compact node info must be a multiple of 26 bytes"@,
            DhtError::BadPeersLength => "compact peer info must be a multiple of 6 bytes"@,
            DhtError::ValuesNotList => "DHT values must be a list"@,
            DhtError::ErrorNotList => "DHT error must be a list"@,
            DhtError::InvalidErrorCode => "invalid DHT error code"@,
            DhtError::InvalidErrorMessage => "invalid DHT error message"@,
            DhtError::InvalidErrorEncoding => "invalid DHT error message encoding"@,
            DhtError::NoPeers => "DHT lookup returned no peers"@,
            DhtError::Bencode(e) => e.spec_message(),
            DhtError::UnexpectedPrefix(b) => "unexpected bencode prefix: "@ + decimal(b as nat),
            DhtError::Remote(code, message) => "DHT error "@ + signed_decimal(code as int) + ": "@ + message@,
            DhtError::NotResponse(kind) => "expected DHT response, got "@ + debug_text(lossy_utf8(kind@)),
        }
    }

    /// The error's message.
    pub fn to_string(&self) -> (s: String)
        ensures
            s@ == self.spec_message(),
    {
        match self {
            DhtError::Empty => string_of("empty bencode input"),
            DhtError::UnterminatedInteger => string_of("unterminated bencode integer"),
            DhtError::InvalidIntegerDigits => string_of("invalid bencode integer digits"),
            DhtError::InvalidIntegerValue => string_of("invalid bencode integer value"),
            DhtError::ExpectedBytes => string_of("expected bencode bytes"),
            DhtError::ExpectedInteger => string_of("expected bencode integer"),
            DhtError::TrailingBytes => string_of("trailing bytes in bencode message"),
            DhtError::RootNotDictionary => string_of("DHT response root must be a dictionary"),
            DhtError::MissingTransaction => string_of("DHT response missing transaction id"),
            DhtError::UnexpectedTransaction => string_of("unexpected DHT transaction id"),
            DhtError::MissingType => string_of("DHT response missing type"),
            DhtError::MissingBody => string_of("DHT response missing body"),
            DhtError::BodyNotDictionary => string_of("DHT response body must be a dictionary"),
            DhtError::BadNodesLength => string_of("compact node info must be a multiple of 26 bytes"),
            DhtError::BadPeersLength => string_of("compact peer info must be a multiple of 6 bytes"),
            DhtError::ValuesNotList => string_of("DHT values must be a list"),
            DhtError::ErrorNotList => string_of("DHT error must be a list"),
            DhtError::InvalidErrorCode => string_of("invalid DHT error code"),
            DhtError::InvalidErrorMessage => string_of("invalid DHT error message"),
            DhtError::InvalidErrorEncoding => string_of("invalid DHT error message encoding"),
            DhtError::NoPeers => string_of("DHT lookup returned no peers"),
            DhtError::Bencode(e) => e.to_string(),
            DhtError::UnexpectedPrefix(b) => {
                let mut s = string_of("unexpected bencode prefix: ");
                push_decimal(&mut s, *b as u64);
                s
            },
            DhtError::Remote(code, message) => {
                let mut s = string_of("DHT error ");
                push_signed_decimal(&mut s, *code);
                push_str(&mut s, ": ");
                push_str(&mut s, message.as_str());
                s
            },
            DhtError::NotResponse(kind) => {
                let mut s = string_of("expected DHT response, got ");
                let text = string_from_utf8_lossy(kind.as_slice());
                let quoted = debug_string(text.as_str());
                push_str(&mut s, quoted.as_str());
                s
            },
        }
    }
}

/// A decoded bencode value.
#[derive(Debug, PartialEq, Eq)]
pub enum BencodeValue {
    Bytes(Vec<u8>),
    Int(i64),
    List(Vec<BencodeValue>),
    Dict(Vec<(Vec<u8>, BencodeValue)>),
}

/// A bencode value with its byte strings as sequences.
pub enum BView {
    Bytes(Seq<u8>),
    Int(i64),
    List(Seq<BView>),
    Dict(Seq<(Seq<u8>, BView)>),
}

pub open spec fn bview(v: BencodeValue) -> BView
    decreases v,
{
    match v {
        BencodeValue::Bytes(b) => BView::Bytes(b@),
        BencodeValue::Int(i) => BView::Int(i),
        BencodeValue::List(items) => BView::List(
            Seq::new(
                items@.len(),
                |i: int|
                    if 0 <= i < items@.len() {
                        proof {
                            assert(decreases_to!(items => items@));
                            assert(decreases_to!(items@ => items@[i]));
                        }
                        bview(items@[i])
                    } else {
                        BView::Int(0)
                    },
            ),
        ),
        BencodeValue::Dict(items) => BView::Dict(
            Seq::new(
                items@.len(),
                |i: int|
                    if 0 <= i < items@.len() {
                        proof {
                            assert(decreases_to!(items => items@));
                            assert(decreases_to!(items@ => items@[i]));
                            assert(decreases_to!(items@[i] => items@[i].1));
                        }
                        (items@[i].0@, bview(items@[i].1))
                    } else {
                        (seq![], BView::Int(0))
                    },
            ),
        ),
    }
}

/// What parsing a bencode value can come to: the value and its length, an error,
/// or a panic (indexing or slicing past the end, or an arithmetic overflow).
pub enum Parsed<T> {
    Done(T, int),
    Fail(DhtError),
    Crash,
}

/// The length of the sign in front of the digits of `s`.
pub open spec fn sign_len(s: Seq<u8>) -> int {
    if s.len() > 0 && (s[0] == 45 || s[0] == 43) {
        1
    } else {
        0
    }
}

/// Parsing `s` as an `i64` the way `str::parse` does: an optional sign, then at
/// least one decimal digit, with the value in range.
pub open spec fn parse_i64(s: Seq<u8>) -> Option<i64> {
    let digits = s.skip(sign_len(s));
    if digits.len() == 0 || !all_digits(digits) {
        None
    } else {
        let v = digits_value(digits);
        let value = if s[0] == 45 {
            -v
        } else {
            v
        };
        if i64::MIN <= value <= i64::MAX {
            Some(value as i64)
        } else {
            None
        }
    }
}

/// The outcome of parsing the bencode value at the start of `d`.
pub open spec fn pv(d: Seq<u8>) -> Parsed<BView>
    decreases d.len(), d.len() + 2,
{
    if d.len() == 0 {
        Parsed::Fail(DhtError::Empty)
    } else if d[0] == 105 {
        match first_index(d, 101) {
            None => Parsed::Fail(DhtError::UnterminatedInteger),
            Some(end) => {
                let digits = d.subrange(1, end);
                if !valid_utf8(digits) {
                    Parsed::Fail(DhtError::InvalidIntegerDigits)
                } else {
                    match parse_i64(digits) {
                        None => Parsed::Fail(DhtError::InvalidIntegerValue),
                        Some(x) => Parsed::Done(BView::Int(x), end + 1),
                    }
                }
            },
        }
    } else if d[0] == 108 {
        match pv_list(d, 1) {
            Parsed::Done(items, end) => Parsed::Done(BView::List(items), end),
            Parsed::Fail(e) => Parsed::Fail(e),
            Parsed::Crash => Parsed::Crash,
        }
    } else if d[0] == 100 {
        match pv_dict(d, 1) {
            Parsed::Done(items, end) => Parsed::Done(BView::Dict(items), end),
            Parsed::Fail(e) => Parsed::Fail(e),
            Parsed::Crash => Parsed::Crash,
        }
    } else if is_digit(d[0]) {
        match scan_value(d) {
            Scan::Crash => Parsed::Crash,
            Scan::Fail(e) => Parsed::Fail(DhtError::Bencode(e)),
            Scan::Len(len) => {
                if len > d.len() {
                    Parsed::Crash
                } else {
                    let colon = first_index(d, 58)->0;
                    Parsed::Done(BView::Bytes(d.subrange(colon + 1, len)), len)
                }
            },
        }
    } else {
        Parsed::Fail(DhtError::UnexpectedPrefix(d[0]))
    }
}

/// How much of `d` is left to parse from `offset`.
pub open spec fn rest_measure(d: Seq<u8>, offset: int) -> int {
    if offset <= d.len() {
        d.len() + 1 - offset
    } else {
        0
    }
}

/// The outcome of parsing the list items from `offset` up to the closing `e`.
pub open spec fn pv_list(d: Seq<u8>, offset: int) -> Parsed<Seq<BView>>
    decreases d.len(), rest_measure(d, offset),
{
    if offset < 1 || offset >= d.len() {
        Parsed::Crash
    } else if d[offset] == 101 {
        Parsed::Done(seq![], offset + 1)
    } else {
        match pv(d.skip(offset)) {
            Parsed::Done(v, n) => {
                if n < 1 || offset + n > usize::MAX {
                    Parsed::Crash
                } else {
                    match pv_list(d, offset + n) {
                        Parsed::Done(items, end) => Parsed::Done(seq![v] + items, end),
                        Parsed::Fail(e) => Parsed::Fail(e),
                        Parsed::Crash => Parsed::Crash,
                    }
                }
            },
            Parsed::Fail(e) => Parsed::Fail(e),
            Parsed::Crash => Parsed::Crash,
        }
    }
}

/// The outcome of parsing the dictionary entries from `offset` up to the closing `e`.
pub open spec fn pv_dict(d: Seq<u8>, offset: int) -> Parsed<Seq<(Seq<u8>, BView)>>
    decreases d.len(), rest_measure(d, offset),
{
    if offset < 1 || offset >= d.len() {
        Parsed::Crash
    } else if d[offset] == 101 {
        Parsed::Done(seq![], offset + 1)
    } else {
        match pv(d.skip(offset)) {
            Parsed::Done(k, kn) => {
                if !(k is Bytes) {
                    Parsed::Fail(DhtError::ExpectedBytes)
                } else if kn < 1 || offset + kn > usize::MAX || offset + kn > d.len() {
                    Parsed::Crash
                } else {
                    let o1 = offset + kn;
                    match pv(d.skip(o1)) {
                        Parsed::Done(v, vn) => {
                            if vn < 1 || o1 + vn > usize::MAX {
                                Parsed::Crash
                            } else {
                                match pv_dict(d, o1 + vn) {
                                    Parsed::Done(items, end) => Parsed::Done(seq![(k->Bytes_0, v)] + items, end),
                                    Parsed::Fail(e) => Parsed::Fail(e),
                                    Parsed::Crash => Parsed::Crash,
                                }
                            }
                        },
                        Parsed::Fail(e) => Parsed::Fail(e),
                        Parsed::Crash => Parsed::Crash,
                    }
                }
            },
            Parsed::Fail(e) => Parsed::Fail(e),
            Parsed::Crash => Parsed::Crash,
        }
    }
}

/// A parsed value is at least one byte long and fits in a `usize`; so is a parsed
/// run of list or dictionary items, which ends past `offset`.
pub proof fn lemma_pv_len(d: Seq<u8>)
    requires
        d.len() <= usize::MAX,
    ensures
        pv(d) matches Parsed::Done(_, n) ==> 1 <= n <= d.len(),
    decreases d.len(), d.len() + 2,
{
    if d.len() > 0 {
        if d[0] == 105 {
            crate::bencode::lemma_first_index_bound(d, 101);
        } else if is_digit(d[0]) {
            crate::bencode::lemma_scan_value_len(d);
        } else if d[0] == 108 {
            lemma_pv_list_len(d, 1);
        } else if d[0] == 100 {
            lemma_pv_dict_len(d, 1);
        }
    }
}

/// Parsed list items end past `offset` and within the input.
pub proof fn lemma_pv_list_len(d: Seq<u8>, offset: int)
    requires
        d.len() <= usize::MAX,
    ensures
        pv_list(d, offset) matches Parsed::Done(_, n) ==> offset < n <= d.len(),
    decreases d.len(), rest_measure(d, offset),
{
    if offset >= 1 && offset < d.len() && d[offset] != 101 {
        if let Parsed::Done(v, n) = pv(d.skip(offset)) {
            if n >= 1 && offset + n <= usize::MAX {
                lemma_pv_list_len(d, offset + n);
            }
        }
    }
}

/// Parsed dictionary items end past `offset` and within the input.
pub proof fn lemma_pv_dict_len(d: Seq<u8>, offset: int)
    requires
        d.len() <= usize::MAX,
    ensures
        pv_dict(d, offset) matches Parsed::Done(_, n) ==> offset < n <= d.len(),
    decreases d.len(), rest_measure(d, offset),
{
    if offset >= 1 && offset < d.len() && d[offset] != 101 {
        if let Parsed::Done(k, kn) = pv(d.skip(offset)) {
            let o1 = offset + kn;
            if k is Bytes && kn >= 1 && o1 <= usize::MAX && o1 <= d.len() {
                if let Parsed::Done(v, vn) = pv(d.skip(o1)) {
                    if vn >= 1 && o1 + vn <= usize::MAX {
                        lemma_pv_dict_len(d, o1 + vn);
                    }
                }
            }
        }
    }
}

/// The views of the values `xs`.
pub open spec fn bviews(xs: Seq<BencodeValue>) -> Seq<BView> {
    Seq::new(xs.len(), |i: int| bview(xs[i]))
}

/// The views of the entries `xs`.
pub open spec fn entry_views(xs: Seq<(Vec<u8>, BencodeValue)>) -> Seq<(Seq<u8>, BView)> {
    Seq::new(xs.len(), |i: int| (xs[i].0@, bview(xs[i].1)))
}

/// `prefix` in front of the items of a parse outcome.
pub open spec fn after_prefix<T>(prefix: Seq<T>, p: Parsed<Seq<T>>) -> Parsed<Seq<T>> {
    match p {
        Parsed::Done(items, end) => Parsed::Done(prefix + items, end),
        Parsed::Fail(e) => Parsed::Fail(e),
        Parsed::Crash => Parsed::Crash,
    }
}

proof fn lemma_digit_step(value: int, d: int, limit: int)
    requires
        0 <= d <= 9,
        0 <= value,
        0 <= limit,
        value > (limit - d) / 10,
    ensures
        value * 10 + d > limit,
{
    assert(value * 10 + d > limit) by (nonlinear_arith)
        requires
            0 <= d <= 9,
            value > (limit - d) / 10,
            0 <= limit,
    ;
}

/// Parses `data[from..to]` as an `i64`.
fn parse_i64_range(data: &[u8], from: usize, to: usize) -> (r: Option<i64>)
    requires
        from <= to <= data@.len(),
    ensures
        r == parse_i64(data@.subrange(from as int, to as int)),
{
    let ghost s = data@.subrange(from as int, to as int);
    if from == to {
        return None;
    }
    assert(s[0] == data@[from as int]);
    let neg = data[from] == 45;
    let signed = data[from] == 45 || data[from] == 43;
    let first = if signed {
        from + 1
    } else {
        from
    };
    let ghost digits = s.skip(sign_len(s));
    assert(digits =~= data@.subrange(first as int, to as int));
    if first == to {
        return None;
    }
    let limit: u64 = if neg {
        9223372036854775808u64
    } else {
        9223372036854775807u64
    };
    let mut value: u64 = 0;
    let mut i = first;
    while i < to
        invariant
            first <= i <= to <= data@.len(),
            digits == data@.subrange(first as int, to as int),
            forall|j: int| 0 <= j < i - first ==> is_digit(#[trigger] digits[j]),
            value == digits_value(digits.take(i - first)),
            value <= limit,
            limit >= 9223372036854775807u64,
            s == data@.subrange(from as int, to as int),
            s.len() > 0,
            digits == s.skip(sign_len(s)),
            neg == (s[0] == 45),
            limit == (if neg { 9223372036854775808u64 } else { 9223372036854775807u64 }),
        decreases to - i,
    {
        let c = data[i];
        assert(digits[i - first] == data@[i as int]);
        if c < 48 || c > 57 {
            assert(!is_digit(digits[i - first]));
            return None;
        }
        assert(digits.take(i - first + 1).drop_last() =~= digits.take(i - first));
        let d: u64 = (c - 48) as u64;
        if value > (limit - d) / 10 {
            proof {
                lemma_digit_step(value as int, d as int, limit as int);
                if forall|j: int| 0 <= j < digits.len() ==> is_digit(#[trigger] digits[j]) {
                    crate::bencode::lemma_digits_prefix(digits, i - first + 1);
                }
            }
            return None;
        }
        value = value * 10 + d;
        i += 1;
    }
    assert(digits.take(digits.len() as int) =~= digits);
    if neg {
        if value == 9223372036854775808u64 {
            Some(-9223372036854775807i64 - 1)
        } else {
            Some(-(value as i64))
        }
    } else {
        Some(value as i64)
    }
}

/// Parses the bencode value at `data[start..]`, returning it and its length;
/// `Err(None)` where parsing it the plain way would panic.
fn value_at(data: &[u8], start: usize) -> (r: Result<(BencodeValue, usize), Option<DhtError>>)
    requires
        start <= data@.len(),
    ensures
        match pv(data@.skip(start as int)) {
            Parsed::Done(v, n) => r matches Ok((x, m)) && bview(x) == v && m == n,
            Parsed::Fail(e) => r == Err::<(BencodeValue, usize), Option<DhtError>>(Some(e)),
            Parsed::Crash => r == Err::<(BencodeValue, usize), Option<DhtError>>(None),
        },
    decreases data@.len() - start, 1int,
{
    let ghost d = data@.skip(start as int);
    proof {
        assert(d.len() == data.len() - start);
        lemma_pv_len(d);
    }
    if start == data.len() {
        return Err(Some(DhtError::Empty));
    }
    let first = data[start];
    assert(first == d[0]);
    if first == 105 {
        let end = match find_byte(data, start, 101) {
            Some(e) => e,
            None => {
                return Err(Some(DhtError::UnterminatedInteger));
            },
        };
        proof {
            lemma_first_index_bound(d, 101);
        }
        assert(data@.subrange(start + 1, end as int) =~= d.subrange(1, end - start));
        if !utf8_valid(&data[start + 1..end]) {
            return Err(Some(DhtError::InvalidIntegerDigits));
        }
        match parse_i64_range(data, start + 1, end) {
            Some(x) => Ok((BencodeValue::Int(x), end - start + 1)),
            None => Err(Some(DhtError::InvalidIntegerValue)),
        }
    } else if first == 108 {
        let (items, len) = list_at(data, start)?;
        proof {
            assert(bview(BencodeValue::List(items))->List_0 =~= bviews(items@));
        }
        Ok((BencodeValue::List(items), len))
    } else if first == 100 {
        let (items, len) = dict_at(data, start)?;
        proof {
            assert(bview(BencodeValue::Dict(items))->Dict_0 =~= entry_views(items@));
        }
        Ok((BencodeValue::Dict(items), len))
    } else if first >= 48 && first <= 57 {
        let len = match value_len_at(data, start) {
            Ok(n) => n,
            Err(Some(e)) => {
                return Err(Some(DhtError::Bencode(e)));
            },
            Err(None) => {
                return Err(None);
            },
        };
        proof {
            assert(data@.len() == data.len());
            lemma_scan_value_len(d);
        }
        if len > data.len() - start {
            return Err(None);
        }
        let colon = find_byte(data, start, 58).unwrap();
        proof {
            lemma_first_index_bound(d, 58);
        }
        let bytes = copy_range(data, colon + 1, start + len);
        assert(bytes@ =~= d.subrange(colon - start + 1, len as int));
        Ok((BencodeValue::Bytes(bytes), len))
    } else {
        Err(Some(DhtError::UnexpectedPrefix(first)))
    }
}

/// Parses the items of the list that starts at `data[start]`.
fn list_at(data: &[u8], start: usize) -> (r: Result<(Vec<BencodeValue>, usize), Option<DhtError>>)
    requires
        start < data@.len(),
    ensures
        match pv_list(data@.skip(start as int), 1) {
            Parsed::Done(items, n) => r matches Ok((xs, m)) && bviews(xs@) == items && m == n,
            Parsed::Fail(e) => r == Err::<(Vec<BencodeValue>, usize), Option<DhtError>>(Some(e)),
            Parsed::Crash => r == Err::<(Vec<BencodeValue>, usize), Option<DhtError>>(None),
        },
    decreases data@.len() - start, 0int,
{
    let ghost d = data@.skip(start as int);
    let mut items: Vec<BencodeValue> = Vec::new();
    let mut offset: usize = 1;
    loop
        invariant
            start < data@.len(),
            d == data@.skip(start as int),
            d.len() == data@.len() - start,
            data@.len() == data.len(),
            1 <= offset,
            pv_list(d, 1) == after_prefix(bviews(items@), pv_list(d, offset as int)),
        decreases rest_measure(d, offset as int),
    {
        if offset >= data.len() - start {
            return Err(None);
        }
        if data[start + offset] == 101 {
            assert(pv_list(d, offset as int) == Parsed::<Seq<BView>>::Done(seq![], offset + 1));
            assert(bviews(items@) + seq![] =~= bviews(items@));
            return Ok((items, offset + 1));
        }
        assert(data@.skip(start + offset) =~= d.skip(offset as int));
        let (item, len) = value_at(data, start + offset)?;
        proof {
            lemma_pv_len(d.skip(offset as int));
        }
        if len > usize::MAX - offset {
            return Err(None);
        }
        let ghost before = bviews(items@);
        items.push(item);
        assert(bviews(items@) =~= before.push(bview(item)));
        assert(forall|s: Seq<BView>| before + (seq![bview(item)] + s) =~= bviews(items@) + s);
        offset = offset + len;
    }
}

/// Parses the entries of the dictionary that starts at `data[start]`.
fn dict_at(data: &[u8], start: usize) -> (r: Result<(Vec<(Vec<u8>, BencodeValue)>, usize), Option<DhtError>>)
    requires
        start < data@.len(),
    ensures
        match pv_dict(data@.skip(start as int), 1) {
            Parsed::Done(items, n) => r matches Ok((xs, m)) && entry_views(xs@) == items && m == n,
            Parsed::Fail(e) => r == Err::<(Vec<(Vec<u8>, BencodeValue)>, usize), Option<DhtError>>(Some(e)),
            Parsed::Crash => r == Err::<(Vec<(Vec<u8>, BencodeValue)>, usize), Option<DhtError>>(None),
        },
    decreases data@.len() - start, 0int,
{
    let ghost d = data@.skip(start as int);
    let mut items: Vec<(Vec<u8>, BencodeValue)> = Vec::new();
    let mut offset: usize = 1;
    loop
        invariant
            start < data@.len(),
            d == data@.skip(start as int),
            d.len() == data@.len() - start,
            data@.len() == data.len(),
            1 <= offset,
            pv_dict(d, 1) == after_prefix(entry_views(items@), pv_dict(d, offset as int)),
        decreases rest_measure(d, offset as int),
    {
        if offset >= data.len() - start {
            return Err(None);
        }
        if data[start + offset] == 101 {
            assert(pv_dict(d, offset as int) == Parsed::<Seq<(Seq<u8>, BView)>>::Done(seq![], offset + 1));
            assert(entry_views(items@) + seq![] =~= entry_views(items@));
            return Ok((items, offset + 1));
        }
        assert(data@.skip(start + offset) =~= d.skip(offset as int));
        let (key, key_len) = value_at(data, start + offset)?;
        proof {
            lemma_pv_len(d.skip(offset as int));
        }
        let key_bytes = match key {
            BencodeValue::Bytes(b) => b,
            _ => {
                return Err(Some(DhtError::ExpectedBytes));
            },
        };
        if key_len > usize::MAX - offset || offset + key_len > data.len() - start {
            return Err(None);
        }
        offset = offset + key_len;
        assert(data@.skip(start + offset) =~= d.skip(offset as int));
        let (value, value_len) = value_at(data, start + offset)?;
        proof {
            lemma_pv_len(d.skip(offset as int));
        }
        if value_len > usize::MAX - offset {
            return Err(None);
        }
        let ghost before = entry_views(items@);
        items.push((key_bytes, value));
        assert(entry_views(items@) =~= before.push((key_bytes@, bview(value))));
        assert(forall|s: Seq<(Seq<u8>, BView)>| before + (seq![(key_bytes@, bview(value))] + s) =~= entry_views(items@) + s);
        offset = offset + value_len;
    }
}

/// Whether parsing the bencode value at the start of `data` panics, so that
/// `parse_bencode_value` and `parse_bencode` may not be called.
pub fn parse_bencode_panics(data: &[u8]) -> (b: bool)
    ensures
        b == (pv(data@) is Crash),
{
    assert(data@.skip(0) =~= data@);
    match value_at(data, 0) {
        Err(None) => true,
        _ => false,
    }
}

/// Parses the bencode value at the start of `data`, returning it and its length.
pub fn parse_bencode_value(data: &[u8]) -> (r: Result<(BencodeValue, usize), DhtError>)
    requires
        !(pv(data@) is Crash),
    ensures
        match pv(data@) {
            Parsed::Done(v, n) => r matches Ok((x, m)) && bview(x) == v && m == n,
            Parsed::Fail(e) => r == Err::<(BencodeValue, usize), DhtError>(e),
            Parsed::Crash => false,
        },
{
    assert(data@.skip(0) =~= data@);
    match value_at(data, 0) {
        Ok(p) => Ok(p),
        Err(Some(e)) => Err(e),
        Err(None) => Err(DhtError::Empty),
    }
}

/// The outcome of parsing `d` as exactly one bencode value.
pub open spec fn spec_parse_bencode(d: Seq<u8>) -> Parsed<BView> {
    match pv(d) {
        Parsed::Done(v, n) => if n != d.len() {
            Parsed::Fail(DhtError::TrailingBytes)
        } else {
            Parsed::Done(v, n)
        },
        other => other,
    }
}

/// Parses `data` as exactly one bencode value.
pub fn parse_bencode(data: &[u8]) -> (r: Result<BencodeValue, DhtError>)
    requires
        !(pv(data@) is Crash),
    ensures
        match spec_parse_bencode(data@) {
            Parsed::Done(v, _) => r matches Ok(x) && bview(x) == v,
            Parsed::Fail(e) => r == Err::<BencodeValue, DhtError>(e),
            Parsed::Crash => false,
        },
{
    let (value, len) = parse_bencode_value(data)?;
    if len != data.len() {
        return Err(DhtError::TrailingBytes);
    }
    Ok(value)
}

/// A 20-byte DHT node id.
#[derive(Clone, Copy, Debug, PartialEq, Eq, Hash)]
pub struct NodeId(pub [u8; 20]);

/// A DHT node: its id and its address.
#[derive(Clone, Copy, Debug, PartialEq, Eq, Hash)]
pub struct DhtNode {
    pub id: NodeId,
    pub addr: PeerAddr,
}

/// A node as its id bytes and its address.
pub open spec fn node_view(n: DhtNode) -> (Seq<u8>, AddrView) {
    (n.id.0@, addr_view(n.addr))
}

/// A compact node entry: a 20-byte id, then a compact peer address.
pub open spec fn compact_node(chunk: Seq<u8>) -> (Seq<u8>, AddrView) {
    (chunk.take(20), compact_peer(chunk.skip(20)))
}

/// The nodes of the compact node list `bytes`, 26 bytes per node.
pub open spec fn compact_nodes(bytes: Seq<u8>) -> Seq<(Seq<u8>, AddrView)> {
    Seq::new((bytes.len() / 26) as nat, |i: int| compact_node(bytes.subrange(26 * i, 26 * i + 26)))
}

/// Reads the node at `bytes[at..at + 26]`.
fn read_compact_node(bytes: &[u8], at: usize) -> (n: DhtNode)
    requires
        at + 26 <= bytes@.len(),
    ensures
        node_view(n) == compact_node(bytes@.subrange(at as int, at + 26)),
{
    assert(bytes@.len() == bytes.len());
    let mut id = [0u8; 20];
    let mut i: usize = 0;
    while i < 20
        invariant
            i <= 20,
            at + 26 <= bytes@.len(),
            bytes@.len() == bytes.len(),
            forall|j: int| 0 <= j < i ==> id@[j] == bytes@[at + j],
        decreases 20 - i,
    {
        id[i] = bytes[at + i];
        i += 1;
    }
    let addr = read_compact_peer(bytes, at + 20);
    let ghost chunk = bytes@.subrange(at as int, at + 26);
    assert(id@ =~= chunk.take(20));
    assert(bytes@.subrange(at + 20, at + 26) =~= chunk.skip(20));
    DhtNode { id: NodeId(id), addr }
}

/// Parses a compact node list: 26 bytes per node.
pub fn parse_compact_nodes(bytes: &[u8]) -> (r: Result<Vec<DhtNode>, DhtError>)
    ensures
        bytes@.len() % 26 != 0 <==> r is Err,
        r matches Err(e) ==> e == DhtError::BadNodesLength,
        r matches Ok(nodes) ==> nodes@.map_values(|n: DhtNode| node_view(n)) == compact_nodes(bytes@),
{
    if bytes.len() % 26 != 0 {
        return Err(DhtError::BadNodesLength);
    }
    let mut nodes: Vec<DhtNode> = Vec::new();
    let mut i: usize = 0;
    while i < bytes.len() / 26
        invariant
            bytes@.len() % 26 == 0,
            i <= bytes@.len() / 26,
            nodes@.len() == i,
            forall|j: int| 0 <= j < i ==> node_view(#[trigger] nodes@[j]) == compact_nodes(bytes@)[j],
        decreases bytes.len() / 26 - i,
    {
        let n = read_compact_node(bytes, 26 * i);
        nodes.push(n);
        i += 1;
    }
    assert(nodes@.map_values(|n: DhtNode| node_view(n)) =~= compact_nodes(bytes@));
    Ok(nodes)
}

/// Parses a compact peer list: six bytes per peer.
pub fn parse_compact_peers(bytes: &[u8]) -> (r: Result<Vec<PeerAddr>, DhtError>)
    ensures
        bytes@.len() % 6 != 0 <==> r is Err,
        r matches Err(e) ==> e == DhtError::BadPeersLength,
        r matches Ok(peers) ==> peers@.map_values(|p: PeerAddr| addr_view(p)) == compact_peers(bytes@),
{
    match crate::tracker::parse_compact_peers(bytes) {
        Ok(peers) => Ok(peers),
        Err(_) => Err(DhtError::BadPeersLength),
    }
}

/// The bytes of a bencode byte string, or `ExpectedBytes`.
pub open spec fn spec_as_bytes(v: BView) -> Result<Seq<u8>, DhtError> {
    match v {
        BView::Bytes(b) => Ok(b),
        _ => Err(DhtError::ExpectedBytes),
    }
}

/// The value of a bencode integer, or `ExpectedInteger`.
pub open spec fn spec_as_int(v: BView) -> Result<i64, DhtError> {
    match v {
        BView::Int(i) => Ok(i),
        _ => Err(DhtError::ExpectedInteger),
    }
}

impl BencodeValue {
    /// The bytes of a byte string.
    pub fn as_bytes(&self) -> (r: Result<&[u8], DhtError>)
        ensures
            match spec_as_bytes(bview(*self)) {
                Ok(b) => r matches Ok(x) && x@ == b,
                Err(e) => r == Err::<&[u8], DhtError>(e),
            },
    {
        match self {
            BencodeValue::Bytes(bytes) => Ok(bytes.as_slice()),
            _ => Err(DhtError::ExpectedBytes),
        }
    }

    /// The value of an integer.
    pub fn as_int(&self) -> (r: Result<i64, DhtError>)
        ensures
            r == spec_as_int(bview(*self)),
    {
        match self {
            BencodeValue::Int(value) => Ok(*value),
            _ => Err(DhtError::ExpectedInteger),
        }
    }
}

/// The peers of the byte strings `items`, each a compact peer list, in order.
pub open spec fn values_peers(items: Seq<BView>) -> Result<Seq<AddrView>, DhtError>
    decreases items.len(),
{
    if items.len() == 0 {
        Ok(seq![])
    } else {
        match values_peers(items.drop_last()) {
            Err(e) => Err(e),
            Ok(before) => match items.last() {
                BView::Bytes(b) => if b.len() % 6 != 0 {
                    Err(DhtError::BadPeersLength)
                } else {
                    Ok(before + compact_peers(b))
                },
                _ => Err(DhtError::ExpectedBytes),
            },
        }
    }
}

/// The peers of a `values` entry: a list of compact peer lists.
pub open spec fn spec_values_list(v: BView) -> Result<Seq<AddrView>, DhtError> {
    match v {
        BView::List(items) => values_peers(items),
        _ => Err(DhtError::ValuesNotList),
    }
}

pub open spec fn peer_views(peers: Seq<PeerAddr>) -> Seq<AddrView> {
    peers.map_values(|p: PeerAddr| addr_view(p))
}

/// Appends the items of `more` to `v`.
fn append_items<T: Copy>(v: &mut Vec<T>, more: Vec<T>)
    ensures
        final(v)@ == old(v)@ + more@,
{
    let mut i: usize = 0;
    while i < more.len()
        invariant
            i <= more@.len(),
            v@ == old(v)@ + more@.take(i as int),
        decreases more.len() - i,
    {
        v.push(more[i]);
        assert(more@.take(i + 1) =~= more@.take(i as int).push(more@[i as int]));
        i += 1;
    }
    assert(more@.take(more@.len() as int) =~= more@);
}

/// Once a prefix of the items fails, the whole list fails the same way.
proof fn lemma_values_peers_prefix(s: Seq<BView>, k: int)
    requires
        0 <= k <= s.len(),
        values_peers(s.take(k)) is Err,
    ensures
        values_peers(s) == values_peers(s.take(k)),
    decreases s.len(),
{
    if k < s.len() {
        assert(s.drop_last().take(k) =~= s.take(k));
        lemma_values_peers_prefix(s.drop_last(), k);
    } else {
        assert(s.take(k) =~= s);
    }
}

/// Reads the peers of a `values` entry.
fn parse_values_list(value: &BencodeValue) -> (r: Result<Vec<PeerAddr>, DhtError>)
    ensures
        match spec_values_list(bview(*value)) {
            Ok(ps) => r matches Ok(v) && peer_views(v@) == ps,
            Err(e) => r == Err::<Vec<PeerAddr>, DhtError>(e),
        },
{
    let items = match value {
        BencodeValue::List(items) => items,
        _ => {
            return Err(DhtError::ValuesNotList);
        },
    };
    let ghost views = bviews(items@);
    assert(bview(*value)->List_0 =~= views);
    let mut peers: Vec<PeerAddr> = Vec::new();
    let mut i: usize = 0;
    assert(views.take(0) =~= seq![]);
    assert(peer_views(peers@) =~= seq![]);
    while i < items.len()
        invariant
            i <= items@.len(),
            views == bviews(items@),
            spec_values_list(bview(*value)) == values_peers(views),
            values_peers(views.take(i as int)) == Ok::<Seq<AddrView>, DhtError>(peer_views(peers@)),
        decreases items.len() - i,
    {
        assert(views.take(i + 1).drop_last() =~= views.take(i as int));
        assert(views.take(i + 1).last() == bview(items@[i as int]));
        let bytes = match items[i].as_bytes() {
            Ok(b) => b,
            Err(e) => {
                proof {
                    lemma_values_peers_prefix(views, i + 1);
                }
                return Err(e);
            },
        };
        let more = match parse_compact_peers(bytes) {
            Ok(m) => m,
            Err(e) => {
                proof {
                    lemma_values_peers_prefix(views, i + 1);
                }
                return Err(e);
            },
        };
        let ghost before = peers@;
        append_items(&mut peers, more);
        assert(peer_views(peers@) =~= peer_views(before) + peer_views(more@));
        i += 1;
    }
    assert(views.take(items@.len() as int) =~= views);
    Ok(peers)
}

/// The code and message of a KRPC error entry: a list of an integer and a UTF-8
/// byte string.
pub open spec fn spec_parse_error(v: BView) -> Result<(i64, Seq<char>), DhtError> {
    match v {
        BView::List(items) => if items.len() == 0 {
            Err(DhtError::InvalidErrorCode)
        } else {
            match spec_as_int(items[0]) {
                Err(e) => Err(e),
                Ok(code) => if items.len() < 2 {
                    Err(DhtError::InvalidErrorMessage)
                } else {
                    match spec_as_bytes(items[1]) {
                        Err(e) => Err(e),
                        Ok(m) => if valid_utf8(m) {
                            Ok((code, decode_utf8(m)))
                        } else {
                            Err(DhtError::InvalidErrorEncoding)
                        },
                    }
                },
            }
        },
        _ => Err(DhtError::ErrorNotList),
    }
}

/// Reads a KRPC error entry.
fn parse_error(value: &BencodeValue) -> (r: Result<(i64, String), DhtError>)
    ensures
        match spec_parse_error(bview(*value)) {
            Ok((code, message)) => r matches Ok((c, m)) && c == code && m@ == message,
            Err(e) => r == Err::<(i64, String), DhtError>(e),
        },
{
    let items = match value {
        BencodeValue::List(items) => items,
        _ => {
            return Err(DhtError::ErrorNotList);
        },
    };
    assert(bview(*value)->List_0 =~= bviews(items@));
    if items.len() == 0 {
        return Err(DhtError::InvalidErrorCode);
    }
    let code = items[0].as_int()?;
    if items.len() < 2 {
        return Err(DhtError::InvalidErrorMessage);
    }
    let message = items[1].as_bytes()?;
    let owned = copy_range(message, 0, message.len());
    assert(owned@ =~= message@);
    match string_from_utf8(owned) {
        Some(text) => Ok((code, text)),
        None => Err(DhtError::InvalidErrorEncoding),
    }
}

/// What a node answered to `get_peers`: its id, closer nodes, and peers.
#[derive(Debug, Clone)]
pub struct QueryResponse {
    pub responder_id: Option<[u8; 20]>,
    pub nodes: Vec<DhtNode>,
    pub peers: Vec<PeerAddr>,
}

impl Default for QueryResponse {
    fn default() -> (r: Self)
        ensures
            r.responder_id is None,
            r.nodes@.len() == 0,
            r.peers@.len() == 0,
    {
        QueryResponse { responder_id: None, nodes: Vec::new(), peers: Vec::new() }
    }
}

/// A `get_peers` answer as plain values.
pub struct ResponseView {
    pub responder_id: Option<Seq<u8>>,
    pub nodes: Seq<(Seq<u8>, AddrView)>,
    pub peers: Seq<AddrView>,
}

pub open spec fn node_views(nodes: Seq<DhtNode>) -> Seq<(Seq<u8>, AddrView)> {
    nodes.map_values(|n: DhtNode| node_view(n))
}

pub open spec fn id_view(id: Option<[u8; 20]>) -> Option<Seq<u8>> {
    match id {
        Some(a) => Some(a@),
        None => None,
    }
}

pub open spec fn response_view(r: QueryResponse) -> ResponseView {
    ResponseView { responder_id: id_view(r.responder_id), nodes: node_views(r.nodes@), peers: peer_views(r.peers@) }
}

pub open spec fn empty_response() -> ResponseView {
    ResponseView { responder_id: None, nodes: seq![], peers: seq![] }
}

pub open spec fn id_key() -> Seq<u8> {
    seq![105u8, 100]
}

pub open spec fn nodes_key() -> Seq<u8> {
    seq![110u8, 111, 100, 101, 115]
}

pub open spec fn values_key() -> Seq<u8> {
    seq![118u8, 97, 108, 117, 101, 115]
}

pub open spec fn peers_key() -> Seq<u8> {
    seq![112u8, 101, 101, 114, 115]
}

/// One entry of a response body applied to what was read so far: `id` (kept
/// only when 20 bytes long), `nodes`, `values` and `peers`; other keys are skipped.
pub open spec fn body_step(acc: ResponseView, key: Seq<u8>, v: BView) -> Result<ResponseView, DhtError> {
    if key == id_key() {
        match spec_as_bytes(v) {
            Err(e) => Err(e),
            Ok(b) => Ok(if b.len() == 20 { ResponseView { responder_id: Some(b), ..acc } } else { acc }),
        }
    } else if key == nodes_key() {
        match spec_as_bytes(v) {
            Err(e) => Err(e),
            Ok(b) => if b.len() % 26 != 0 {
                Err(DhtError::BadNodesLength)
            } else {
                Ok(ResponseView { nodes: acc.nodes + compact_nodes(b), ..acc })
            },
        }
    } else if key == values_key() {
        match spec_values_list(v) {
            Err(e) => Err(e),
            Ok(ps) => Ok(ResponseView { peers: acc.peers + ps, ..acc }),
        }
    } else if key == peers_key() {
        match spec_as_bytes(v) {
            Err(e) => Err(e),
            Ok(b) => if b.len() % 6 != 0 {
                Err(DhtError::BadPeersLength)
            } else {
                Ok(ResponseView { peers: acc.peers + compact_peers(b), ..acc })
            },
        }
    } else {
        Ok(acc)
    }
}

/// The entries of a response body read in order; the first failure stops it.
pub open spec fn body_fold(entries: Seq<(Seq<u8>, BView)>) -> Result<ResponseView, DhtError>
    decreases entries.len(),
{
    if entries.len() == 0 {
        Ok(empty_response())
    } else {
        match body_fold(entries.drop_last()) {
            Err(e) => Err(e),
            Ok(acc) => body_step(acc, entries.last().0, entries.last().1),
        }
    }
}

pub open spec fn spec_response_body(v: BView) -> Result<ResponseView, DhtError> {
    match v {
        BView::Dict(entries) => body_fold(entries),
        _ => Err(DhtError::BodyNotDictionary),
    }
}

proof fn lemma_body_fold_prefix(s: Seq<(Seq<u8>, BView)>, k: int)
    requires
        0 <= k <= s.len(),
        body_fold(s.take(k)) is Err,
    ensures
        body_fold(s) == body_fold(s.take(k)),
    decreases s.len(),
{
    if k < s.len() {
        assert(s.drop_last().take(k) =~= s.take(k));
        lemma_body_fold_prefix(s.drop_last(), k);
    } else {
        assert(s.take(k) =~= s);
    }
}

/// Applies one body entry to `result`.
fn body_entry(result: &mut QueryResponse, key: &[u8], value: &BencodeValue) -> (r: Result<(), DhtError>)
    ensures
        match body_step(response_view(*old(result)), key@, bview(*value)) {
            Ok(acc) => r is Ok && response_view(*final(result)) == acc,
            Err(e) => r == Err::<(), DhtError>(e),
        },
{
    let id_k: [u8; 2] = [105u8, 100];
    let nodes_k: [u8; 5] = [110u8, 111, 100, 101, 115];
    let values_k: [u8; 6] = [118u8, 97, 108, 117, 101, 115];
    let peers_k: [u8; 5] = [112u8, 101, 101, 114, 115];
    assert(id_k@ =~= id_key());
    assert(nodes_k@ =~= nodes_key());
    assert(values_k@ =~= values_key());
    assert(peers_k@ =~= peers_key());
    if bytes_equal(key, &id_k) {
        let id = value.as_bytes()?;
        if id.len() == 20 {
            let rid = array20_at(id, 0);
            assert(id@.subrange(0, 20) =~= id@);
            result.responder_id = Some(rid);
        }
        Ok(())
    } else if bytes_equal(key, &nodes_k) {
        let bytes = value.as_bytes()?;
        let more = parse_compact_nodes(bytes)?;
        let ghost before = result.nodes@;
        append_items(&mut result.nodes, more);
        assert(node_views(result.nodes@) =~= node_views(before) + node_views(more@));
        Ok(())
    } else if bytes_equal(key, &values_k) {
        let more = parse_values_list(value)?;
        let ghost before = result.peers@;
        append_items(&mut result.peers, more);
        assert(peer_views(result.peers@) =~= peer_views(before) + peer_views(more@));
        Ok(())
    } else if bytes_equal(key, &peers_k) {
        let bytes = value.as_bytes()?;
        let more = parse_compact_peers(bytes)?;
        let ghost before = result.peers@;
        append_items(&mut result.peers, more);
        assert(peer_views(result.peers@) =~= peer_views(before) + peer_views(more@));
        Ok(())
    } else {
        Ok(())
    }
}

/// Reads the body (`r`) of a `get_peers` response.
pub fn parse_response_body(value: &BencodeValue) -> (r: Result<QueryResponse, DhtError>)
    ensures
        match spec_response_body(bview(*value)) {
            Ok(acc) => r matches Ok(q) && response_view(q) == acc,
            Err(e) => r matches Err(x) && x == e,
        },
{
    let entries = match value {
        BencodeValue::Dict(entries) => entries,
        _ => {
            return Err(DhtError::BodyNotDictionary);
        },
    };
    let ghost views = entry_views(entries@);
    assert(bview(*value)->Dict_0 =~= views);
    let mut result = QueryResponse::default();
    assert(views.take(0) =~= seq![]);
    assert(response_view(result) == empty_response()) by {
        assert(node_views(result.nodes@) =~= seq![]);
        assert(peer_views(result.peers@) =~= seq![]);
    }
    let mut i: usize = 0;
    while i < entries.len()
        invariant
            i <= entries@.len(),
            views == entry_views(entries@),
            spec_response_body(bview(*value)) == body_fold(views),
            body_fold(views.take(i as int)) == Ok::<ResponseView, DhtError>(response_view(result)),
        decreases entries.len() - i,
    {
        assert(views.take(i + 1).drop_last() =~= views.take(i as int));
        assert(views.take(i + 1).last() == (entries@[i as int].0@, bview(entries@[i as int].1)));
        let entry = &entries[i];
        match body_entry(&mut result, entry.0.as_slice(), &entry.1) {
            Ok(()) => {},
            Err(e) => {
                proof {
                    lemma_body_fold_prefix(views, i + 1);
                }
                return Err(e);
            },
        }
        i += 1;
    }
    assert(views.take(entries@.len() as int) =~= views);
    Ok(result)
}

/// A KRPC message as read so far: its transaction id, type, response body and
/// error, each the last one seen.
pub struct MessageView {
    pub tx: Option<Seq<u8>>,
    pub kind: Option<Seq<u8>>,
    pub body: Option<ResponseView>,
    pub error: Option<(i64, Seq<char>)>,
}

pub open spec fn empty_message() -> MessageView {
    MessageView { tx: None, kind: None, body: None, error: None }
}

/// One entry of a KRPC message applied to what was read so far: `t`, `y`, `r`
/// and `e`; other keys are skipped.
pub open spec fn message_step(st: MessageView, key: Seq<u8>, v: BView) -> Result<MessageView, DhtError> {
    if key == seq![116u8] {
        match spec_as_bytes(v) {
            Err(e) => Err(e),
            Ok(b) => Ok(MessageView { tx: Some(b), ..st }),
        }
    } else if key == seq![121u8] {
        match spec_as_bytes(v) {
            Err(e) => Err(e),
            Ok(b) => Ok(MessageView { kind: Some(b), ..st }),
        }
    } else if key == seq![114u8] {
        match spec_response_body(v) {
            Err(e) => Err(e),
            Ok(r) => Ok(MessageView { body: Some(r), ..st }),
        }
    } else if key == seq![101u8] {
        match spec_parse_error(v) {
            Err(e) => Err(e),
            Ok(x) => Ok(MessageView { error: Some(x), ..st }),
        }
    } else {
        Ok(st)
    }
}

pub open spec fn message_fold(entries: Seq<(Seq<u8>, BView)>) -> Result<MessageView, DhtError>
    decreases entries.len(),
{
    if entries.len() == 0 {
        Ok(empty_message())
    } else {
        match message_fold(entries.drop_last()) {
            Err(e) => Err(e),
            Ok(st) => message_step(st, entries.last().0, entries.last().1),
        }
    }
}

proof fn lemma_message_fold_prefix(s: Seq<(Seq<u8>, BView)>, k: int)
    requires
        0 <= k <= s.len(),
        message_fold(s.take(k)) is Err,
    ensures
        message_fold(s) == message_fold(s.take(k)),
    decreases s.len(),
{
    if k < s.len() {
        assert(s.drop_last().take(k) =~= s.take(k));
        lemma_message_fold_prefix(s.drop_last(), k);
    } else {
        assert(s.take(k) =~= s);
    }
}

/// How reading a KRPC message ends: with a response body, the node's error, a
/// message of another type, or a failure.
pub enum Decoded {
    Response(ResponseView),
    Remote(i64, Seq<char>),
    NotResponse(Seq<u8>),
    Fail(DhtError),
}

/// The checks on a message once all its entries are read: the transaction id must
/// be there and match, an error entry wins, then the type must be `r` and the body
/// present.
pub open spec fn finish_message(st: MessageView, expected_tx: Seq<u8>) -> Decoded {
    match st.tx {
        None => Decoded::Fail(DhtError::MissingTransaction),
        Some(t) => if t != expected_tx {
            Decoded::Fail(DhtError::UnexpectedTransaction)
        } else {
            match st.error {
                Some((code, message)) => Decoded::Remote(code, message),
                None => match st.kind {
                    None => Decoded::Fail(DhtError::MissingType),
                    Some(k) => if k != seq![114u8] {
                        Decoded::NotResponse(k)
                    } else {
                        match st.body {
                            None => Decoded::Fail(DhtError::MissingBody),
                            Some(b) => Decoded::Response(b),
                        }
                    },
                },
            }
        },
    }
}

/// The outcome of reading `packet` as the answer to the query with transaction
/// id `expected_tx` (a packet on which parsing panics has no outcome here).
pub open spec fn spec_decode_response(packet: Seq<u8>, expected_tx: Seq<u8>) -> Decoded {
    match spec_parse_bencode(packet) {
        Parsed::Done(root, _) => match root {
            BView::Dict(entries) => match message_fold(entries) {
                Err(e) => Decoded::Fail(e),
                Ok(st) => finish_message(st, expected_tx),
            },
            _ => Decoded::Fail(DhtError::RootNotDictionary),
        },
        Parsed::Fail(e) => Decoded::Fail(e),
        Parsed::Crash => Decoded::Fail(DhtError::Empty),
    }
}

pub open spec fn opt_bytes(b: Option<Vec<u8>>) -> Option<Seq<u8>> {
    match b {
        Some(v) => Some(v@),
        None => None,
    }
}

pub open spec fn opt_response(r: Option<QueryResponse>) -> Option<ResponseView> {
    match r {
        Some(q) => Some(response_view(q)),
        None => None,
    }
}

pub open spec fn opt_error(e: Option<(i64, String)>) -> Option<(i64, Seq<char>)> {
    match e {
        Some((c, m)) => Some((c, m@)),
        None => None,
    }
}

/// Reads `packet` as the answer to the query with transaction id `expected_tx`.
pub fn decode_response(packet: &[u8], expected_tx: &[u8]) -> (r: Result<QueryResponse, DhtError>)
    requires
        !(pv(packet@) is Crash),
    ensures
        match spec_decode_response(packet@, expected_tx@) {
            Decoded::Response(b) => r matches Ok(q) && response_view(q) == b,
            Decoded::Remote(code, message) => r matches Err(DhtError::Remote(c, m)) && c == code && m@ == message,
            Decoded::NotResponse(k) => r matches Err(DhtError::NotResponse(b)) && b@ == k,
            Decoded::Fail(e) => r matches Err(x) && x == e,
        },
{
    let root = parse_bencode(packet)?;
    let ghost root_view = bview(root);
    let entries = match root {
        BencodeValue::Dict(entries) => entries,
        _ => {
            return Err(DhtError::RootNotDictionary);
        },
    };
    let ghost views = entry_views(entries@);
    assert(root_view->Dict_0 =~= views);
    let ghost outcome = match message_fold(views) {
        Err(e) => Decoded::Fail(e),
        Ok(st) => finish_message(st, expected_tx@),
    };
    assert(spec_decode_response(packet@, expected_tx@) == outcome);
    let t_k: [u8; 1] = [116u8];
    let y_k: [u8; 1] = [121u8];
    let r_k: [u8; 1] = [114u8];
    let e_k: [u8; 1] = [101u8];
    assert(t_k@ =~= seq![116u8]);
    assert(y_k@ =~= seq![121u8]);
    assert(r_k@ =~= seq![114u8]);
    assert(e_k@ =~= seq![101u8]);
    let mut tx: Option<Vec<u8>> = None;
    let mut message_type: Option<Vec<u8>> = None;
    let mut response: Option<QueryResponse> = None;
    let mut error: Option<(i64, String)> = None;
    assert(views.take(0) =~= seq![]);
    let mut i: usize = 0;
    while i < entries.len()
        invariant
            i <= entries@.len(),
            views == entry_views(entries@),
            t_k@ == seq![116u8],
            y_k@ == seq![121u8],
            r_k@ == seq![114u8],
            e_k@ == seq![101u8],
            spec_decode_response(packet@, expected_tx@) == outcome,
            outcome == (match message_fold(views) {
                Err(e) => Decoded::Fail(e),
                Ok(st) => finish_message(st, expected_tx@),
            }),
            message_fold(views.take(i as int)) == Ok::<MessageView, DhtError>(
                MessageView {
                    tx: opt_bytes(tx),
                    kind: opt_bytes(message_type),
                    body: opt_response(response),
                    error: opt_error(error),
                },
            ),
        decreases entries.len() - i,
    {
        assert(views.take(i + 1).drop_last() =~= views.take(i as int));
        assert(views.take(i + 1).last() == (entries@[i as int].0@, bview(entries@[i as int].1)));
        let key = entries[i].0.as_slice();
        let value = &entries[i].1;
        let step: Result<(), DhtError> = if bytes_equal(key, &t_k) {
            match value.as_bytes() {
                Ok(b) => {
                    let owned = copy_range(b, 0, b.len());
                    assert(owned@ =~= b@);
                    tx = Some(owned);
                    Ok(())
                },
                Err(e) => Err(e),
            }
        } else if bytes_equal(key, &y_k) {
            match value.as_bytes() {
                Ok(b) => {
                    let owned = copy_range(b, 0, b.len());
                    assert(owned@ =~= b@);
                    message_type = Some(owned);
                    Ok(())
                },
                Err(e) => Err(e),
            }
        } else if bytes_equal(key, &r_k) {
            match parse_response_body(value) {
                Ok(body) => {
                    response = Some(body);
                    Ok(())
                },
                Err(e) => Err(e),
            }
        } else if bytes_equal(key, &e_k) {
            match parse_error(value) {
                Ok(x) => {
                    error = Some(x);
                    Ok(())
                },
                Err(e) => Err(e),
            }
        } else {
            Ok(())
        };
        if let Err(e) = step {
            proof {
                lemma_message_fold_prefix(views, i + 1);
            }
            return Err(e);
        }
        i += 1;
    }
    assert(views.take(entries@.len() as int) =~= views);
    let tx = match tx {
        Some(t) => t,
        None => {
            return Err(DhtError::MissingTransaction);
        },
    };
    if !bytes_equal(tx.as_slice(), expected_tx) {
        return Err(DhtError::UnexpectedTransaction);
    }
    if let Some((code, message)) = error {
        return Err(DhtError::Remote(code, message));
    }
    let message_type = match message_type {
        Some(k) => k,
        None => {
            return Err(DhtError::MissingType);
        },
    };
    if !bytes_equal(message_type.as_slice(), &r_k) {
        return Err(DhtError::NotResponse(message_type));
    }
    match response {
        Some(body) => Ok(body),
        None => Err(DhtError::MissingBody),
    }
}

/// The decimal numeral of `n` is a nonempty run of digits worth `n`.
pub proof fn lemma_decimal_bytes(n: nat)
    ensures
        decimal_bytes(n).len() >= 1,
        all_digits(decimal_bytes(n)),
        digits_value(decimal_bytes(n)) == n,
    decreases n,
{
    if n >= 10 {
        lemma_decimal_bytes(n / 10);
        let d = decimal_bytes(n);
        assert(d.drop_last() == decimal_bytes(n / 10));
        assert(d.last() == (48 + n % 10) as u8);
        assert(digits_value(d) == digits_value(d.drop_last()) * 10 + (d.last() - 48));
        assert((n / 10) * 10 + n % 10 == n) by (nonlinear_arith);
    } else {
        let d = decimal_bytes(n);
        assert(d == seq![(48 + n) as u8]);
        assert(d.drop_last() =~= Seq::<u8>::empty());
        assert(digits_value(d.drop_last()) == 0);
        assert(digits_value(d) == digits_value(d.drop_last()) * 10 + (d.last() - 48));
        assert forall|i: int| 0 <= i < d.len() implies is_digit(#[trigger] d[i]) by {
            if i < d.len() - 1 {
                assert(d[i] == decimal_bytes(n / 10)[i]);
            }
        }
    }
}

/// Reading a bencode byte string gives back what was encoded, whatever follows it:
/// the encoder of DHT messages and their reader agree.
pub proof fn lemma_string_roundtrip(v: Seq<u8>, rest: Seq<u8>)
    requires
        spec_encode_string(v).len() + rest.len() <= usize::MAX,
    ensures
        pv(spec_encode_string(v) + rest) == Parsed::Done(BView::Bytes(v), spec_encode_string(v).len() as int),
        scan_value(spec_encode_string(v) + rest) == Scan::Len(spec_encode_string(v).len() as int),
{
    let digits = decimal_bytes(v.len());
    let d = spec_encode_string(v) + rest;
    let colon = digits.len() as int;
    lemma_decimal_bytes(v.len());
    assert(d =~= digits + (seq![58u8] + v + rest));
    assert forall|j: int| 0 <= j < colon implies d[j] != 58 by {
        assert(d[j] == digits[j]);
        assert(is_digit(digits[j]));
    }
    assert(d[colon] == 58);
    crate::bencode::lemma_first_index(d, 58, colon);
    assert(d.take(colon) =~= digits);
    crate::utf8::lemma_ascii_is_utf8(digits);
    assert(d[0] == digits[0]);
    assert(scan_value(d) == Scan::Len(colon + 1 + v.len()));
    assert(d.subrange(colon + 1, colon + 1 + v.len()) =~= v);
}

/// The numeral of a bencode integer: a minus sign for a negative number, then
/// the decimal digits of its magnitude.
pub open spec fn int_numeral(x: i64) -> Seq<u8> {
    if x < 0 {
        seq![45u8] + decimal_bytes((-x) as nat)
    } else {
        decimal_bytes(x as nat)
    }
}

/// The bencode encoding of `v`.
pub open spec fn encode_value(v: BView) -> Seq<u8>
    decreases v,
{
    match v {
        BView::Bytes(b) => spec_encode_string(b),
        BView::Int(x) => seq![105u8] + int_numeral(x) + seq![101u8],
        BView::List(items) => seq![108u8] + encode_items(items) + seq![101u8],
        BView::Dict(pairs) => seq![100u8] + encode_pairs(pairs) + seq![101u8],
    }
}

/// The encodings of `items`, one after the other.
pub open spec fn encode_items(items: Seq<BView>) -> Seq<u8>
    decreases items,
{
    if items.len() == 0 {
        seq![]
    } else {
        encode_value(items[0]) + encode_items(items.subrange(1, items.len() as int))
    }
}

/// The entries of a dictionary, each key as a byte string before its value.
pub open spec fn encode_pairs(pairs: Seq<(Seq<u8>, BView)>) -> Seq<u8>
    decreases pairs,
{
    if pairs.len() == 0 {
        seq![]
    } else {
        spec_encode_string(pairs[0].0) + encode_value(pairs[0].1) + encode_pairs(
            pairs.subrange(1, pairs.len() as int),
        )
    }
}

proof fn lemma_encode_starts(v: BView)
    ensures
        encode_value(v).len() >= 1,
        encode_value(v)[0] != 101,
{
    match v {
        BView::Bytes(b) => {
            lemma_decimal_bytes(b.len());
            assert(encode_value(v)[0] == decimal_bytes(b.len())[0]);
        },
        _ => {},
    }
}

proof fn lemma_int_roundtrip(x: i64, rest: Seq<u8>)
    requires
        encode_value(BView::Int(x)).len() + rest.len() <= usize::MAX,
    ensures
        pv(encode_value(BView::Int(x)) + rest) == Parsed::Done(BView::Int(x), encode_value(BView::Int(x)).len() as int),
{
    let num = int_numeral(x);
    let d = encode_value(BView::Int(x)) + rest;
    let end: int = num.len() as int + 1;
    assert(d =~= seq![105u8] + num + seq![101u8] + rest);
    let mag: nat = if x < 0 { (-x) as nat } else { x as nat };
    lemma_decimal_bytes(mag);
    let digits = decimal_bytes(mag);
    assert forall|j: int| 0 <= j < num.len() implies num[j] != 101 && num[j] < 128 by {
        if x < 0 {
            if j > 0 {
                assert(num[j] == digits[j - 1]);
                assert(is_digit(digits[j - 1]));
            }
        } else {
            assert(is_digit(digits[j]));
        }
    }
    assert forall|j: int| 0 <= j < end implies d[j] != 101 by {
        if j > 0 {
            assert(d[j] == num[j - 1]);
        }
    }
    assert(d[end] == 101);
    crate::bencode::lemma_first_index(d, 101, end);
    assert(d.subrange(1, end) =~= num);
    crate::utf8::lemma_ascii_is_utf8(num);
    if x < 0 {
        assert(num.skip(1) =~= digits);
    } else {
        assert(is_digit(digits[0]));
        assert(num.skip(0) =~= digits);
    }
}

/// Reading an encoded value gives it back with its length, whatever follows it:
/// encoding and parsing bencode agree.
pub proof fn lemma_value_roundtrip(v: BView, rest: Seq<u8>)
    requires
        encode_value(v).len() + rest.len() <= usize::MAX,
    ensures
        pv(encode_value(v) + rest) == Parsed::Done(v, encode_value(v).len() as int),
    decreases v,
{
    match v {
        BView::Bytes(b) => {
            lemma_string_roundtrip(b, rest);
        },
        BView::Int(x) => {
            lemma_int_roundtrip(x, rest);
        },
        BView::List(items) => {
            let d = encode_value(v) + rest;
            assert(d.skip(1) =~= encode_items(items) + seq![101u8] + rest);
            lemma_items_roundtrip(items, d, 1, rest);
        },
        BView::Dict(pairs) => {
            let d = encode_value(v) + rest;
            assert(d.skip(1) =~= encode_pairs(pairs) + seq![101u8] + rest);
            lemma_pairs_roundtrip(pairs, d, 1, rest);
        },
    }
}

proof fn lemma_items_roundtrip(items: Seq<BView>, d: Seq<u8>, offset: int, rest: Seq<u8>)
    requires
        1 <= offset <= d.len(),
        d.len() <= usize::MAX,
        d.skip(offset) == encode_items(items) + seq![101u8] + rest,
    ensures
        pv_list(d, offset) == Parsed::Done(items, offset + encode_items(items).len() + 1),
    decreases items,
{
    assert(d.skip(offset).len() == d.len() - offset);
    assert(d[offset] == d.skip(offset)[0]);
    if items.len() == 0 {
        assert(d.skip(offset) =~= seq![101u8] + rest);
        assert(items =~= seq![]);
    } else {
        let first = items[0];
        let tail = items.subrange(1, items.len() as int);
        assert(encode_items(items) == encode_value(first) + encode_items(tail));
        let after = encode_items(tail) + seq![101u8] + rest;
        assert(d.skip(offset) =~= encode_value(first) + after);
        lemma_encode_starts(first);
        assert(d[offset] == d.skip(offset)[0]);
        lemma_value_roundtrip(first, after);
        let n = encode_value(first).len() as int;
        assert(d.skip(offset + n) =~= d.skip(offset).skip(n));
        assert((encode_value(first) + after).skip(n) =~= after);
        assert(n >= 1 && offset + n <= d.len());
        assert(pv(d.skip(offset)) == Parsed::Done(first, n));
        lemma_items_roundtrip(tail, d, offset + n, rest);
        assert(seq![first] + tail =~= items);
    }
}

#[verifier::rlimit(40)]
proof fn lemma_pairs_roundtrip(pairs: Seq<(Seq<u8>, BView)>, d: Seq<u8>, offset: int, rest: Seq<u8>)
    requires
        1 <= offset <= d.len(),
        d.len() <= usize::MAX,
        d.skip(offset) == encode_pairs(pairs) + seq![101u8] + rest,
    ensures
        pv_dict(d, offset) == Parsed::Done(pairs, offset + encode_pairs(pairs).len() + 1),
    decreases pairs,
{
    assert(d.skip(offset).len() == d.len() - offset);
    assert(d[offset] == d.skip(offset)[0]);
    if pairs.len() == 0 {
        assert(d.skip(offset) =~= seq![101u8] + rest);
        assert(pairs =~= seq![]);
    } else {
        let (k, val) = pairs[0];
        let tail = pairs.subrange(1, pairs.len() as int);
        assert(encode_pairs(pairs) == spec_encode_string(k) + encode_value(val) + encode_pairs(tail));
        let after_key = encode_value(val) + encode_pairs(tail) + seq![101u8] + rest;
        let after = encode_pairs(tail) + seq![101u8] + rest;
        assert(d.skip(offset) =~= spec_encode_string(k) + after_key);
        lemma_encode_starts(BView::Bytes(k));
        assert(d[offset] == d.skip(offset)[0]);
        lemma_string_roundtrip(k, after_key);
        let kn = spec_encode_string(k).len() as int;
        assert(d.skip(offset + kn) =~= d.skip(offset).skip(kn));
        assert((spec_encode_string(k) + after_key).skip(kn) =~= after_key);
        assert(after_key =~= encode_value(val) + after);
        lemma_value_roundtrip(val, after);
        let vn = encode_value(val).len() as int;
        assert(d.skip(offset + kn + vn) =~= d.skip(offset + kn).skip(vn));
        assert((encode_value(val) + after).skip(vn) =~= after);
        assert(pv(d.skip(offset)) == Parsed::Done(BView::Bytes(k), kn));
        assert(pv(d.skip(offset + kn)) == Parsed::Done(val, vn));
        lemma_pairs_roundtrip(tail, d, offset + kn + vn, rest);
        assert(seq![(k, val)] + tail =~= pairs);
    }
}

proof fn lemma_int_measure(x: i64, rest: Seq<u8>)
    ensures
        scan_value(encode_value(BView::Int(x)) + rest) == Scan::Len(encode_value(BView::Int(x)).len() as int),
{
    let num = int_numeral(x);
    let d = encode_value(BView::Int(x)) + rest;
    let end: int = num.len() as int + 1;
    assert(d =~= seq![105u8] + num + seq![101u8] + rest);
    let mag: nat = if x < 0 { (-x) as nat } else { x as nat };
    lemma_decimal_bytes(mag);
    let digits = decimal_bytes(mag);
    assert forall|j: int| 0 <= j < end implies d[j] != 101 by {
        if j > 0 {
            assert(d[j] == num[j - 1]);
            if x < 0 {
                if j > 1 {
                    assert(num[j - 1] == digits[j - 2]);
                    assert(is_digit(digits[j - 2]));
                }
            } else {
                assert(is_digit(digits[j - 1]));
            }
        }
    }
    assert(d[end] == 101);
    crate::bencode::lemma_first_index(d, 101, end);
}

/// Measuring an encoded value gives its length, whatever follows it: the measure
/// of a value and its encoding agree.
pub proof fn lemma_value_measure(v: BView, rest: Seq<u8>)
    requires
        encode_value(v).len() + rest.len() <= usize::MAX,
    ensures
        scan_value(encode_value(v) + rest) == Scan::Len(encode_value(v).len() as int),
    decreases v,
{
    match v {
        BView::Bytes(b) => {
            lemma_string_roundtrip(b, rest);
        },
        BView::Int(x) => {
            lemma_int_measure(x, rest);
        },
        BView::List(items) => {
            let d = encode_value(v) + rest;
            assert(d.skip(1) =~= encode_items(items) + seq![101u8] + rest);
            lemma_items_measure(items, d, 1, rest);
        },
        BView::Dict(pairs) => {
            let d = encode_value(v) + rest;
            assert(d.skip(1) =~= encode_pairs(pairs) + seq![101u8] + rest);
            lemma_pairs_measure(pairs, d, 1, rest);
        },
    }
}

proof fn lemma_items_measure(items: Seq<BView>, d: Seq<u8>, offset: int, rest: Seq<u8>)
    requires
        1 <= offset <= d.len(),
        d.len() <= usize::MAX,
        d.skip(offset) == encode_items(items) + seq![101u8] + rest,
    ensures
        scan_items(d, offset, false) == Scan::Len(offset + encode_items(items).len() + 1),
    decreases items,
{
    assert(d.skip(offset).len() == d.len() - offset);
    assert(d[offset] == d.skip(offset)[0]);
    if items.len() == 0 {
        assert(d.skip(offset) =~= seq![101u8] + rest);
    } else {
        let first = items[0];
        let tail = items.subrange(1, items.len() as int);
        assert(encode_items(items) == encode_value(first) + encode_items(tail));
        let after = encode_items(tail) + seq![101u8] + rest;
        assert(d.skip(offset) =~= encode_value(first) + after);
        lemma_encode_starts(first);
        lemma_value_measure(first, after);
        let n = encode_value(first).len() as int;
        assert(d.skip(offset + n) =~= d.skip(offset).skip(n));
        assert((encode_value(first) + after).skip(n) =~= after);
        assert(scan_value(d.skip(offset)) == Scan::Len(n));
        assert(offset + n <= d.len());
        lemma_items_measure(tail, d, offset + n, rest);
    }
}

#[verifier::rlimit(40)]
proof fn lemma_pairs_measure(pairs: Seq<(Seq<u8>, BView)>, d: Seq<u8>, offset: int, rest: Seq<u8>)
    requires
        1 <= offset <= d.len(),
        d.len() <= usize::MAX,
        d.skip(offset) == encode_pairs(pairs) + seq![101u8] + rest,
    ensures
        scan_items(d, offset, true) == Scan::Len(offset + encode_pairs(pairs).len() + 1),
    decreases pairs,
{
    assert(d.skip(offset).len() == d.len() - offset);
    assert(d[offset] == d.skip(offset)[0]);
    if pairs.len() == 0 {
        assert(d.skip(offset) =~= seq![101u8] + rest);
    } else {
        let (k, val) = pairs[0];
        let tail = pairs.subrange(1, pairs.len() as int);
        assert(encode_pairs(pairs) == spec_encode_string(k) + encode_value(val) + encode_pairs(tail));
        let after_key = encode_value(val) + encode_pairs(tail) + seq![101u8] + rest;
        let after = encode_pairs(tail) + seq![101u8] + rest;
        assert(d.skip(offset) =~= spec_encode_string(k) + after_key);
        lemma_encode_starts(BView::Bytes(k));
        lemma_string_roundtrip(k, after_key);
        let kn = spec_encode_string(k).len() as int;
        assert(d.skip(offset + kn) =~= d.skip(offset).skip(kn));
        assert((spec_encode_string(k) + after_key).skip(kn) =~= after_key);
        assert(after_key =~= encode_value(val) + after);
        lemma_encode_starts(val);
        lemma_value_measure(val, after);
        let vn = encode_value(val).len() as int;
        assert(d.skip(offset + kn + vn) =~= d.skip(offset + kn).skip(vn));
        assert((encode_value(val) + after).skip(vn) =~= after);
        assert(scan_value(d.skip(offset)) == Scan::Len(kn));
        assert(scan_value(d.skip(offset + kn)) == Scan::Len(vn));
        lemma_pairs_measure(tail, d, offset + kn + vn, rest);
    }
}

/// An encoded value reads back as itself with the length of its encoding, whatever
/// follows it, and that length is the one `bencode_value_len` measures.
pub proof fn lemma_encoded_value_reads_back(v: BView, rest: Seq<u8>)
    requires
        encode_value(v).len() + rest.len() <= usize::MAX,
    ensures
        pv(encode_value(v) + rest) == Parsed::Done(v, encode_value(v).len() as int),
        spec_value_len(encode_value(v) + rest) == Ok::<usize, BencodeError>(encode_value(v).len() as usize),
{
    lemma_value_roundtrip(v, rest);
    lemma_value_measure(v, rest);
}

} // verus!
