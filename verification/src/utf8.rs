//! UTF-8 checks and decoding from std.
use vstd::prelude::*;
use vstd::utf8::{decode_utf8, valid_utf8};

verus! {

/// `std::str::from_utf8`: succeeds exactly when `bytes` is valid UTF-8.
#[verifier::external_body]
pub(crate) fn utf8_valid(bytes: &[u8]) -> (ok: bool)
    ensures
        ok == valid_utf8(bytes@),
{
    std::str::from_utf8(bytes).is_ok()
}

/// `String::from_utf8`: the text that `bytes` encodes, when they are valid UTF-8.
#[verifier::external_body]
pub(crate) fn string_from_utf8(bytes: Vec<u8>) -> (s: Option<String>)
    ensures
        s is Some <==> valid_utf8(bytes@),
        s matches Some(t) ==> t@ == decode_utf8(bytes@),
{
    String::from_utf8(bytes).ok()
}

/// What `String::from_utf8_lossy` gives for `bytes`.
pub uninterp spec fn lossy_utf8(bytes: Seq<u8>) -> Seq<char>;

/// `String::from_utf8_lossy`: the text of `bytes`, each invalid sequence replaced
/// by U+FFFD. Valid UTF-8 comes back decoded as it is.
#[verifier::external_body]
pub(crate) fn string_from_utf8_lossy(bytes: &[u8]) -> (s: String)
    ensures
        s@ == lossy_utf8(bytes@),
        valid_utf8(bytes@) ==> s@ == decode_utf8(bytes@),
{
    String::from_utf8_lossy(bytes).into_owned()
}

/// What the `Debug` form of the text `s` is.
pub uninterp spec fn debug_text(s: Seq<char>) -> Seq<char>;

/// `format!("{:?}", s)` for a string: the text in double quotes with quotes,
/// backslashes and control characters escaped. Nothing more is stated of it.
#[verifier::external_body]
pub(crate) fn debug_string(s: &str) -> (r: String)
    ensures
        r@ == debug_text(s@),
{
    format!("{:?}", s)
}

/// Whether every byte is ASCII.
pub open spec fn all_ascii(data: Seq<u8>) -> bool {
    forall|i: int| 0 <= i < data.len() ==> #[trigger] data[i] < 128
}

/// ASCII bytes are valid UTF-8.
pub proof fn lemma_ascii_is_utf8(data: Seq<u8>)
    requires
        all_ascii(data),
    ensures
        valid_utf8(data),
    decreases data.len(),
{
    reveal_with_fuel(valid_utf8, 2);
    if data.len() > 0 {
        assert(data.subrange(1, data.len() as int) =~= data.drop_first());
        lemma_ascii_is_utf8(data.drop_first());
        assert(data.drop_first() =~= data.subrange(1, data.len() as int));
    }
}

} // verus!
