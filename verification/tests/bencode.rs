use bitorrentclient::bencode::{bencode_value_len, info_dict_bytes, info_hash, BencodeError};

#[test]
fn measures_complete_values() {
    assert_eq!(bencode_value_len(b"i42e"), Ok(4));
    assert_eq!(bencode_value_len(b"4:spam rest"), Ok(6));
    assert_eq!(bencode_value_len(b"l4:spami1ee"), Ok(11));
    assert_eq!(bencode_value_len(b"d1:ai1e1:bl1:xee..."), Ok(16));
}

#[test]
fn a_string_shorter_than_its_length_is_an_error() {
    let err = bencode_value_len(b"5:ab").unwrap_err();
    assert_eq!(err, BencodeError::TruncatedString);
    assert_eq!(err.to_string(), "bencode string runs past the end of the input");
    assert_eq!(bencode_value_len(b"d9:ae"), Err(BencodeError::TruncatedString));
    assert_eq!(bencode_value_len(b"18446744073709551615:a"), Err(BencodeError::TruncatedString));
}

#[test]
fn unterminated_containers_are_errors() {
    assert_eq!(bencode_value_len(b"l"), Err(BencodeError::UnterminatedList));
    assert_eq!(bencode_value_len(b"d"), Err(BencodeError::UnterminatedDictionary));
    assert_eq!(bencode_value_len(b"li1e"), Err(BencodeError::UnterminatedList));
    assert_eq!(bencode_value_len(b""), Err(BencodeError::Empty));
    assert_eq!(bencode_value_len(b"x"), Err(BencodeError::UnexpectedPrefix(b'x')));
}

#[test]
fn info_is_the_value_of_the_root_key() {
    let data: &[u8] = b"d8:announce7:x4:info4:infod4:name1:aee";
    assert_eq!(info_dict_bytes(data), Ok(&b"d4:name1:ae"[..]));
}

#[test]
fn info_key_as_a_value_is_skipped() {
    let data: &[u8] = b"d1:a4:info4:infoi7ee";
    assert_eq!(info_dict_bytes(data), Ok(&b"i7e"[..]));
}

#[test]
fn torrent_without_info_key_is_refused() {
    assert_eq!(info_dict_bytes(b"d8:announce4:infoe"), Err(BencodeError::MissingInfo));
    assert_eq!(info_dict_bytes(b"l4:info4:infoe"), Err(BencodeError::MissingInfo));
    assert_eq!(info_dict_bytes(b"d8:announce4:info"), Err(BencodeError::UnterminatedDictionary));
    assert_eq!(info_dict_bytes(b""), Err(BencodeError::Empty));
    assert_eq!(info_dict_bytes(b"d4:info9:ab"), Err(BencodeError::TruncatedString));
    assert!(info_hash(b"d4:infoe").is_err());
}
