use torrent_meta::hash::{hex_string, info_hash};
use torrent_meta::torrent::{
    assemble, extract_bytes, extract_dict, extract_info, extract_int, extract_string,
};
use torrent_meta::value::find;
use torrent_meta::{decode, encode, extract, parse_torrent_file, Error, Field, Torrent, TorrentInfo, Value};

fn bytes(text: &str) -> Value {
    Value::ByteString(text.as_bytes().to_vec())
}

fn pieces() -> Vec<u8> {
    (0..60u32).map(|i| ((i * 37 + 11) % 256) as u8).collect()
}

fn info_entries() -> Vec<(Vec<u8>, Value)> {
    vec![
        (b"length".to_vec(), Value::Integer(92063)),
        (b"name".to_vec(), bytes("sample.txt")),
        (b"piece length".to_vec(), Value::Integer(32768)),
        (b"pieces".to_vec(), Value::ByteString(pieces())),
    ]
}

fn torrent_with(announce: Value, info: Value) -> Value {
    Value::Dictionary(vec![(b"announce".to_vec(), announce), (b"info".to_vec(), info)])
}

fn sample() -> Value {
    torrent_with(bytes("http://tracker.example/announce"), Value::Dictionary(info_entries()))
}

fn without(entries: Vec<(Vec<u8>, Value)>, key: &[u8]) -> Vec<(Vec<u8>, Value)> {
    entries.into_iter().filter(|(k, _)| k.as_slice() != key).collect()
}

fn with(entries: Vec<(Vec<u8>, Value)>, key: &[u8], value: Value) -> Vec<(Vec<u8>, Value)> {
    let mut entries = without(entries, key);
    entries.push((key.to_vec(), value));
    entries
}

fn sample_with_info(info: Vec<(Vec<u8>, Value)>) -> Value {
    torrent_with(bytes("http://tracker.example/announce"), Value::Dictionary(info))
}

#[test]
fn extract_minimal_torrent() {
    let torrent = extract(&sample()).unwrap();
    assert_eq!(torrent.announce, "http://tracker.example/announce");
    assert_eq!(torrent.info.length, 92063);
    assert_eq!(torrent.info.name, "sample.txt");
    assert_eq!(torrent.info.piece_length, 32768);
    assert_eq!(torrent.info.pieces, pieces());
    assert_eq!(torrent.info_hash, "5404adb7b42bef7f9830e4491d9dc6801445cced");
}

#[test]
fn info_hash_is_forty_lower_case_hex_digits() {
    let torrent = extract(&sample()).unwrap();
    assert_eq!(torrent.info_hash.len(), 40);
    assert!(torrent.info_hash.chars().all(|c| matches!(c, '0'..='9' | 'a'..='f')));
}

#[test]
fn info_hash_is_the_same_each_time() {
    let first = extract(&sample()).unwrap();
    let second = extract(&sample()).unwrap();
    assert_eq!(first.info_hash, second.info_hash);
    assert_eq!(first, second);
}

#[test]
fn info_hash_covers_fields_that_are_not_extracted() {
    let info = with(
        info_entries(),
        b"md5sum",
        bytes("0123456789abcdef0123456789abcdef"),
    );
    let torrent = extract(&sample_with_info(info)).unwrap();
    assert_eq!(torrent.info.length, 92063);
    assert_eq!(torrent.info_hash, "2d179654642eb806ba73ee7fce52712d5ec5ac7c");
}

#[test]
fn info_hash_does_not_depend_on_the_order_of_the_fields() {
    let mut info = info_entries();
    info.reverse();
    let torrent = extract(&sample_with_info(info)).unwrap();
    assert_eq!(torrent.info_hash, "5404adb7b42bef7f9830e4491d9dc6801445cced");
}

#[test]
fn info_hash_of_small_values() {
    assert_eq!(info_hash(&bytes("hello")), "e28910ea0adb94dd45ced75fbff3e135c01bc437");
    assert_eq!(info_hash(&Value::Integer(0)), "a6488b97c65e2fc2befd4261f70ac5570c7a7e42");
    assert_eq!(info_hash(&Value::List(Vec::new())), "593b743b207e10ff55ec63e71a46c07909d0880a");
    assert_eq!(
        info_hash(&Value::Dictionary(Vec::new())),
        "600ccd1b71569232d01d110bc63e906beab04d8c"
    );
    assert_eq!(
        info_hash(&Value::Dictionary(vec![(b"a".to_vec(), Value::Integer(1))])),
        "f07b49d80353d8bc839cb1b2782f2eb8fc1ccdd2"
    );
}

#[test]
fn hex_string_writes_two_digits_for_each_byte() {
    assert_eq!(hex_string(&[1, 2, 3, 15, 16]), "0102030f10");
    assert_eq!(hex_string(&[]), "");
    assert_eq!(hex_string(&[0, 255, 171, 205]), "00ffabcd");
    assert_eq!(hex_string(b"Hello world!"), "48656c6c6f20776f726c6421");
}

#[test]
fn missing_length_is_a_schema_error_of_length() {
    let info = without(info_entries(), b"length");
    assert_eq!(extract(&sample_with_info(info)), Err(Error::SchemaError(Field::Length)));
}

#[test]
fn length_of_the_wrong_kind_is_a_schema_error_of_length() {
    let info = with(info_entries(), b"length", bytes("92063"));
    assert_eq!(extract(&sample_with_info(info)), Err(Error::SchemaError(Field::Length)));
}

#[test]
fn missing_name_is_a_schema_error_of_name() {
    let info = without(info_entries(), b"name");
    assert_eq!(extract(&sample_with_info(info)), Err(Error::SchemaError(Field::Name)));
}

#[test]
fn name_that_is_no_text_is_a_schema_error_of_name() {
    let info = with(info_entries(), b"name", Value::ByteString(vec![0xff, 0xfe]));
    assert_eq!(extract(&sample_with_info(info)), Err(Error::SchemaError(Field::Name)));
    let info = with(info_entries(), b"name", Value::Integer(1));
    assert_eq!(extract(&sample_with_info(info)), Err(Error::SchemaError(Field::Name)));
}

#[test]
fn missing_piece_length_is_a_schema_error_of_piece_length() {
    let info = without(info_entries(), b"piece length");
    assert_eq!(extract(&sample_with_info(info)), Err(Error::SchemaError(Field::PieceLength)));
    let info = with(info_entries(), b"piece length", Value::List(Vec::new()));
    assert_eq!(extract(&sample_with_info(info)), Err(Error::SchemaError(Field::PieceLength)));
}

#[test]
fn missing_pieces_is_a_schema_error_of_pieces() {
    let info = without(info_entries(), b"pieces");
    assert_eq!(extract(&sample_with_info(info)), Err(Error::SchemaError(Field::Pieces)));
    let info = with(info_entries(), b"pieces", Value::Integer(0));
    assert_eq!(extract(&sample_with_info(info)), Err(Error::SchemaError(Field::Pieces)));
}

#[test]
fn pieces_need_not_be_text() {
    let torrent = extract(&sample()).unwrap();
    assert!(String::from_utf8(torrent.info.pieces).is_err());
}

#[test]
fn missing_info_is_a_schema_error_of_info() {
    let v = Value::Dictionary(vec![(
        b"announce".to_vec(),
        bytes("http://tracker.example/announce"),
    )]);
    assert_eq!(extract(&v), Err(Error::SchemaError(Field::Info)));
}

#[test]
fn info_of_the_wrong_kind_is_a_schema_error_of_info() {
    let v = torrent_with(bytes("http://tracker.example/announce"), Value::List(Vec::new()));
    assert_eq!(extract(&v), Err(Error::SchemaError(Field::Info)));
}

#[test]
fn missing_announce_is_a_schema_error_of_announce() {
    let v = Value::Dictionary(vec![(b"info".to_vec(), Value::Dictionary(info_entries()))]);
    assert_eq!(extract(&v), Err(Error::SchemaError(Field::Announce)));
}

#[test]
fn announce_of_the_wrong_kind_is_a_schema_error_of_announce() {
    let v = torrent_with(Value::Integer(1), Value::Dictionary(info_entries()));
    assert_eq!(extract(&v), Err(Error::SchemaError(Field::Announce)));
}

#[test]
fn value_that_is_no_dictionary_is_a_schema_error_of_the_root() {
    assert_eq!(extract(&Value::Integer(1)), Err(Error::SchemaError(Field::Root)));
    assert_eq!(extract(&Value::List(Vec::new())), Err(Error::SchemaError(Field::Root)));
    assert_eq!(extract(&bytes("d")), Err(Error::SchemaError(Field::Root)));
}

#[test]
fn announce_that_is_no_url_is_invalid() {
    let v = torrent_with(bytes("not a url"), Value::Dictionary(info_entries()));
    assert_eq!(extract(&v), Err(Error::InvalidAnnounceUrl));
    let v = torrent_with(bytes("tracker.example/announce"), Value::Dictionary(info_entries()));
    assert_eq!(extract(&v), Err(Error::InvalidAnnounceUrl));
    let v = torrent_with(bytes(""), Value::Dictionary(info_entries()));
    assert_eq!(extract(&v), Err(Error::InvalidAnnounceUrl));
}

#[test]
fn announce_that_is_no_text_is_invalid() {
    let v = torrent_with(Value::ByteString(vec![0xff, 0x00]), Value::Dictionary(info_entries()));
    assert_eq!(extract(&v), Err(Error::InvalidAnnounceUrl));
}

#[test]
fn announce_that_is_no_text_is_found_before_a_missing_info() {
    let v = Value::Dictionary(vec![(b"announce".to_vec(), Value::ByteString(vec![0xff]))]);
    assert_eq!(extract(&v), Err(Error::InvalidAnnounceUrl));
}

#[test]
fn info_fields_are_checked_before_the_url() {
    let info = without(info_entries(), b"pieces");
    let v = torrent_with(bytes("not a url"), Value::Dictionary(info));
    assert_eq!(extract(&v), Err(Error::SchemaError(Field::Pieces)));
}

#[test]
fn first_missing_info_field_is_reported() {
    let info = without(without(info_entries(), b"length"), b"name");
    assert_eq!(extract(&sample_with_info(info)), Err(Error::SchemaError(Field::Length)));
    let info = without(without(info_entries(), b"pieces"), b"name");
    assert_eq!(extract(&sample_with_info(info)), Err(Error::SchemaError(Field::Name)));
}

#[test]
fn announce_is_given_in_serialized_form() {
    let v = torrent_with(
        bytes("HTTP://Tracker.Example:80/a b"),
        Value::Dictionary(info_entries()),
    );
    assert_eq!(extract(&v).unwrap().announce, "http://tracker.example/a%20b");
    let v = torrent_with(bytes("http://tracker.example"), Value::Dictionary(info_entries()));
    assert_eq!(extract(&v).unwrap().announce, "http://tracker.example/");
    let v = torrent_with(
        bytes("udp://tracker.example:6969/announce"),
        Value::Dictionary(info_entries()),
    );
    assert_eq!(extract(&v).unwrap().announce, "udp://tracker.example:6969/announce");
}

#[test]
fn negative_length_is_passed_on() {
    let info = with(info_entries(), b"length", Value::Integer(-1));
    assert_eq!(extract(&sample_with_info(info)).unwrap().info.length, -1);
}

#[test]
fn parse_torrent_file_decodes_and_extracts() {
    let content = encode(&sample());
    assert_eq!(content.len(), 181);
    let torrent = parse_torrent_file(&content).unwrap();
    assert_eq!(
        torrent,
        Torrent {
            announce: "http://tracker.example/announce".to_string(),
            info: TorrentInfo {
                length: 92063,
                name: "sample.txt".to_string(),
                piece_length: 32768,
                pieces: pieces(),
            },
            info_hash: "5404adb7b42bef7f9830e4491d9dc6801445cced".to_string(),
        }
    );
}

#[test]
fn parse_torrent_file_hashes_the_canonical_form_of_unsorted_input() {
    let mut content = b"d4:infod4:name10:sample.txt6:lengthi92063e6:pieces60:".to_vec();
    content.extend_from_slice(&pieces());
    content.extend_from_slice(b"12:piece lengthi32768ee8:announce31:http://tracker.example/announcee");
    let torrent = parse_torrent_file(&content).unwrap();
    assert_eq!(torrent.info_hash, "5404adb7b42bef7f9830e4491d9dc6801445cced");
    assert_eq!(torrent.info.length, 92063);
}

#[test]
fn parse_torrent_file_passes_decoding_errors_on() {
    let content = encode(&sample());
    assert_eq!(parse_torrent_file(&content[..100]), Err(Error::TruncatedInput));
    assert_eq!(parse_torrent_file(b"d8:announcei04ee"), Err(Error::MalformedInput(12)));
    assert_eq!(parse_torrent_file(b"i1e"), Err(Error::SchemaError(Field::Root)));
    assert_eq!(parse_torrent_file(b"de"), Err(Error::SchemaError(Field::Announce)));
}

#[test]
fn extract_int_finds_integers_only() {
    let info = info_entries();
    assert_eq!(extract_int(Field::Length, &info), Ok(92063));
    assert_eq!(extract_int(Field::PieceLength, &info), Ok(32768));
    assert_eq!(extract_int(Field::Name, &info), Err(Error::SchemaError(Field::Name)));
    assert_eq!(extract_int(Field::Announce, &info), Err(Error::SchemaError(Field::Announce)));
}

#[test]
fn extract_string_finds_text_only() {
    let info = info_entries();
    assert_eq!(extract_string(Field::Name, &info), Ok("sample.txt".to_string()));
    assert_eq!(extract_string(Field::Length, &info), Err(Error::SchemaError(Field::Length)));
    assert_eq!(extract_string(Field::Pieces, &info), Err(Error::SchemaError(Field::Pieces)));
    assert_eq!(extract_string(Field::Info, &info), Err(Error::SchemaError(Field::Info)));
}

#[test]
fn extract_bytes_finds_byte_strings_only() {
    let info = info_entries();
    assert_eq!(extract_bytes(Field::Pieces, &info), Ok(pieces()));
    assert_eq!(extract_bytes(Field::Name, &info), Ok(b"sample.txt".to_vec()));
    assert_eq!(extract_bytes(Field::Length, &info), Err(Error::SchemaError(Field::Length)));
}

#[test]
fn extract_dict_finds_dictionaries_only() {
    let top = match sample() {
        Value::Dictionary(entries) => entries,
        _ => unreachable!(),
    };
    assert_eq!(extract_dict(Field::Info, &top), Ok(&info_entries()));
    assert_eq!(extract_dict(Field::Announce, &top), Err(Error::SchemaError(Field::Announce)));
    assert_eq!(extract_dict(Field::Length, &top), Err(Error::SchemaError(Field::Length)));
}

#[test]
fn extract_info_reads_the_four_fields() {
    assert_eq!(
        extract_info(&info_entries()),
        Ok(TorrentInfo {
            length: 92063,
            name: "sample.txt".to_string(),
            piece_length: 32768,
            pieces: pieces(),
        })
    );
    assert_eq!(extract_info(&Vec::new()), Err(Error::SchemaError(Field::Length)));
}

#[test]
fn assemble_needs_a_parsed_url() {
    let info = extract_info(&info_entries()).unwrap();
    assert_eq!(assemble(None, info, "00".to_string()), Err(Error::InvalidAnnounceUrl));
    let info = extract_info(&info_entries()).unwrap();
    let torrent = assemble(Some("http://t/".to_string()), info, "00".to_string()).unwrap();
    assert_eq!(torrent.announce, "http://t/");
    assert_eq!(torrent.info_hash, "00");
    assert_eq!(torrent.info.length, 92063);
}

#[test]
fn find_gives_the_value_of_the_key() {
    let info = info_entries();
    assert_eq!(find(&info, b"length"), Some(&Value::Integer(92063)));
    assert_eq!(find(&info, b"piece length"), Some(&Value::Integer(32768)));
    assert_eq!(find(&info, b"piece"), None);
    assert_eq!(find(&info, b""), None);
    assert_eq!(find(&Vec::new(), b"length"), None);
}

#[test]
fn find_gives_the_first_of_two_entries_with_the_key() {
    let entries = vec![
        (b"k".to_vec(), Value::Integer(1)),
        (b"k".to_vec(), Value::Integer(2)),
    ];
    assert_eq!(find(&entries, b"k"), Some(&Value::Integer(1)));
}

#[test]
fn field_names_are_the_keys() {
    assert_eq!(Field::Announce.name(), "announce");
    assert_eq!(Field::Info.name(), "info");
    assert_eq!(Field::Length.name(), "length");
    assert_eq!(Field::Name.name(), "name");
    assert_eq!(Field::PieceLength.name(), "piece length");
    assert_eq!(Field::Pieces.name(), "pieces");
    assert_eq!(Field::Root.name(), "");
}

#[test]
fn decoded_torrent_is_well_formed_for_extraction() {
    let decoded = decode(&encode(&sample())).unwrap();
    assert_eq!(decoded, sample());
    assert!(extract(&decoded).is_ok());
}

#[test]
fn torrent_info_sizes_in_order() {
    let info = extract_info(&info_entries()).unwrap();
    assert!(info.is_well_formed());
    let empty = TorrentInfo { length: 0, name: String::new(), piece_length: 1, pieces: Vec::new() };
    assert!(empty.is_well_formed());
}

#[test]
fn torrent_info_sizes_out_of_order() {
    let negative = with(info_entries(), b"length", Value::Integer(-1));
    assert!(!extract_info(&negative).unwrap().is_well_formed());
    let no_piece_length = with(info_entries(), b"piece length", Value::Integer(0));
    assert!(!extract_info(&no_piece_length).unwrap().is_well_formed());
    let broken = with(info_entries(), b"pieces", Value::ByteString(vec![0; 59]));
    assert!(!extract_info(&broken).unwrap().is_well_formed());
    let one_more = with(info_entries(), b"pieces", Value::ByteString(vec![0; 21]));
    assert!(!extract_info(&one_more).unwrap().is_well_formed());
}
