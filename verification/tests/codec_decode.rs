use qstatus::codec::{encode, encode_with_challenge, validate_and_strip};
use qstatus::decode::{common_of, decode_payload, parse_info, parse_player_line};
use qstatus::error::Error;

fn marker() -> Vec<u8> {
    vec![0xff, 0xff, 0xff, 0xff]
}

fn framed(token: &[u8], payload: &[u8]) -> Vec<u8> {
    let mut v = marker();
    v.extend_from_slice(token);
    v.push(b'\n');
    v.extend_from_slice(payload);
    v
}

#[test]
fn encode_plain_round_trips() {
    let req = encode(&b"status".to_vec());
    assert_eq!(req, framed(b"status", b""));
    let (token, payload) = validate_and_strip(&req).unwrap();
    assert_eq!(token, b"status".to_vec());
    assert!(payload.is_empty());
}

#[test]
fn encode_with_challenge_round_trips() {
    let req = encode_with_challenge(&b"getstatus".to_vec(), &b"12345".to_vec());
    let (token, payload) = validate_and_strip(&req).unwrap();
    assert_eq!(token, b"getstatus 12345".to_vec());
    assert!(payload.is_empty());
}

#[test]
fn missing_marker_is_protocol_error() {
    assert_eq!(validate_and_strip(&b"status\n".to_vec()), Err(Error::Protocol));
    assert_eq!(validate_and_strip(&vec![0xff, 0xff, 0xff]), Err(Error::Protocol));
    let mut almost = vec![0xff, 0xff, 0xfe, 0xff];
    almost.extend_from_slice(b"print\nrest");
    assert_eq!(validate_and_strip(&almost), Err(Error::Protocol));
}

#[test]
fn missing_newline_is_protocol_error() {
    let mut v = marker();
    v.extend_from_slice(b"print");
    assert_eq!(validate_and_strip(&v), Err(Error::Protocol));
}

#[test]
fn strip_returns_payload() {
    let reply = framed(b"print", b"\\hostname\\x\\\n");
    let (token, payload) = validate_and_strip(&reply).unwrap();
    assert_eq!(token, b"print".to_vec());
    assert_eq!(payload, b"\\hostname\\x\\\n".to_vec());
}

#[test]
fn player_line_with_few_fields_is_decode_error() {
    assert_eq!(parse_player_line(&b"5".to_vec()), Err(Error::Decode));
    assert_eq!(parse_player_line(&b"5 10".to_vec()), Err(Error::Decode));
    assert_eq!(parse_player_line(&b"\"name only\"".to_vec()), Err(Error::Decode));
    assert_eq!(parse_player_line(&b"".to_vec()), Err(Error::Decode));
}

#[test]
fn player_line_with_trailing_whitespace_decodes() {
    let p = parse_player_line(&b"5 10 \"Bob\"   \r".to_vec()).unwrap();
    assert_eq!(p.score, 5);
    assert_eq!(p.ping, 10);
    assert_eq!(p.name, b"Bob".to_vec());
}

#[test]
fn player_line_negative_score_decodes() {
    let p = parse_player_line(&b"-3 251 \"camper one\"".to_vec()).unwrap();
    assert_eq!(p.score, -3);
    assert_eq!(p.ping, 251);
    assert_eq!(p.name, b"camper one".to_vec());
}

#[test]
fn player_line_with_unquoted_name_is_decode_error() {
    assert_eq!(parse_player_line(&b"5 10 Bob".to_vec()), Err(Error::Decode));
}

#[test]
fn player_line_with_unterminated_quote_is_decode_error() {
    assert_eq!(parse_player_line(&b"5 10 \"Bob".to_vec()), Err(Error::Decode));
}

#[test]
fn player_line_with_junk_after_name_is_decode_error() {
    assert_eq!(parse_player_line(&b"5 10 \"Bob\" junk".to_vec()), Err(Error::Decode));
}

#[test]
fn info_line_parses_pairs_in_order() {
    let pairs = parse_info(&b"\\hostname\\Test Server\\players\\2\\".to_vec()).unwrap();
    assert_eq!(pairs.len(), 2);
    assert_eq!(pairs[0].0, b"hostname".to_vec());
    assert_eq!(pairs[0].1, b"Test Server".to_vec());
    assert_eq!(pairs[1].0, b"players".to_vec());
    assert_eq!(pairs[1].1, b"2".to_vec());
}

#[test]
fn info_line_without_trailing_backslash_parses() {
    let pairs = parse_info(&b"\\mapname\\q2dm1".to_vec()).unwrap();
    assert_eq!(pairs.len(), 1);
    assert_eq!(pairs[0].0, b"mapname".to_vec());
    assert_eq!(pairs[0].1, b"q2dm1".to_vec());
}

#[test]
fn info_line_with_dangling_key_is_decode_error() {
    assert_eq!(parse_info(&b"\\hostname".to_vec()), Err(Error::Decode));
}

#[test]
fn info_line_not_starting_with_backslash_is_decode_error() {
    assert_eq!(parse_info(&b"hostname\\x\\".to_vec()), Err(Error::Decode));
}

#[test]
fn empty_info_line_is_empty() {
    let pairs = parse_info(&b"".to_vec()).unwrap();
    assert!(pairs.is_empty());
}

#[test]
fn decode_full_payload() {
    let payload = b"\\hostname\\Test Server\\players\\2\\\n1 10 \"one\"\n2 20 \"two\"\n".to_vec();
    let resp = decode_payload(&payload).unwrap();
    assert_eq!(resp.players.len(), 2);
    assert_eq!(resp.players[0].name, b"one".to_vec());
    assert_eq!(resp.players[1].score, 2);
    assert_eq!(resp.info[0].1, b"Test Server".to_vec());
}

#[test]
fn declared_count_mismatch_is_decode_error() {
    let payload = b"\\hostname\\x\\players\\3\\\n1 10 \"one\"\n2 20 \"two\"\n".to_vec();
    assert_eq!(decode_payload(&payload), Err(Error::Decode));
}

#[test]
fn non_numeric_declared_count_is_decode_error() {
    let payload = b"\\players\\many\\\n1 10 \"one\"\n".to_vec();
    assert_eq!(decode_payload(&payload), Err(Error::Decode));
}

#[test]
fn bad_player_line_in_payload_is_decode_error() {
    let payload = b"\\hostname\\x\\\n1 10 \"ok\"\nbroken\n".to_vec();
    assert_eq!(decode_payload(&payload), Err(Error::Decode));
}

#[test]
fn decode_empty_payload_is_empty_response() {
    let resp = decode_payload(&b"".to_vec()).unwrap();
    assert!(resp.info.is_empty());
    assert!(resp.players.is_empty());
}

#[test]
fn common_projection_fields() {
    let payload =
        b"\\hostname\\Test Server\\mapname\\q2dm1\\maxclients\\16\\\n7 33 \"solo\"\n".to_vec();
    let resp = decode_payload(&payload).unwrap();
    let c = common_of(&resp);
    assert_eq!(c.name, Some(b"Test Server".to_vec()));
    assert_eq!(c.map, Some(b"q2dm1".to_vec()));
    assert_eq!(c.players_online, 1);
    assert_eq!(c.players_maximum, Some(16));
}

#[test]
fn common_projection_missing_keys_left_unset() {
    let resp = decode_payload(&b"\\other\\x\\\n".to_vec()).unwrap();
    let c = common_of(&resp);
    assert_eq!(c.name, None);
    assert_eq!(c.map, None);
    assert_eq!(c.players_online, 0);
    assert_eq!(c.players_maximum, None);
}

#[test]
fn error_descriptions_differ() {
    assert_ne!(Error::Timeout.describe(), Error::Protocol.describe());
    assert_ne!(Error::Decode.describe(), Error::Socket.describe());
}
