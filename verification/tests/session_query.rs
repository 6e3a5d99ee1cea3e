use qstatus::error::Error;
use qstatus::fragment::{parse_fragment, parse_fragments, reassemble, Fragment};
use qstatus::query::{game_descriptor, set_hostname_if_missing, ExtraSettings, Query, QueryPhase};
use qstatus::session::{Action, Event, Session, TimeoutSettings};

fn framed(token: &[u8], payload: &[u8]) -> Vec<u8> {
    let mut v = vec![0xff, 0xff, 0xff, 0xff];
    v.extend_from_slice(token);
    v.push(b'\n');
    v.extend_from_slice(payload);
    v
}

#[test]
fn fragment_header_parses() {
    let f = parse_fragment(&b"#2 abc".to_vec()).unwrap();
    assert_eq!(f.index, 2);
    assert_eq!(f.data, b"abc".to_vec());
    let g = parse_fragment(&b"\\plain\\payload\\".to_vec()).unwrap();
    assert_eq!(g.index, 0);
    assert_eq!(g.data, b"\\plain\\payload\\".to_vec());
}

#[test]
fn bad_fragment_header_is_decode_error() {
    assert_eq!(parse_fragment(&b"#abc".to_vec()), Err(Error::Decode));
    assert_eq!(parse_fragment(&b"#12".to_vec()), Err(Error::Decode));
}

#[test]
fn out_of_order_fragments_reassemble_identically() {
    let in_order = vec![
        Fragment { index: 0, data: b"Hello ".to_vec() },
        Fragment { index: 1, data: b"frag".to_vec() },
        Fragment { index: 2, data: b"mented world".to_vec() },
    ];
    let shuffled = vec![
        Fragment { index: 2, data: b"mented world".to_vec() },
        Fragment { index: 0, data: b"Hello ".to_vec() },
        Fragment { index: 1, data: b"frag".to_vec() },
    ];
    let a = reassemble(&in_order).unwrap();
    let b = reassemble(&shuffled).unwrap();
    assert_eq!(a, b);
    assert_eq!(a, b"Hello fragmented world".to_vec());
}

#[test]
fn missing_fragment_index_is_decode_error() {
    let frags = vec![
        Fragment { index: 0, data: b"a".to_vec() },
        Fragment { index: 2, data: b"c".to_vec() },
    ];
    assert_eq!(reassemble(&frags), Err(Error::Decode));
}

#[test]
fn duplicate_index_first_arrival_wins() {
    let frags = vec![
        Fragment { index: 0, data: b"first".to_vec() },
        Fragment { index: 0, data: b"second".to_vec() },
    ];
    // Index 1 is missing, so the set is incomplete.
    assert_eq!(reassemble(&frags), Err(Error::Decode));
}

#[test]
fn parse_fragments_keeps_arrival_order() {
    let payloads = vec![b"#1 tail".to_vec(), b"#0 head ".to_vec()];
    let frags = parse_fragments(&payloads).unwrap();
    assert_eq!(frags.len(), 2);
    assert_eq!(frags[0].index, 1);
    assert_eq!(frags[1].index, 0);
    assert_eq!(reassemble(&frags).unwrap(), b"head tail".to_vec());
}

#[test]
fn session_times_out_after_exact_attempts() {
    let mut s = Session::begin(3, b"print".to_vec());
    let mut sends = 1;  // the send accounted at begin
    let mut outcome = None;
    for _ in 0..10 {
        match s.on_event(Event::WindowElapsed) {
            Action::SendRequest => sends += 1,
            Action::Fail(e) => {
                outcome = Some(e);
                break;
            },
            a => panic!("unexpected action {:?}", a),
        }
    }
    assert_eq!(sends, 3);
    assert_eq!(outcome, Some(Error::Timeout));
}

#[test]
fn session_single_attempt_times_out_at_once() {
    let mut s = Session::begin(1, b"print".to_vec());
    assert_eq!(s.on_event(Event::WindowElapsed), Action::Fail(Error::Timeout));
}

#[test]
fn session_nonconformant_reply_is_protocol_error() {
    let mut s = Session::begin(3, b"print".to_vec());
    assert_eq!(s.on_event(Event::Datagram(b"garbage".to_vec())), Action::KeepWaiting);
    assert_eq!(s.on_event(Event::WindowElapsed), Action::Fail(Error::Protocol));
}

#[test]
fn session_wrong_token_is_protocol_error() {
    let mut s = Session::begin(3, b"print".to_vec());
    let stale = framed(b"statusResponse", b"\\a\\b\\");
    assert_eq!(s.on_event(Event::Datagram(stale)), Action::KeepWaiting);
    assert_eq!(s.on_event(Event::WindowElapsed), Action::Fail(Error::Protocol));
}

#[test]
fn session_delivers_conformant_payloads() {
    let mut s = Session::begin(3, b"print".to_vec());
    let reply = framed(b"print", b"\\a\\b\\\n");
    assert_eq!(s.on_event(Event::Datagram(reply)), Action::KeepWaiting);
    assert_eq!(s.on_event(Event::WindowElapsed), Action::Deliver);
    let payloads = s.into_payloads();
    assert_eq!(payloads, vec![b"\\a\\b\\\n".to_vec()]);
}

#[test]
fn session_discards_garbage_but_keeps_reply() {
    let mut s = Session::begin(3, b"print".to_vec());
    assert_eq!(s.on_event(Event::Datagram(b"noise".to_vec())), Action::KeepWaiting);
    let reply = framed(b"print", b"\\a\\b\\\n");
    assert_eq!(s.on_event(Event::Datagram(reply)), Action::KeepWaiting);
    assert_eq!(s.on_event(Event::WindowElapsed), Action::Deliver);
    assert_eq!(s.into_payloads(), vec![b"\\a\\b\\\n".to_vec()]);
}

#[test]
fn session_socket_failure_is_fatal() {
    let mut s = Session::begin(3, b"print".to_vec());
    assert_eq!(s.on_event(Event::SocketFailed), Action::Fail(Error::Socket));
}

#[test]
fn timeout_defaults_apply_when_unset() {
    let ts = TimeoutSettings::default();
    assert_eq!(ts.read_ms(), 1000);
    assert_eq!(ts.write_ms(), 1000);
    assert_eq!(ts.attempt_budget(), 3);
    let ts2 = TimeoutSettings {
        read_timeout_ms: Some(250),
        write_timeout_ms: None,
        attempts: Some(0),
    };
    assert_eq!(ts2.read_ms(), 250);
    assert_eq!(ts2.write_ms(), 1000);
    assert_eq!(ts2.attempt_budget(), 1);
}

#[test]
fn hostname_filled_only_when_missing() {
    let mut extra: Option<ExtraSettings> = None;
    set_hostname_if_missing(&mut extra, &b"example.test".to_vec());
    assert_eq!(extra.as_ref().unwrap().hostname, Some(b"example.test".to_vec()));
    set_hostname_if_missing(&mut extra, &b"other.test".to_vec());
    assert_eq!(extra.unwrap().hostname, Some(b"example.test".to_vec()));
}

#[test]
fn unknown_game_has_no_descriptor() {
    assert!(game_descriptor(&b"chess".to_vec()).is_none());
}

#[test]
fn quake2_end_to_end() {
    let desc = game_descriptor(&b"quake2".to_vec()).unwrap();
    assert_eq!(desc.default_port, 27910);
    let (mut q, request) = Query::start(desc);
    assert_eq!(request, framed(b"status", b""));
    assert_eq!(q.phase, QueryPhase::AwaitStatus);

    let mut s = Session::begin(q.desc.max_attempts, q.expected_reply_token());
    let reply = framed(
        b"print",
        b"\\hostname\\Test Server\\players\\2\\\n1 10 \"one\"\n2 20 \"two\"\n",
    );
    assert_eq!(s.on_event(Event::Datagram(reply)), Action::KeepWaiting);
    assert_eq!(s.on_event(Event::WindowElapsed), Action::Deliver);
    let payloads = s.into_payloads();

    let resp = q.on_status_reply(&payloads).unwrap();
    assert_eq!(q.phase, QueryPhase::Done);
    assert_eq!(resp.players.len(), 2);
    let c = qstatus::decode::common_of(&resp);
    assert_eq!(c.name, Some(b"Test Server".to_vec()));
    assert_eq!(c.players_online, 2);
}

#[test]
fn quake3_challenge_handshake() {
    let desc = game_descriptor(&b"quake3".to_vec()).unwrap();
    let (mut q, request) = Query::start(desc);
    assert_eq!(request, framed(b"getchallenge", b""));
    assert_eq!(q.phase, QueryPhase::AwaitChallenge);
    assert_eq!(q.expected_reply_token(), b"challengeResponse".to_vec());

    let next = q.on_challenge_reply(&vec![b"998877\n".to_vec()]).unwrap();
    assert_eq!(q.phase, QueryPhase::AwaitStatus);
    let mut want = vec![0xffu8, 0xff, 0xff, 0xff];
    want.extend_from_slice(b"getstatus 998877\n");
    assert_eq!(next, want);

    let payload = b"\\hostname\\Arena\\\n5 40 \"gib\"\n".to_vec();
    let resp = q.on_status_reply(&vec![payload]).unwrap();
    assert_eq!(q.phase, QueryPhase::Done);
    assert_eq!(resp.players.len(), 1);
    assert_eq!(resp.players[0].name, b"gib".to_vec());
}

#[test]
fn empty_challenge_reply_is_decode_error() {
    let desc = game_descriptor(&b"quake3".to_vec()).unwrap();
    let (mut q, _request) = Query::start(desc);
    assert_eq!(q.on_challenge_reply(&vec![b" \n".to_vec()]), Err(Error::Decode));
    assert_eq!(q.phase, QueryPhase::Failed);
}

#[test]
fn fragmented_status_reply_decodes() {
    let desc = game_descriptor(&b"quake2".to_vec()).unwrap();
    let (mut q, _request) = Query::start(desc);
    // Fragments arrive out of order; indices put them right.
    let payloads = vec![
        b"#1 1 10 \"one\"\n".to_vec(),
        b"#0 \\hostname\\Frag Server\\\n".to_vec(),
    ];
    let resp = q.on_status_reply(&payloads).unwrap();
    assert_eq!(resp.players.len(), 1);
    assert_eq!(resp.info[0].1, b"Frag Server".to_vec());
}
