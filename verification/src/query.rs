//! Query orchestrator: descriptors for the protocol variants and the
//! state machine that strings challenge handshake, status request and
//! decoding together.
//!
//! One orchestrator serves exactly one query.  The caller runs each
//! exchange through a [`crate::session::Session`] and hands the delivered
//! payloads back; the orchestrator answers the next request bytes or the
//! decoded response.  No state is ever revisited.

use vstd::prelude::*;

use crate::codec::{
    copy_range, encode, encode_with_challenge, encoded_plain, encoded_with_challenge, NEWLINE,
};
use crate::decode::{clone_bytes, decode_spec, is_space};
use crate::error::Error;
use crate::fragment::{assembled, complete, fragments_of, parse_fragments, reassemble};
use crate::response::{views_of, Response};

verus! {

/// A byte that separates tokens inside a reply payload: whitespace or a
/// newline.
pub open spec fn is_sep(b: u8) -> bool {
    is_space(b) || b == NEWLINE
}

fn is_sep_x(b: u8) -> (r: bool)
    ensures
        r == is_sep(b),
{
    b == 0x20 || b == 0x09 || b == 0x0d || b == 0x0a
}

/// First index at or after `i` whose byte is not a separator.
pub open spec fn skip_sep(s: Seq<u8>, i: int) -> int
    decreases s.len() - i,
{
    if 0 <= i < s.len() && is_sep(s[i]) {
        skip_sep(s, i + 1)
    } else {
        i
    }
}

/// First index at or after `i` whose byte is a separator.
pub open spec fn token_end(s: Seq<u8>, i: int) -> int
    decreases s.len() - i,
{
    if 0 <= i < s.len() && !is_sep(s[i]) {
        token_end(s, i + 1)
    } else {
        i
    }
}

fn skip_sep_x(s: &Vec<u8>, from: usize) -> (r: usize)
    requires
        from <= s.len(),
    ensures
        r as int == skip_sep(s@, from as int),
        from <= r <= s.len(),
{
    let mut i: usize = from;
    while i < s.len() && is_sep_x(s[i])
        invariant
            from <= i <= s.len(),
            skip_sep(s@, from as int) == skip_sep(s@, i as int),
        decreases s.len() - i,
    {
        i = i + 1;
    }
    assert(skip_sep(s@, i as int) == i as int);
    i
}

fn token_end_x(s: &Vec<u8>, from: usize) -> (r: usize)
    requires
        from <= s.len(),
    ensures
        r as int == token_end(s@, from as int),
        from <= r <= s.len(),
{
    let mut i: usize = from;
    while i < s.len() && !is_sep_x(s[i])
        invariant
            from <= i <= s.len(),
            token_end(s@, from as int) == token_end(s@, i as int),
        decreases s.len() - i,
    {
        i = i + 1;
    }
    assert(token_end(s@, i as int) == i as int);
    i
}

/// The challenge token of a challenge reply payload: its first
/// separator-free run.  An all-separator payload carries none.
pub open spec fn challenge_of(p: Seq<u8>) -> Option<Seq<u8>> {
    let i = skip_sep(p, 0);
    let j = token_end(p, i);
    if i == j {
        None
    } else {
        Some(p.subrange(i, j))
    }
}

pub open spec fn id_quake2() -> Seq<u8> {
    seq![0x71u8, 0x75u8, 0x61u8, 0x6bu8, 0x65u8, 0x32u8]
}

pub open spec fn id_quake3() -> Seq<u8> {
    seq![0x71u8, 0x75u8, 0x61u8, 0x6bu8, 0x65u8, 0x33u8]
}

pub open spec fn tok_status() -> Seq<u8> {
    seq![0x73u8, 0x74u8, 0x61u8, 0x74u8, 0x75u8, 0x73u8]
}

pub open spec fn tok_print() -> Seq<u8> {
    seq![0x70u8, 0x72u8, 0x69u8, 0x6eu8, 0x74u8]
}

pub open spec fn tok_getstatus() -> Seq<u8> {
    seq![0x67u8, 0x65u8, 0x74u8, 0x73u8, 0x74u8, 0x61u8, 0x74u8, 0x75u8, 0x73u8]
}

pub open spec fn tok_status_response() -> Seq<u8> {
    seq![
        0x73u8,
        0x74u8,
        0x61u8,
        0x74u8,
        0x75u8,
        0x73u8,
        0x52u8,
        0x65u8,
        0x73u8,
        0x70u8,
        0x6fu8,
        0x6eu8,
        0x73u8,
        0x65u8,
    ]
}

pub open spec fn tok_getchallenge() -> Seq<u8> {
    seq![
        0x67u8,
        0x65u8,
        0x74u8,
        0x63u8,
        0x68u8,
        0x61u8,
        0x6cu8,
        0x6cu8,
        0x65u8,
        0x6eu8,
        0x67u8,
        0x65u8,
    ]
}

pub open spec fn tok_challenge_response() -> Seq<u8> {
    seq![
        0x63u8,
        0x68u8,
        0x61u8,
        0x6cu8,
        0x6cu8,
        0x65u8,
        0x6eu8,
        0x67u8,
        0x65u8,
        0x52u8,
        0x65u8,
        0x73u8,
        0x70u8,
        0x6fu8,
        0x6eu8,
        0x73u8,
        0x65u8,
    ]
}

fn bytes_of(parts: &[u8]) -> (r: Vec<u8>)
    ensures
        r@ == parts@,
{
    let mut v: Vec<u8> = Vec::new();
    let mut i: usize = 0;
    while i < parts.len()
        invariant
            i <= parts.len(),
            v@ == parts@.subrange(0, i as int),
        decreases parts.len() - i,
    {
        v.push(parts[i]);
        proof {
            assert(parts@.subrange(0, i + 1 as int) =~= parts@.subrange(0, i as int).push(
                parts@[i as int],
            ));
        }
        i = i + 1;
    }
    proof {
        assert(parts@.subrange(0, parts@.len() as int) =~= parts@);
    }
    v
}

/// Optional protocol-modulating inputs — a hostname for servers that key
/// on virtual hosting.  Read-only to the engine itself.
#[derive(Debug, PartialEq, Eq)]
pub struct ExtraSettings {
    pub hostname: Option<Vec<u8>>,
}

/// Fill the hostname in when the caller learned one by resolving a
/// domain and none is set yet; settings that already carry a hostname
/// are left untouched.
pub fn set_hostname_if_missing(extra: &mut Option<ExtraSettings>, host: &Vec<u8>)
    ensures
        (*old(extra)) is None ==> (*final(extra)) is Some
            && (*final(extra))->Some_0.hostname is Some
            && (*final(extra))->Some_0.hostname->Some_0@ == host@,
        (*old(extra)) is Some && (*old(extra))->Some_0.hostname is None ==> (*final(extra)) is Some
            && (*final(extra))->Some_0.hostname is Some
            && (*final(extra))->Some_0.hostname->Some_0@ == host@,
        (*old(extra)) is Some && (*old(extra))->Some_0.hostname is Some ==> *final(extra)
            == *old(extra),
{
    match extra {
        Some(e) => {
            if e.hostname.is_none() {
                e.hostname = Some(clone_bytes(host));
            }
        },
        None => {
            *extra = Some(ExtraSettings { hostname: Some(clone_bytes(host)) });
        },
    }
}

/// The capability record of one protocol variant: default port, whether a
/// challenge handshake is required, the retry budget, and the command
/// tokens of the variant.  The engine trusts this record as configuration.
pub struct Descriptor {
    pub default_port: u16,
    pub needs_challenge: bool,
    pub max_attempts: u32,
    pub request_token: Vec<u8>,
    pub response_token: Vec<u8>,
    pub challenge_request_token: Vec<u8>,
    pub challenge_response_token: Vec<u8>,
}

/// Look a game identifier up in the descriptor table.
pub fn game_descriptor(id: &Vec<u8>) -> (r: Option<Descriptor>)
    ensures
        id@ == id_quake2() ==> r is Some && ({
            let d = r->Some_0;
            &&& d.default_port == 27910
            &&& !d.needs_challenge
            &&& d.max_attempts == 3
            &&& d.request_token@ == tok_status()
            &&& d.response_token@ == tok_print()
        }),
        id@ == id_quake3() ==> r is Some && ({
            let d = r->Some_0;
            &&& d.default_port == 27960
            &&& d.needs_challenge
            &&& d.max_attempts == 3
            &&& d.request_token@ == tok_getstatus()
            &&& d.response_token@ == tok_status_response()
            &&& d.challenge_request_token@ == tok_getchallenge()
            &&& d.challenge_response_token@ == tok_challenge_response()
        }),
        id@ != id_quake2() && id@ != id_quake3() ==> r is None,
{
    let q2 = bytes_of(&[0x71, 0x75, 0x61, 0x6b, 0x65, 0x32]);
    let q3 = bytes_of(&[0x71, 0x75, 0x61, 0x6b, 0x65, 0x33]);
    proof {
        assert(q2@ =~= id_quake2());
        assert(q3@ =~= id_quake3());
    }
    if crate::decode::bytes_eq(id, &q2) {
        let d = Descriptor {
            default_port: 27910,
            needs_challenge: false,
            max_attempts: 3,
            request_token: bytes_of(&[0x73, 0x74, 0x61, 0x74, 0x75, 0x73]),
            response_token: bytes_of(&[0x70, 0x72, 0x69, 0x6e, 0x74]),
            challenge_request_token: Vec::new(),
            challenge_response_token: Vec::new(),
        };
        proof {
            assert(d.request_token@ =~= tok_status());
            assert(d.response_token@ =~= tok_print());
        }
        Some(d)
    } else if crate::decode::bytes_eq(id, &q3) {
        let d = Descriptor {
            default_port: 27960,
            needs_challenge: true,
            max_attempts: 3,
            request_token: bytes_of(&[0x67, 0x65, 0x74, 0x73, 0x74, 0x61, 0x74, 0x75, 0x73]),
            response_token: bytes_of(
                &[0x73, 0x74, 0x61, 0x74, 0x75, 0x73, 0x52, 0x65, 0x73, 0x70, 0x6f, 0x6e, 0x73,
                    0x65],
            ),
            challenge_request_token: bytes_of(
                &[0x67, 0x65, 0x74, 0x63, 0x68, 0x61, 0x6c, 0x6c, 0x65, 0x6e, 0x67, 0x65],
            ),
            challenge_response_token: bytes_of(
                &[0x63, 0x68, 0x61, 0x6c, 0x6c, 0x65, 0x6e, 0x67, 0x65, 0x52, 0x65, 0x73, 0x70,
                    0x6f, 0x6e, 0x73, 0x65],
            ),
        };
        proof {
            assert(d.request_token@ =~= tok_getstatus());
            assert(d.response_token@ =~= tok_status_response());
            assert(d.challenge_request_token@ =~= tok_getchallenge());
            assert(d.challenge_response_token@ =~= tok_challenge_response());
        }
        Some(d)
    } else {
        None
    }
}

/// The phases of one query.  None is ever revisited.
#[derive(Clone, Copy, Debug, PartialEq, Eq, Structural)]
pub enum QueryPhase {
    AwaitChallenge,
    AwaitStatus,
    Done,
    Failed,
}

/// One query against one server.
pub struct Query {
    pub desc: Descriptor,
    pub phase: QueryPhase,
    pub challenge: Option<Vec<u8>>,
}

impl Query {
    /// Open a query: the first request is the challenge request when the
    /// variant requires the handshake, the status request otherwise.
    pub fn start(desc: Descriptor) -> (r: (Query, Vec<u8>))
        ensures
            r.0.desc == desc,
            r.0.challenge is None,
            desc.needs_challenge ==> r.0.phase == QueryPhase::AwaitChallenge && r.1@
                == encoded_plain(desc.challenge_request_token@),
            !desc.needs_challenge ==> r.0.phase == QueryPhase::AwaitStatus && r.1@
                == encoded_plain(desc.request_token@),
    {
        if desc.needs_challenge {
            let req = encode(&desc.challenge_request_token);
            (Query { desc, phase: QueryPhase::AwaitChallenge, challenge: None }, req)
        } else {
            let req = encode(&desc.request_token);
            (Query { desc, phase: QueryPhase::AwaitStatus, challenge: None }, req)
        }
    }

    /// The response command token the current exchange must accept.
    pub fn expected_reply_token(&self) -> (r: Vec<u8>)
        requires
            self.phase == QueryPhase::AwaitChallenge || self.phase == QueryPhase::AwaitStatus,
        ensures
            self.phase == QueryPhase::AwaitChallenge ==> r@ == self.desc.challenge_response_token@,
            self.phase == QueryPhase::AwaitStatus ==> r@ == self.desc.response_token@,
    {
        match self.phase {
            QueryPhase::AwaitChallenge => clone_bytes(&self.desc.challenge_response_token),
            _ => clone_bytes(&self.desc.response_token),
        }
    }

    /// Consume the delivered payloads of the challenge exchange.  On
    /// success the answer is the framed status request carrying the
    /// challenge token, and the query awaits the status reply.
    pub fn on_challenge_reply(&mut self, payloads: &Vec<Vec<u8>>) -> (r: Result<Vec<u8>, Error>)
        requires
            old(self).phase == QueryPhase::AwaitChallenge,
        ensures
            final(self).desc == old(self).desc,
            payloads@.len() == 0 ==> r == Err::<Vec<u8>, Error>(Error::Protocol) && final(self).phase == QueryPhase::Failed,
            payloads@.len() > 0 ==> match challenge_of(payloads@[0]@) {
                None => r == Err::<Vec<u8>, Error>(Error::Decode) && final(self).phase
                    == QueryPhase::Failed,
                Some(c) => r is Ok && r->Ok_0@ == encoded_with_challenge(
                    old(self).desc.request_token@,
                    c,
                ) && final(self).phase == QueryPhase::AwaitStatus && final(self).challenge is Some
                    && final(self).challenge->Some_0@ == c,
            },
    {
        if payloads.len() == 0 {
            self.phase = QueryPhase::Failed;
            return Err(Error::Protocol);
        }
        let p = &payloads[0];
        let i = skip_sep_x(p, 0);
        let j = token_end_x(p, i);
        if i == j {
            self.phase = QueryPhase::Failed;
            return Err(Error::Decode);
        }
        let c = copy_range(p, i, j);
        let req = encode_with_challenge(&self.desc.request_token, &c);
        self.challenge = Some(c);
        self.phase = QueryPhase::AwaitStatus;
        Ok(req)
    }

    /// Consume the delivered payloads of the status exchange: split off
    /// the fragment headers, reassemble by index, and decode.  Every
    /// failure is a decode error and ends the query; a success is a fully
    /// decoded response.
    pub fn on_status_reply(&mut self, payloads: &Vec<Vec<u8>>) -> (r: Result<Response, Error>)
        requires
            old(self).phase == QueryPhase::AwaitStatus,
        ensures
            final(self).desc == old(self).desc,
            ({
                let fo = fragments_of(views_of(payloads@));
                &&& (fo is None ==> r == Err::<Response, Error>(Error::Decode) && final(self).phase == QueryPhase::Failed)
                &&& (fo is Some && !complete(fo->Some_0) ==> r == Err::<Response, Error>(
                    Error::Decode,
                ) && final(self).phase == QueryPhase::Failed)
                &&& (fo is Some && complete(fo->Some_0) ==> ({
                    let d = decode_spec(assembled(fo->Some_0));
                    &&& (d is None ==> r == Err::<Response, Error>(Error::Decode) && final(self).phase == QueryPhase::Failed)
                    &&& (d is Some ==> r is Ok && r->Ok_0@ == d->Some_0 && final(self).phase
                        == QueryPhase::Done)
                }))
            }),
    {
        let frags = match parse_fragments(payloads) {
            Ok(f) => f,
            Err(e) => {
                self.phase = QueryPhase::Failed;
                return Err(e);
            },
        };
        let payload = match reassemble(&frags) {
            Ok(p) => p,
            Err(e) => {
                self.phase = QueryPhase::Failed;
                return Err(e);
            },
        };
        match crate::decode::decode_payload(&payload) {
            Ok(resp) => {
                self.phase = QueryPhase::Done;
                Ok(resp)
            },
            Err(e) => {
                self.phase = QueryPhase::Failed;
                Err(e)
            },
        }
    }
}

} // verus!
