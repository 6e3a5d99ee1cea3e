//! Packet codec: framing of outgoing requests and validation of replies.
//!
//! Every packet of the protocol family starts with a four byte out-of-band
//! marker (four `0xff` bytes).  A request is the marker, an ASCII command
//! token, an optional challenge token separated by one space, and a
//! terminating newline.  A reply is the marker, a response command token,
//! a newline, and the payload.

use vstd::prelude::*;

use crate::error::Error;

verus! {

pub const MARKER_BYTE: u8 = 0xff;
pub const NEWLINE: u8 = 0x0a;
pub const SPACE: u8 = 0x20;

/// The four byte out-of-band marker.
pub open spec fn marker() -> Seq<u8> {
    seq![MARKER_BYTE, MARKER_BYTE, MARKER_BYTE, MARKER_BYTE]
}

/// The wire form of a request without a challenge token.
pub open spec fn encoded_plain(cmd: Seq<u8>) -> Seq<u8> {
    marker() + cmd + seq![NEWLINE]
}

/// The wire form of a request carrying a challenge token.
pub open spec fn encoded_with_challenge(cmd: Seq<u8>, chal: Seq<u8>) -> Seq<u8> {
    marker() + cmd + seq![SPACE] + chal + seq![NEWLINE]
}

/// Index of the first occurrence of `d` in `s` at or after `i`,
/// or `s.len()` when there is none.
pub open spec fn find_byte(s: Seq<u8>, d: u8, i: int) -> int
    decreases s.len() - i,
{
    if i < 0 || i >= s.len() {
        s.len() as int
    } else if s[i] == d {
        i
    } else {
        find_byte(s, d, i + 1)
    }
}

/// The bytes begin with the out-of-band marker.
pub open spec fn has_marker(r: Seq<u8>) -> bool {
    &&& r.len() >= 4
    &&& r[0] == MARKER_BYTE
    &&& r[1] == MARKER_BYTE
    &&& r[2] == MARKER_BYTE
    &&& r[3] == MARKER_BYTE
}

/// The bytes carry the marker, a command token, and a newline ending it.
pub open spec fn well_framed(r: Seq<u8>) -> bool {
    has_marker(r) && find_byte(r, NEWLINE, 4) < r.len()
}

/// The command token of a well framed packet: the bytes between the marker
/// and the first newline.
pub open spec fn frame_token(r: Seq<u8>) -> Seq<u8> {
    r.subrange(4, find_byte(r, NEWLINE, 4))
}

/// The payload of a well framed packet: the bytes after the first newline.
pub open spec fn frame_payload(r: Seq<u8>) -> Seq<u8> {
    r.subrange(find_byte(r, NEWLINE, 4) + 1, r.len() as int)
}

/// Copy of `s[from..to]`.
pub fn copy_range(s: &Vec<u8>, from: usize, to: usize) -> (r: Vec<u8>)
    requires
        from <= to <= s.len(),
    ensures
        r@ == s@.subrange(from as int, to as int),
{
    let mut r: Vec<u8> = Vec::new();
    let mut i: usize = from;
    while i < to
        invariant
            from <= i <= to <= s.len(),
            r@ == s@.subrange(from as int, i as int),
        decreases to - i,
    {
        r.push(s[i]);
        proof {
            assert(s@.subrange(from as int, i + 1 as int)
                =~= s@.subrange(from as int, i as int).push(s@[i as int]));
        }
        i = i + 1;
    }
    r
}

/// Frame a request without a challenge token.
pub fn encode(cmd: &Vec<u8>) -> (r: Vec<u8>)
    ensures
        r@ == encoded_plain(cmd@),
{
    let mut r: Vec<u8> = Vec::new();
    r.push(MARKER_BYTE);
    r.push(MARKER_BYTE);
    r.push(MARKER_BYTE);
    r.push(MARKER_BYTE);
    let mut i: usize = 0;
    while i < cmd.len()
        invariant
            i <= cmd.len(),
            r@ == marker() + cmd@.subrange(0, i as int),
        decreases cmd.len() - i,
    {
        r.push(cmd[i]);
        proof {
            assert(marker() + cmd@.subrange(0, i + 1 as int)
                =~= (marker() + cmd@.subrange(0, i as int)).push(cmd@[i as int]));
        }
        i = i + 1;
    }
    r.push(NEWLINE);
    proof {
        assert(cmd@.subrange(0, cmd@.len() as int) =~= cmd@);
        assert(r@ =~= encoded_plain(cmd@));
    }
    r
}

/// Frame a request carrying a challenge token.
pub fn encode_with_challenge(cmd: &Vec<u8>, chal: &Vec<u8>) -> (r: Vec<u8>)
    ensures
        r@ == encoded_with_challenge(cmd@, chal@),
{
    let mut r: Vec<u8> = Vec::new();
    r.push(MARKER_BYTE);
    r.push(MARKER_BYTE);
    r.push(MARKER_BYTE);
    r.push(MARKER_BYTE);
    let mut i: usize = 0;
    while i < cmd.len()
        invariant
            i <= cmd.len(),
            r@ == marker() + cmd@.subrange(0, i as int),
        decreases cmd.len() - i,
    {
        r.push(cmd[i]);
        proof {
            assert(marker() + cmd@.subrange(0, i + 1 as int)
                =~= (marker() + cmd@.subrange(0, i as int)).push(cmd@[i as int]));
        }
        i = i + 1;
    }
    proof {
        assert(cmd@.subrange(0, cmd@.len() as int) =~= cmd@);
    }
    r.push(SPACE);
    proof {
        assert((marker() + cmd@).push(SPACE)
            =~= marker() + cmd@ + seq![SPACE] + chal@.subrange(0, 0));
    }
    let mut j: usize = 0;
    while j < chal.len()
        invariant
            j <= chal.len(),
            r@ == marker() + cmd@ + seq![SPACE] + chal@.subrange(0, j as int),
        decreases chal.len() - j,
    {
        r.push(chal[j]);
        proof {
            assert(marker() + cmd@ + seq![SPACE] + chal@.subrange(0, j + 1 as int)
                =~= (marker() + cmd@ + seq![SPACE] + chal@.subrange(0, j as int))
                    .push(chal@[j as int]));
        }
        j = j + 1;
    }
    r.push(NEWLINE);
    proof {
        assert(chal@.subrange(0, chal@.len() as int) =~= chal@);
        assert(r@ =~= encoded_with_challenge(cmd@, chal@));
    }
    r
}

/// Validate the framing of a reply and strip marker and command token.
///
/// On a well framed reply it returns the command token and the payload;
/// any reply lacking the marker, or without a newline ending the command
/// token, is a protocol error, never a decode error.
pub fn validate_and_strip(reply: &Vec<u8>) -> (r: Result<(Vec<u8>, Vec<u8>), Error>)
    ensures
        well_framed(reply@) ==> {
            &&& r is Ok
            &&& r->Ok_0.0@ == frame_token(reply@)
            &&& r->Ok_0.1@ == frame_payload(reply@)
        },
        !well_framed(reply@) ==> r == Err::<(Vec<u8>, Vec<u8>), Error>(Error::Protocol),
        !has_marker(reply@) ==> r == Err::<(Vec<u8>, Vec<u8>), Error>(Error::Protocol),
{
    if reply.len() < 4 {
        return Err(Error::Protocol);
    }
    if reply[0] != MARKER_BYTE || reply[1] != MARKER_BYTE || reply[2] != MARKER_BYTE
        || reply[3] != MARKER_BYTE {
        return Err(Error::Protocol);
    }
    let mut i: usize = 4;
    while i < reply.len() && reply[i] != NEWLINE
        invariant
            4 <= i <= reply.len(),
            find_byte(reply@, NEWLINE, 4) == find_byte(reply@, NEWLINE, i as int),
        decreases reply.len() - i,
    {
        i = i + 1;
    }
    if i == reply.len() {
        assert(find_byte(reply@, NEWLINE, 4) == reply@.len());
        return Err(Error::Protocol);
    }
    assert(find_byte(reply@, NEWLINE, 4) == i as int);
    let token = copy_range(reply, 4, i);
    let payload = copy_range(reply, i + 1, reply.len());
    Ok((token, payload))
}

/// No byte of `s[i..j]` equals `d`, and `j` is past the end or holds `d`:
/// then the first occurrence at or after `i` is exactly `j`.
proof fn lemma_find_byte_at(s: Seq<u8>, d: u8, i: int, j: int)
    requires
        0 <= i <= j <= s.len(),
        forall|k: int| i <= k < j ==> s[k] != d,
        j == s.len() || s[j] == d,
    ensures
        find_byte(s, d, i) == j,
    decreases j - i,
{
    if i == j {
    } else {
        lemma_find_byte_at(s, d, i + 1, j);
    }
}

/// Framing symmetry: a framed request without a challenge token validates,
/// its command token round-trips unchanged, and its payload is empty,
/// provided the command holds no newline byte.
pub proof fn lemma_round_trip_plain(cmd: Seq<u8>)
    requires
        !cmd.contains(NEWLINE),
    ensures
        well_framed(encoded_plain(cmd)),
        frame_token(encoded_plain(cmd)) == cmd,
        frame_payload(encoded_plain(cmd)) == Seq::<u8>::empty(),
{
    let e = encoded_plain(cmd);
    assert(e.len() == 5 + cmd.len());
    assert forall|k: int| 4 <= k < 4 + cmd.len() implies e[k] != NEWLINE by {
        assert(e[k] == cmd[k - 4]);
        assert(cmd[k - 4] != NEWLINE) by {
            assert(!cmd.contains(NEWLINE));
            if cmd[k - 4] == NEWLINE {
                assert(cmd.contains(NEWLINE));
            }
        }
    }
    assert(e[4 + cmd.len() as int] == NEWLINE);
    lemma_find_byte_at(e, NEWLINE, 4, 4 + cmd.len() as int);
    assert(frame_token(e) =~= cmd);
    assert(frame_payload(e) =~= Seq::<u8>::empty());
}

/// Framing symmetry for a request with a challenge token: the token part of
/// the validated packet is the command, one space, and the challenge,
/// provided neither holds a newline byte.
pub proof fn lemma_round_trip_challenge(cmd: Seq<u8>, chal: Seq<u8>)
    requires
        !cmd.contains(NEWLINE),
        !chal.contains(NEWLINE),
    ensures
        well_framed(encoded_with_challenge(cmd, chal)),
        frame_token(encoded_with_challenge(cmd, chal)) == cmd + seq![SPACE] + chal,
        frame_payload(encoded_with_challenge(cmd, chal)) == Seq::<u8>::empty(),
{
    let e = encoded_with_challenge(cmd, chal);
    let body = cmd + seq![SPACE] + chal;
    assert(e.len() == 5 + body.len());
    assert forall|k: int| 4 <= k < 4 + body.len() implies e[k] != NEWLINE by {
        assert(e[k] == body[k - 4]);
        if k - 4 < cmd.len() {
            assert(body[k - 4] == cmd[k - 4]);
            if cmd[k - 4] == NEWLINE {
                assert(cmd.contains(NEWLINE));
            }
        } else if k - 4 == cmd.len() {
            assert(body[k - 4] == SPACE);
        } else {
            assert(body[k - 4] == chal[k - 4 - cmd.len() - 1]);
            if chal[k - 4 - cmd.len() - 1] == NEWLINE {
                assert(chal.contains(NEWLINE));
            }
        }
    }
    assert(e[4 + body.len() as int] == NEWLINE);
    lemma_find_byte_at(e, NEWLINE, 4, 4 + body.len() as int);
    assert(frame_token(e) =~= body);
    assert(frame_payload(e) =~= Seq::<u8>::empty());
}

} // verus!
