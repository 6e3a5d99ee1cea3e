//! Structured responses: the protocol-specific reply and its common projection.

use vstd::prelude::*;

verus! {

/// One player record of a reply: score, ping, and name.
#[derive(Debug, PartialEq, Eq)]
pub struct Player {
    pub score: i32,
    pub ping: u32,
    pub name: Vec<u8>,
}

/// Mathematical model of a player record.
pub ghost struct PlayerModel {
    pub score: int,
    pub ping: int,
    pub name: Seq<u8>,
}

impl View for Player {
    type V = PlayerModel;

    open spec fn view(&self) -> PlayerModel {
        PlayerModel { score: self.score as int, ping: self.ping as int, name: self.name@ }
    }
}

/// Views of a sequence of byte vectors.
pub open spec fn views_of(vs: Seq<Vec<u8>>) -> Seq<Seq<u8>> {
    vs.map_values(|v: Vec<u8>| v@)
}

/// Views of a sequence of key/value byte vector pairs.
pub open spec fn views_pairs(ps: Seq<(Vec<u8>, Vec<u8>)>) -> Seq<(Seq<u8>, Seq<u8>)> {
    ps.map_values(|p: (Vec<u8>, Vec<u8>)| (p.0@, p.1@))
}

/// Views of a sequence of player records.
pub open spec fn players_views(ps: Seq<Player>) -> Seq<PlayerModel> {
    ps.map_values(|p: Player| p@)
}

/// The protocol-specific reply: the key/value pairs of the info line, in
/// order of appearance, and the ordered player records.
#[derive(Debug, PartialEq, Eq)]
pub struct Response {
    pub info: Vec<(Vec<u8>, Vec<u8>)>,
    pub players: Vec<Player>,
}

/// Mathematical model of a protocol-specific reply.
pub ghost struct ResponseModel {
    pub info: Seq<(Seq<u8>, Seq<u8>)>,
    pub players: Seq<PlayerModel>,
}

impl View for Response {
    type V = ResponseModel;

    open spec fn view(&self) -> ResponseModel {
        ResponseModel {
            info: views_pairs(self.info@),
            players: players_views(self.players@),
        }
    }
}

/// The cross-protocol projection of a reply: universally meaningful fields
/// only, derived from the protocol-specific response and never constructed
/// independently.
#[derive(Debug, PartialEq, Eq)]
pub struct CommonResponse {
    pub name: Option<Vec<u8>>,
    pub map: Option<Vec<u8>>,
    pub players_online: usize,
    pub players_maximum: Option<u32>,
}

} // verus!
