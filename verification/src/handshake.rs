use vstd::prelude::*;
use crate::relay::{route_spec, routable_spec, RelayRoute};
use crate::wire::le16;
use crate::signal::{
    candidate_payload, candidate_spec, decode_signal_spec, law_candidate_read_back,
    law_signal_read_back, parse_candidate, signal_bytes, signal_bytes_spec,
    signal_well_formed_spec, CandidateParts, Signal, SignalModel, COMMA, SEMICOLON,
};

verus! {

/// What a client does with one set-up message from the relay server.
#[derive(PartialEq, Eq, Clone, Debug)]
pub enum SignalAction {
    /// Offer a connection to each of these clients, and send each offer on.
    OfferTo(Vec<u8>),
    /// Answer the offer of the given client, and send the answer back.
    AnswerOffer(u8, Vec<u8>),
    /// Take the given client's answer as the connection's remote side.
    AcceptAnswer(u8, Vec<u8>),
    /// Send these bytes to the relay server.
    Send(Vec<u8>),
    /// Add the given client's candidate to the connection with it.
    AddCandidate(u8, CandidateParts),
    /// Put the message back, to be handled at the next turn.
    Requeue,
    /// Close and forget the connection with the given client.
    ClosePeer(u8),
    /// Log the message and do nothing more.
    Ignore,
}

/// The mathematical value of a `SignalAction`.
pub enum SignalActionModel {
    OfferTo(Seq<u8>),
    AnswerOffer(u8, Seq<u8>),
    AcceptAnswer(u8, Seq<u8>),
    Send(Seq<u8>),
    AddCandidate(u8, Seq<u8>, u16, Seq<u8>),
    Requeue,
    ClosePeer(u8),
    Ignore,
}

impl View for SignalAction {
    type V = SignalActionModel;

    open spec fn view(&self) -> SignalActionModel {
        match self {
            SignalAction::OfferTo(v) => SignalActionModel::OfferTo(v@),
            SignalAction::AnswerOffer(a, v) => SignalActionModel::AnswerOffer(*a, v@),
            SignalAction::AcceptAnswer(a, v) => SignalActionModel::AcceptAnswer(*a, v@),
            SignalAction::Send(v) => SignalActionModel::Send(v@),
            SignalAction::AddCandidate(a, c) => SignalActionModel::AddCandidate(
                *a,
                c.mid@,
                c.m_line_index,
                c.candidate@,
            ),
            SignalAction::Requeue => SignalActionModel::Requeue,
            SignalAction::ClosePeer(a) => SignalActionModel::ClosePeer(*a),
            SignalAction::Ignore => SignalActionModel::Ignore,
        }
    }
}

/// The messages a client can handle without panicking: a candidate from
/// another client, once the connection with that client is stable, must
/// carry a payload that splits into its parts.
pub open spec fn signal_handled_spec(sig: SignalModel, stable: bool) -> bool {
    match sig {
        SignalModel::RemoteCandidate(_, payload) => stable ==> (payload is Some
            && candidate_spec(payload->0) is Some),
        _ => true,
    }
}

/// The client's id after a set-up message: an assigned id, or the new id a
/// close notice gives; otherwise unchanged.
pub open spec fn next_peer_id_spec(peer_id: u8, sig: SignalModel) -> u8 {
    match sig {
        SignalModel::AssignId(id, _) => id,
        SignalModel::Close(_, new_id) => new_id,
        _ => peer_id,
    }
}

/// What the client does with a set-up message, given its id and whether
/// the connection with the client that a candidate concerns is stable.
/// Its own candidate is sent on as kind 4 with its id first; a candidate
/// met before the connection is stable waits for the next turn.
pub open spec fn signal_action_spec(peer_id: u8, sig: SignalModel, stable: bool) -> SignalActionModel {
    match sig {
        SignalModel::AssignId(_, remotes) => SignalActionModel::OfferTo(remotes),
        SignalModel::Offer(remote, sdp) => SignalActionModel::AnswerOffer(remote, sdp),
        SignalModel::Answer(remote, sdp) => SignalActionModel::AcceptAnswer(remote, sdp),
        SignalModel::LocalCandidate(remote, payload) => if stable {
            SignalActionModel::Send(signal_bytes_spec(4, peer_id, remote, payload))
        } else {
            SignalActionModel::Requeue
        },
        SignalModel::RemoteCandidate(remote, payload) => if stable {
            let parts = candidate_spec(payload->0)->0;
            SignalActionModel::AddCandidate(remote, parts.0, parts.1, parts.2)
        } else {
            SignalActionModel::Requeue
        },
        SignalModel::Close(close_id, _) => SignalActionModel::ClosePeer(close_id),
        SignalModel::Unrecognized => SignalActionModel::Ignore,
    }
}

/// One turn of the connection set-up: from the client's id, a message and
/// whether the connection it concerns is stable, to the client's next id
/// and what it does.
pub fn signal_step(peer_id: u8, sig: Signal, stable: bool) -> (r: (u8, SignalAction))
    requires
        signal_handled_spec(sig@, stable),
    ensures
        r.0 == next_peer_id_spec(peer_id, sig@),
        r.1@ == signal_action_spec(peer_id, sig@, stable),
{
    match sig {
        Signal::AssignId(id, remotes) => (id, SignalAction::OfferTo(remotes)),
        Signal::Offer(remote, sdp) => (peer_id, SignalAction::AnswerOffer(remote, sdp)),
        Signal::Answer(remote, sdp) => (peer_id, SignalAction::AcceptAnswer(remote, sdp)),
        Signal::LocalCandidate(remote, payload) => {
            if stable {
                (peer_id, SignalAction::Send(signal_bytes(4, peer_id, remote, &payload)))
            } else {
                (peer_id, SignalAction::Requeue)
            }
        },
        Signal::RemoteCandidate(remote, payload) => {
            if stable {
                match payload {
                    Some(p) => match parse_candidate(&p) {
                        Some(parts) => (peer_id, SignalAction::AddCandidate(remote, parts)),
                        None => (peer_id, SignalAction::Requeue),
                    },
                    None => (peer_id, SignalAction::Requeue),
                }
            } else {
                (peer_id, SignalAction::Requeue)
            }
        },
        Signal::Close(close_id, new_id) => (new_id, SignalAction::ClosePeer(close_id)),
        Signal::Unrecognized => (peer_id, SignalAction::Ignore),
    }
}

/// A client's offer reaches the client it is for as an offer from it; that
/// client's answer, sent back, reaches the offering client as an answer
/// from it, which takes it as the connection's remote side.
pub proof fn law_offer_answered(id: u8, remote: u8, offer: Seq<u8>, answer: Seq<u8>)
    ensures
        ({
            let sent = signal_bytes_spec(1, id, remote, offer);
            &&& routable_spec(sent)
            &&& route_spec(sent) == RelayRoute::Forward(remote as usize)
            &&& signal_well_formed_spec(sent)
            &&& signal_action_spec(remote, decode_signal_spec(sent), true)
                == SignalActionModel::AnswerOffer(id, offer)
        }),
        ({
            let back = signal_bytes_spec(2, remote, id, answer);
            &&& routable_spec(back)
            &&& route_spec(back) == RelayRoute::Forward(id as usize)
            &&& signal_well_formed_spec(back)
            &&& signal_action_spec(id, decode_signal_spec(back), true)
                == SignalActionModel::AcceptAnswer(remote, answer)
        }),
{
    law_signal_read_back(id, remote, offer);
    law_signal_read_back(remote, id, answer);
}

/// A client's own candidate for another client, once their connection is
/// stable, is sent on through the server to that client, which adds it
/// with the same media id, line index and candidate; where the media id
/// holds no semicolon or comma and the index's bytes no comma.
pub proof fn law_candidate_reaches_addressee(
    id: u8,
    remote: u8,
    mid: Seq<u8>,
    index: u16,
    candidate: Seq<u8>,
)
    requires
        !mid.contains(SEMICOLON),
        !mid.contains(COMMA),
        le16(index)[0] != COMMA,
        le16(index)[1] != COMMA,
    ensures
        ({
            let payload = candidate_payload(mid, index, candidate);
            let queued = signal_bytes_spec(3, id, remote, payload);
            let sent = signal_bytes_spec(4, id, remote, payload);
            &&& signal_well_formed_spec(queued)
            &&& signal_action_spec(id, decode_signal_spec(queued), true)
                == SignalActionModel::Send(sent)
            &&& routable_spec(sent)
            &&& route_spec(sent) == RelayRoute::Forward(remote as usize)
            &&& signal_well_formed_spec(sent)
            &&& signal_handled_spec(decode_signal_spec(sent), true)
            &&& signal_action_spec(remote, decode_signal_spec(sent), true)
                == SignalActionModel::AddCandidate(id, mid, index, candidate)
        }),
{
    let payload = candidate_payload(mid, index, candidate);
    law_signal_read_back(id, remote, payload);
    law_candidate_read_back(mid, index, candidate);
}

} // verus!
