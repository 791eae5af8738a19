use vstd::prelude::*;
use crate::wire::{bytes_between, bytes_from, le16, le16_value};

verus! {

/// The byte that ends a candidate's media id.
pub const SEMICOLON: u8 = 59;

/// The byte that ends a candidate's media line index.
pub const COMMA: u8 = 44;

/// A message of the connection set-up, as the relay server hands it on.
#[derive(PartialEq, Eq, Clone, Debug)]
pub enum Signal {
    /// 0: this client's id, and the ids of the clients to offer a
    /// connection to.
    AssignId(u8, Vec<u8>),
    /// 1: an offer from the given client.
    Offer(u8, Vec<u8>),
    /// 2: an answer from the given client.
    Answer(u8, Vec<u8>),
    /// 3: a candidate of this client, to be sent on to the given client.
    LocalCandidate(u8, Vec<u8>),
    /// 4: a candidate from the given client; no payload where the message
    /// ends after its header's second byte.
    RemoteCandidate(u8, Option<Vec<u8>>),
    /// 255: the given client left, and this client's new id.
    Close(u8, u8),
    /// Any other kind.
    Unrecognized,
}

/// The mathematical value of a `Signal`.
pub enum SignalModel {
    AssignId(u8, Seq<u8>),
    Offer(u8, Seq<u8>),
    Answer(u8, Seq<u8>),
    LocalCandidate(u8, Seq<u8>),
    RemoteCandidate(u8, Option<Seq<u8>>),
    Close(u8, u8),
    Unrecognized,
}

impl View for Signal {
    type V = SignalModel;

    open spec fn view(&self) -> SignalModel {
        match self {
            Signal::AssignId(a, v) => SignalModel::AssignId(*a, v@),
            Signal::Offer(a, v) => SignalModel::Offer(*a, v@),
            Signal::Answer(a, v) => SignalModel::Answer(*a, v@),
            Signal::LocalCandidate(a, v) => SignalModel::LocalCandidate(*a, v@),
            Signal::RemoteCandidate(a, v) => SignalModel::RemoteCandidate(
                *a,
                match v {
                    Some(p) => Some(p@),
                    None => None,
                },
            ),
            Signal::Close(a, b) => SignalModel::Close(*a, *b),
            Signal::Unrecognized => SignalModel::Unrecognized,
        }
    }
}

/// A message long enough for the fields of its kind: the client reads one
/// byte past the header's kind for kinds 0 and 4, two for kinds 1, 2, 3 and
/// 255, and panics on a shorter message.
pub open spec fn signal_well_formed_spec(a: Seq<u8>) -> bool {
    &&& a.len() >= 1
    &&& (a[0] == 0 || a[0] == 4) ==> a.len() >= 2
    &&& (a[0] == 1 || a[0] == 2 || a[0] == 3 || a[0] == 255) ==> a.len() >= 3
}

/// The fields of a set-up message, by its first byte.
pub open spec fn decode_signal_spec(a: Seq<u8>) -> SignalModel {
    let n = a.len() as int;
    if a[0] == 0 {
        SignalModel::AssignId(a[1], a.subrange(2, n))
    } else if a[0] == 1 {
        SignalModel::Offer(a[1], a.subrange(3, n))
    } else if a[0] == 2 {
        SignalModel::Answer(a[1], a.subrange(3, n))
    } else if a[0] == 3 {
        SignalModel::LocalCandidate(a[2], a.subrange(3, n))
    } else if a[0] == 4 {
        SignalModel::RemoteCandidate(a[1], if n >= 3 { Some(a.subrange(3, n)) } else { None })
    } else if a[0] == 255 {
        SignalModel::Close(a[1], a[2])
    } else {
        SignalModel::Unrecognized
    }
}

/// Whether a set-up message is long enough for its kind.
pub fn signal_well_formed(msg: &Vec<u8>) -> (r: bool)
    ensures
        r == signal_well_formed_spec(msg@),
{
    let n = msg.len();
    if n == 0 {
        return false;
    }
    let kind = msg[0];
    if kind == 0 || kind == 4 {
        n >= 2
    } else if kind == 1 || kind == 2 || kind == 3 || kind == 255 {
        n >= 3
    } else {
        true
    }
}

/// The fields of a set-up message.
pub fn decode_signal(msg: &Vec<u8>) -> (r: Signal)
    requires
        signal_well_formed_spec(msg@),
    ensures
        r@ == decode_signal_spec(msg@),
{
    let n = msg.len();
    let kind = msg[0];
    if kind == 0 {
        Signal::AssignId(msg[1], bytes_from(msg, 2))
    } else if kind == 1 {
        Signal::Offer(msg[1], bytes_from(msg, 3))
    } else if kind == 2 {
        Signal::Answer(msg[1], bytes_from(msg, 3))
    } else if kind == 3 {
        Signal::LocalCandidate(msg[2], bytes_from(msg, 3))
    } else if kind == 4 {
        if n >= 3 {
            Signal::RemoteCandidate(msg[1], Some(bytes_from(msg, 3)))
        } else {
            Signal::RemoteCandidate(msg[1], None)
        }
    } else if kind == 255 {
        Signal::Close(msg[1], msg[2])
    } else {
        Signal::Unrecognized
    }
}

/// A message of the given kind: the kind, two id bytes, then the body.
pub open spec fn signal_bytes_spec(kind: u8, a: u8, b: u8, body: Seq<u8>) -> Seq<u8> {
    seq![kind, a, b] + body
}

/// Builds a message of the given kind: the kind, two id bytes, then the body.
pub fn signal_bytes(kind: u8, a: u8, b: u8, body: &Vec<u8>) -> (r: Vec<u8>)
    ensures
        r@ == signal_bytes_spec(kind, a, b, body@),
{
    let mut r: Vec<u8> = Vec::new();
    r.push(kind);
    r.push(a);
    r.push(b);
    let mut i: usize = 0;
    while i < body.len()
        invariant
            0 <= i <= body@.len(),
            r@ == seq![kind, a, b] + body@.subrange(0, i as int),
        decreases body@.len() - i,
    {
        r.push(body[i]);
        assert(r@ =~= seq![kind, a, b] + body@.subrange(0, i + 1));
        i = i + 1;
    }
    assert(body@.subrange(0, body@.len() as int) =~= body@);
    r
}

/// The first index at which `s` holds `x`, or -1.
pub open spec fn first_pos(s: Seq<u8>, x: u8) -> int
    decreases s.len(),
{
    if s.len() == 0 {
        -1
    } else {
        let i = first_pos(s.drop_last(), x);
        if i >= 0 {
            i
        } else if s.last() == x {
            s.len() - 1
        } else {
            -1
        }
    }
}

/// The parts of a candidate payload: the media id up to the first
/// semicolon, the media line index in the two little-endian bytes after
/// it, and the candidate after the first comma. `None` where the client
/// panics: no semicolon, no comma, a comma before the semicolon, or fewer
/// than two bytes between them.
pub open spec fn candidate_spec(p: Seq<u8>) -> Option<(Seq<u8>, u16, Seq<u8>)> {
    let i = first_pos(p, SEMICOLON);
    let j = first_pos(p, COMMA);
    if i < 0 || j < 0 || i + 1 > j || j - (i + 1) < 2 {
        None
    } else {
        Some((p.subrange(0, i), le16_value(p[i + 1], p[i + 2]), p.subrange(j + 1, p.len() as int)))
    }
}

/// The parts of a received candidate.
#[derive(PartialEq, Eq, Clone, Debug)]
pub struct CandidateParts {
    pub mid: Vec<u8>,
    pub m_line_index: u16,
    pub candidate: Vec<u8>,
}

proof fn lemma_first_pos(s: Seq<u8>, x: u8)
    ensures
        -1 <= first_pos(s, x) < s.len(),
        first_pos(s, x) >= 0 ==> s[first_pos(s, x)] == x,
        forall|j: int| 0 <= j < s.len() && (first_pos(s, x) < 0 || j < first_pos(s, x)) ==> s[j]
            != x,
    decreases s.len(),
{
    if s.len() > 0 {
        let d = s.drop_last();
        lemma_first_pos(d, x);
        assert forall|j: int| 0 <= j < d.len() implies d[j] == s[j] by {}
    }
}

proof fn lemma_first_pos_at(s: Seq<u8>, x: u8, k: int)
    requires
        0 <= k < s.len(),
        s[k] == x,
        forall|j: int| 0 <= j < k ==> s[j] != x,
    ensures
        first_pos(s, x) == k,
    decreases s.len(),
{
    if k < s.len() - 1 {
        let d = s.drop_last();
        assert forall|j: int| 0 <= j < k implies d[j] != x by {
            assert(d[j] == s[j]);
        }
        lemma_first_pos_at(d, x, k);
    } else {
        lemma_first_pos(s.drop_last(), x);
        let d = s.drop_last();
        assert forall|j: int| 0 <= j < d.len() implies d[j] != x by {
            assert(d[j] == s[j]);
        }
    }
}

fn find_byte(p: &Vec<u8>, x: u8) -> (r: Option<usize>)
    ensures
        match r {
            Some(i) => first_pos(p@, x) == i,
            None => first_pos(p@, x) == -1,
        },
{
    proof {
        lemma_first_pos(p@, x);
    }
    let mut i: usize = 0;
    while i < p.len()
        invariant
            0 <= i <= p@.len(),
            forall|j: int| 0 <= j < i ==> p@[j] != x,
        decreases p@.len() - i,
    {
        if p[i] == x {
            proof {
                lemma_first_pos_at(p@, x, i as int);
            }
            return Some(i);
        }
        i = i + 1;
    }
    None
}

/// The parts of a candidate payload, as `candidate_spec` says.
pub fn parse_candidate(p: &Vec<u8>) -> (r: Option<CandidateParts>)
    ensures
        match r {
            Some(c) => candidate_spec(p@) == Some((c.mid@, c.m_line_index, c.candidate@)),
            None => candidate_spec(p@) is None,
        },
{
    proof {
        lemma_first_pos(p@, SEMICOLON);
        lemma_first_pos(p@, COMMA);
    }
    let n = p.len();
    let i = match find_byte(p, SEMICOLON) {
        Some(i) => i,
        None => return None,
    };
    let j = match find_byte(p, COMMA) {
        Some(j) => j,
        None => return None,
    };
    if i + 1 > j || j - (i + 1) < 2 {
        return None;
    }
    let mid = bytes_between(p, 0, i);
    let index_bytes = bytes_between(p, i + 1, j);
    let m_line_index = crate::wire::read_u16_le(index_bytes.as_slice());
    let candidate = bytes_from(p, j + 1);
    Some(CandidateParts { mid, m_line_index, candidate })
}

/// The payload of a candidate: the media id, a semicolon, the media line
/// index in two little-endian bytes, a comma, then the candidate.
pub open spec fn candidate_payload(mid: Seq<u8>, index: u16, candidate: Seq<u8>) -> Seq<u8> {
    mid + seq![SEMICOLON] + le16(index) + seq![COMMA] + candidate
}

/// The message a client queues for one of its candidates, to be sent on to
/// `remote_id`: kind 3, its own id, the remote id, then the payload.
pub fn candidate_event(id: u8, remote_id: u8, mid: &Vec<u8>, index: u16, candidate: &Vec<u8>) -> (r:
    Vec<u8>)
    ensures
        r@ == signal_bytes_spec(3, id, remote_id, candidate_payload(mid@, index, candidate@)),
{
    let mut body: Vec<u8> = Vec::new();
    let mut k: usize = 0;
    while k < mid.len()
        invariant
            0 <= k <= mid@.len(),
            body@ == mid@.subrange(0, k as int),
        decreases mid@.len() - k,
    {
        body.push(mid[k]);
        assert(body@ =~= mid@.subrange(0, k + 1));
        k = k + 1;
    }
    assert(mid@.subrange(0, mid@.len() as int) =~= mid@);
    body.push(SEMICOLON);
    let ib = crate::wire::write_u16_le(index);
    body.push(ib[0]);
    body.push(ib[1]);
    body.push(COMMA);
    let ghost head = body@;
    let mut k: usize = 0;
    while k < candidate.len()
        invariant
            0 <= k <= candidate@.len(),
            body@ == head + candidate@.subrange(0, k as int),
        decreases candidate@.len() - k,
    {
        body.push(candidate[k]);
        assert(body@ =~= head + candidate@.subrange(0, k + 1));
        k = k + 1;
    }
    assert(candidate@.subrange(0, candidate@.len() as int) =~= candidate@);
    assert(body@ =~= candidate_payload(mid@, index, candidate@));
    signal_bytes(3, id, remote_id, &body)
}

/// The index at which the game keeps the player with id `remote_id`, as
/// seen by the player with id `peer_id`: the ids above one's own move down
/// by one. `None` for one's own id.
pub open spec fn remote_index_spec(remote_id: u8, peer_id: u8) -> Option<u8> {
    if remote_id == peer_id {
        None
    } else if remote_id > peer_id {
        Some((remote_id - 1) as u8)
    } else {
        Some(remote_id)
    }
}

/// The index at which the game keeps the player with id `remote_id`.
pub fn remote_index(remote_id: u8, peer_id: u8) -> (r: Option<u8>)
    ensures
        r == remote_index_spec(remote_id, peer_id),
{
    if remote_id == peer_id {
        None
    } else if remote_id >= peer_id {
        Some(remote_id - 1)
    } else {
        Some(remote_id)
    }
}

/// Whether an update for the enemy at `remote_index` needs a new enemy
/// player first: the index is compared with the number of enemies cut to
/// a byte.
pub open spec fn needs_new_enemy_spec(len: usize, remote_index: u8) -> bool {
    remote_index as int >= len as int % 256
}

/// Whether an update for the enemy at `remote_index` needs a new enemy
/// player first.
pub fn needs_new_enemy(len: usize, remote_index: u8) -> (r: bool)
    ensures
        r == needs_new_enemy_spec(len, remote_index),
{
    remote_index >= (len % 256) as u8
}

/// A message of kinds 1, 2 and 4 reads back with its sender's id and its
/// body; one of kind 3 with the id it is to be sent on to.
pub proof fn law_signal_read_back(a: u8, b: u8, body: Seq<u8>)
    ensures
        decode_signal_spec(signal_bytes_spec(1, a, b, body)) == SignalModel::Offer(a, body),
        decode_signal_spec(signal_bytes_spec(2, a, b, body)) == SignalModel::Answer(a, body),
        decode_signal_spec(signal_bytes_spec(3, a, b, body)) == SignalModel::LocalCandidate(b, body),
        decode_signal_spec(signal_bytes_spec(4, a, b, body)) == SignalModel::RemoteCandidate(
            a,
            Some(body),
        ),
        signal_well_formed_spec(signal_bytes_spec(1, a, b, body)),
        signal_well_formed_spec(signal_bytes_spec(2, a, b, body)),
        signal_well_formed_spec(signal_bytes_spec(3, a, b, body)),
        signal_well_formed_spec(signal_bytes_spec(4, a, b, body)),
{
    assert((seq![1u8, a, b] + body).subrange(3, 3 + body.len() as int) =~= body);
    assert((seq![2u8, a, b] + body).subrange(3, 3 + body.len() as int) =~= body);
    assert((seq![3u8, a, b] + body).subrange(3, 3 + body.len() as int) =~= body);
    assert((seq![4u8, a, b] + body).subrange(3, 3 + body.len() as int) =~= body);
}

/// A candidate payload reads back as its parts, when the media id holds no
/// semicolon or comma and the index's bytes hold no comma.
pub proof fn law_candidate_read_back(mid: Seq<u8>, index: u16, candidate: Seq<u8>)
    requires
        !mid.contains(SEMICOLON),
        !mid.contains(COMMA),
        le16(index)[0] != COMMA,
        le16(index)[1] != COMMA,
    ensures
        candidate_spec(candidate_payload(mid, index, candidate)) == Some((mid, index, candidate)),
{
    let p = candidate_payload(mid, index, candidate);
    let m = mid.len() as int;
    assert(p[m] == SEMICOLON);
    assert(p[m + 1] == le16(index)[0]);
    assert(p[m + 2] == le16(index)[1]);
    assert(p[m + 3] == COMMA);
    assert forall|j: int| 0 <= j < m implies p[j] != SEMICOLON by {
        assert(p[j] == mid[j]);
    }
    lemma_first_pos_at(p, SEMICOLON, m);
    assert forall|j: int| 0 <= j < m + 3 implies p[j] != COMMA by {
        if j < m {
            assert(p[j] == mid[j]);
        }
    }
    lemma_first_pos_at(p, COMMA, m + 3);
    assert(p.subrange(0, m) =~= mid);
    assert(p.subrange(m + 4, p.len() as int) =~= candidate);
    assert(le16_value(le16(index)[0], le16(index)[1]) == index);
}

/// Two different remote players never share an index.
pub proof fn law_remote_index_distinct(r1: u8, r2: u8, peer_id: u8)
    requires
        r1 != peer_id,
        r2 != peer_id,
        r1 != r2,
    ensures
        remote_index_spec(r1, peer_id) != remote_index_spec(r2, peer_id),
{
}

} // verus!
