use vstd::prelude::*;
use byteorder::{ByteOrder, LittleEndian};

verus! {

/// The two little-endian bytes of `n`.
pub open spec fn le16(n: u16) -> Seq<u8> {
    seq![(n % 256) as u8, (n / 256) as u8]
}

/// The number two little-endian bytes stand for.
pub open spec fn le16_value(b0: u8, b1: u8) -> u16 {
    (b0 + 256 * b1) as u16
}

/// The four little-endian bytes of `n`.
pub open spec fn le32(n: u32) -> Seq<u8> {
    seq![
        (n % 256) as u8,
        ((n / 256) % 256) as u8,
        ((n / 65536) % 256) as u8,
        (n / 16777216) as u8,
    ]
}

/// The number four little-endian bytes stand for.
pub open spec fn le32_value(b0: u8, b1: u8, b2: u8, b3: u8) -> u32 {
    (b0 + 256 * b1 + 65536 * b2 + 16777216 * b3) as u32
}

/// byteorder's `LittleEndian::write_u16`, into a fresh two-byte buffer: the
/// crate writes `n.to_le_bytes()`, low byte first.
#[verifier::external_body]
pub fn write_u16_le(n: u16) -> (r: [u8; 2])
    ensures
        r@ == le16(n),
{
    let mut buf = [0u8; 2];
    LittleEndian::write_u16(&mut buf, n);
    buf
}

/// byteorder's `LittleEndian::read_u16`: the number the first two bytes
/// stand for, low byte first; the crate panics on fewer than two bytes.
#[verifier::external_body]
pub fn read_u16_le(buf: &[u8]) -> (r: u16)
    requires
        buf@.len() >= 2,
    ensures
        r == le16_value(buf@[0], buf@[1]),
{
    LittleEndian::read_u16(buf)
}

/// byteorder's `LittleEndian::write_u32`, into a fresh four-byte buffer: the
/// crate writes `n.to_le_bytes()`, low byte first.
#[verifier::external_body]
fn le_bytes_u32(n: u32) -> (r: [u8; 4])
    ensures
        r@ == le32(n),
{
    let mut buf = [0u8; 4];
    LittleEndian::write_u32(&mut buf, n);
    buf
}

/// byteorder's `LittleEndian::read_u32`: the number the first four bytes
/// stand for, low byte first; the crate panics on fewer than four bytes.
#[verifier::external_body]
fn read_le_u32(buf: &[u8]) -> (r: u32)
    requires
        buf@.len() >= 4,
    ensures
        r == le32_value(buf@[0], buf@[1], buf@[2], buf@[3]),
{
    LittleEndian::read_u32(buf)
}

/// The bytes `v[start..]`.
pub fn bytes_from(v: &Vec<u8>, start: usize) -> (r: Vec<u8>)
    requires
        start <= v@.len(),
    ensures
        r@ == v@.subrange(start as int, v@.len() as int),
{
    bytes_between(v, start, v.len())
}

/// The bytes `v[start..end]`.
pub fn bytes_between(v: &Vec<u8>, start: usize, end: usize) -> (r: Vec<u8>)
    requires
        start <= end <= v@.len(),
    ensures
        r@ == v@.subrange(start as int, end as int),
{
    let mut r: Vec<u8> = Vec::new();
    let mut i = start;
    while i < end
        invariant
            start <= i <= end,
            end <= v@.len(),
            r@ == v@.subrange(start as int, i as int),
        decreases end - i,
    {
        r.push(v[i]);
        assert(r@ =~= v@.subrange(start as int, i + 1));
        i = i + 1;
    }
    r
}

fn push_all(out: &mut Vec<u8>, bytes: &[u8])
    ensures
        final(out)@ == old(out)@ + bytes@,
{
    let mut i: usize = 0;
    let ghost start = out@;
    while i < bytes.len()
        invariant
            0 <= i <= bytes@.len(),
            out@ == start + bytes@.subrange(0, i as int),
        decreases bytes@.len() - i,
    {
        out.push(bytes[i]);
        assert(out@ =~= start + bytes@.subrange(0, i + 1));
        i = i + 1;
    }
    assert(bytes@.subrange(0, bytes@.len() as int) =~= bytes@);
}

/// What a player is doing, as sent to the other players.
#[derive(PartialEq, Eq, Clone, Copy, Debug, Structural)]
pub enum PlayerState {
    Idle,
}

/// One player update on the wire: who sent it, what the player is doing,
/// and the bit patterns of its position and velocity (`f32::to_bits`).
#[derive(PartialEq, Eq, Clone, Copy, Debug, Structural)]
pub struct PlayerFrame {
    pub remote_id: u8,
    pub state: PlayerState,
    pub x: u32,
    pub y: u32,
    pub vx: u32,
    pub vy: u32,
}

/// The bytes of one player update from `peer_id`: the id, the tag 1 0,
/// the state 0 0, then x, y, vx and vy, four little-endian bytes each.
pub open spec fn frame_bytes(peer_id: u8, f: PlayerFrame) -> Seq<u8> {
    seq![peer_id, 1u8, 0u8, 0u8, 0u8] + le32(f.x) + le32(f.y) + le32(f.vx) + le32(f.vy)
}

/// The bytes of several updates from `peer_id`, one after another.
pub open spec fn frames_bytes(peer_id: u8, fs: Seq<PlayerFrame>) -> Seq<u8>
    decreases fs.len(),
{
    if fs.len() == 0 {
        Seq::empty()
    } else {
        frame_bytes(peer_id, fs[0]) + frames_bytes(peer_id, fs.drop_first())
    }
}

/// Reading one update at `pos`: `Some(Some((frame, next)))` for an update,
/// `Some(None)` where reading stops (fewer than three bytes left, or no
/// `1 0` tag), `None` where the reader panics (a tagged update with an
/// unknown state or cut short).
pub open spec fn frame_at(b: Seq<u8>, pos: int) -> Option<Option<(PlayerFrame, int)>> {
    if pos + 3 <= b.len() && b[pos + 1] == 1 && b[pos + 2] == 0 {
        if pos + 21 <= b.len() && b[pos + 3] == 0 && b[pos + 4] == 0 {
            Some(
                Some(
                    (
                        PlayerFrame {
                            remote_id: b[pos],
                            state: PlayerState::Idle,
                            x: le32_value(b[pos + 5], b[pos + 6], b[pos + 7], b[pos + 8]),
                            y: le32_value(b[pos + 9], b[pos + 10], b[pos + 11], b[pos + 12]),
                            vx: le32_value(b[pos + 13], b[pos + 14], b[pos + 15], b[pos + 16]),
                            vy: le32_value(b[pos + 17], b[pos + 18], b[pos + 19], b[pos + 20]),
                        },
                        pos + 21,
                    ),
                ),
            )
        } else {
            None
        }
    } else {
        Some(None)
    }
}


/// The updates read from `b` starting at `pos`, up to where reading stops;
/// `None` where the reader panics.
pub open spec fn frames_from(b: Seq<u8>, pos: int) -> Option<Seq<PlayerFrame>>
    decreases b.len() - pos,
{
    match frame_at(b, pos) {
        Some(Some((f, next))) => if next <= pos {
            None
        } else {
            match frames_from(b, next) {
                Some(rest) => Some(seq![f] + rest),
                None => None,
            }
        },
        Some(None) => Some(Seq::empty()),
        None => None,
    }
}

/// An update as it arrives from `peer_id`.
pub open spec fn sent_by(peer_id: u8, f: PlayerFrame) -> PlayerFrame {
    PlayerFrame { remote_id: peer_id, state: PlayerState::Idle, x: f.x, y: f.y, vx: f.vx, vy: f.vy }
}

/// The bytes of one player update from `peer_id`.
pub fn encode_player_frame(peer_id: u8, f: &PlayerFrame) -> (r: Vec<u8>)
    ensures
        r@ == frame_bytes(peer_id, *f),
{
    let mut r: Vec<u8> = Vec::new();
    r.push(peer_id);
    r.push(1u8);
    r.push(0u8);
    r.push(0u8);
    r.push(0u8);
    let x = le_bytes_u32(f.x);
    push_all(&mut r, &x);
    let y = le_bytes_u32(f.y);
    push_all(&mut r, &y);
    let vx = le_bytes_u32(f.vx);
    push_all(&mut r, &vx);
    let vy = le_bytes_u32(f.vy);
    push_all(&mut r, &vy);
    assert(r@ =~= frame_bytes(peer_id, *f));
    r
}

proof fn lemma_frames_bytes_push(peer_id: u8, fs: Seq<PlayerFrame>, f: PlayerFrame)
    ensures
        frames_bytes(peer_id, fs.push(f)) == frames_bytes(peer_id, fs) + frame_bytes(peer_id, f),
    decreases fs.len(),
{
    if fs.len() == 0 {
        assert(fs.push(f).drop_first() =~= Seq::<PlayerFrame>::empty());
        assert(frames_bytes(peer_id, fs.push(f).drop_first()) == Seq::<u8>::empty());
        assert(fs.push(f)[0] == f);
        assert(frames_bytes(peer_id, fs.push(f)) =~= frame_bytes(peer_id, f));
        assert(frames_bytes(peer_id, fs) == Seq::<u8>::empty());
    } else {
        assert(fs.push(f).drop_first() =~= fs.drop_first().push(f));
        lemma_frames_bytes_push(peer_id, fs.drop_first(), f);
        assert(frames_bytes(peer_id, fs.push(f)) =~= frames_bytes(peer_id, fs) + frame_bytes(
            peer_id,
            f,
        ));
    }
}

/// The bytes of several updates from `peer_id`, as one message.
pub fn encode_frames(peer_id: u8, fs: &Vec<PlayerFrame>) -> (r: Vec<u8>)
    ensures
        r@ == frames_bytes(peer_id, fs@),
{
    let mut r: Vec<u8> = Vec::new();
    let mut i: usize = 0;
    assert(fs@.take(0) =~= Seq::<PlayerFrame>::empty());
    while i < fs.len()
        invariant
            0 <= i <= fs@.len(),
            r@ == frames_bytes(peer_id, fs@.take(i as int)),
        decreases fs@.len() - i,
    {
        let bytes = encode_player_frame(peer_id, &fs[i]);
        push_all(&mut r, bytes.as_slice());
        proof {
            lemma_frames_bytes_push(peer_id, fs@.take(i as int), fs@[i as int]);
            assert(fs@.take(i as int).push(fs@[i as int]) =~= fs@.take(i + 1));
        }
        i = i + 1;
    }
    assert(fs@.take(fs@.len() as int) =~= fs@);
    r
}

/// Reads one update at `pos`, as `frame_at` says.
fn read_player_frame(b: &Vec<u8>, pos: usize) -> (r: Option<Option<(PlayerFrame, usize)>>)
    ensures
        match r {
            Some(Some((f, next))) => frame_at(b@, pos as int) == Some(Some((f, next as int))),
            Some(None) => frame_at(b@, pos as int) == Some(None::<(PlayerFrame, int)>),
            None => frame_at(b@, pos as int) is None,
        },
{
    let n = b.len();
    if pos <= n && n - pos >= 3 && b[pos + 1] == 1 && b[pos + 2] == 0 {
        if n - pos >= 21 && b[pos + 3] == 0 && b[pos + 4] == 0 {
            let rest = bytes_from(b, pos + 5);
            let x = read_le_u32(rest.as_slice());
            let rest = bytes_from(b, pos + 9);
            let y = read_le_u32(rest.as_slice());
            let rest = bytes_from(b, pos + 13);
            let vx = read_le_u32(rest.as_slice());
            let rest = bytes_from(b, pos + 17);
            let vy = read_le_u32(rest.as_slice());
            let f = PlayerFrame { remote_id: b[pos], state: PlayerState::Idle, x, y, vx, vy };
            Some(Some((f, pos + 21)))
        } else {
            None
        }
    } else {
        Some(None)
    }
}

/// The player updates in a received message, read one after another until
/// one does not carry the update tag; `None` where the reader panics (a
/// tagged update with an unknown state, or cut short).
pub fn read_frames(b: &Vec<u8>) -> (r: Option<Vec<PlayerFrame>>)
    ensures
        match r {
            Some(v) => frames_from(b@, 0) == Some(v@),
            None => frames_from(b@, 0) is None,
        },
{
    let mut out: Vec<PlayerFrame> = Vec::new();
    let mut pos: usize = 0;
    let n = b.len();
    loop
        invariant
            n == b@.len(),
            pos <= n,
            frames_from(b@, 0) == match frames_from(b@, pos as int) {
                Some(rest) => Some(out@ + rest),
                None => None::<Seq<PlayerFrame>>,
            },
        decreases n - pos,
    {
        match read_player_frame(b, pos) {
            Some(Some((f, next))) => {
                assert(frames_from(b@, pos as int) == match frames_from(b@, next as int) {
                    Some(rest) => Some(seq![f] + rest),
                    None => None::<Seq<PlayerFrame>>,
                });
                let ghost old_out = out@;
                out.push(f);
                proof {
                    match frames_from(b@, next as int) {
                        Some(rest) => {
                            assert(old_out + (seq![f] + rest) =~= out@ + rest);
                        },
                        None => {},
                    }
                }
                pos = next;
            },
            Some(None) => {
                assert(out@ + Seq::<PlayerFrame>::empty() =~= out@);
                return Some(out);
            },
            None => {
                return None;
            },
        }
    }
}

proof fn lemma_le32_round_trip(n: u32)
    ensures
        le32_value(le32(n)[0], le32(n)[1], le32(n)[2], le32(n)[3]) == n,
{
    let b = le32(n);
    assert(b[0] as int == n % 256);
    assert(b[1] as int == (n / 256) % 256);
    assert(b[2] as int == (n / 65536) % 256);
    assert(b[3] as int == n / 16777216);
    assert(n % 256 + 256 * ((n / 256) % 256) + 65536 * ((n / 65536) % 256) + 16777216 * (n
        / 16777216) == n) by (nonlinear_arith);
}

proof fn lemma_frame_bytes_index(peer_id: u8, f: PlayerFrame)
    ensures
        ({
            let fb = frame_bytes(peer_id, f);
            &&& fb.len() == 21
            &&& fb[0] == peer_id && fb[1] == 1 && fb[2] == 0 && fb[3] == 0 && fb[4] == 0
            &&& forall|i: int| 0 <= i < 4 ==> fb[5 + i] == #[trigger] le32(f.x)[i]
            &&& forall|i: int| 0 <= i < 4 ==> fb[9 + i] == #[trigger] le32(f.y)[i]
            &&& forall|i: int| 0 <= i < 4 ==> fb[13 + i] == #[trigger] le32(f.vx)[i]
            &&& forall|i: int| 0 <= i < 4 ==> fb[17 + i] == #[trigger] le32(f.vy)[i]
        }),
{
    let p0 = seq![peer_id, 1u8, 0u8, 0u8, 0u8];
    let p1 = p0 + le32(f.x);
    let p2 = p1 + le32(f.y);
    let p3 = p2 + le32(f.vx);
    let fb = p3 + le32(f.vy);
    assert(fb == frame_bytes(peer_id, f));
    assert forall|i: int| 0 <= i < 4 implies fb[5 + i] == #[trigger] le32(f.x)[i] by {
        assert(fb[5 + i] == p3[5 + i]);
        assert(p3[5 + i] == p2[5 + i]);
        assert(p2[5 + i] == p1[5 + i]);
    }
    assert forall|i: int| 0 <= i < 4 implies fb[9 + i] == #[trigger] le32(f.y)[i] by {
        assert(fb[9 + i] == p3[9 + i]);
        assert(p3[9 + i] == p2[9 + i]);
    }
    assert forall|i: int| 0 <= i < 4 implies fb[13 + i] == #[trigger] le32(f.vx)[i] by {
        assert(fb[13 + i] == p3[13 + i]);
    }
    assert(fb[0] == p0[0] && fb[1] == p0[1] && fb[2] == p0[2] && fb[3] == p0[3] && fb[4] == p0[4]);
}

proof fn lemma_frames_from_written(peer_id: u8, fs: Seq<PlayerFrame>, b: Seq<u8>, pos: int)
    requires
        0 <= pos,
        pos + frames_bytes(peer_id, fs).len() == b.len(),
        b.subrange(pos, b.len() as int) == frames_bytes(peer_id, fs),
    ensures
        frames_from(b, pos) == Some(fs.map_values(|f: PlayerFrame| sent_by(peer_id, f))),
    decreases fs.len(),
{
    if fs.len() == 0 {
        assert(fs.map_values(|f: PlayerFrame| sent_by(peer_id, f)) =~= Seq::<PlayerFrame>::empty());
    } else {
        let f = fs[0];
        let fb = frame_bytes(peer_id, f);
        let rest = frames_bytes(peer_id, fs.drop_first());
        assert(frames_bytes(peer_id, fs) == fb + rest);
        assert forall|i: int| 0 <= i < 21 implies b[pos + i] == #[trigger] fb[i] by {
            assert(b.subrange(pos, b.len() as int)[i] == b[pos + i]);
        }
        lemma_frame_bytes_index(peer_id, f);
        assert(le32(f.x)[0] == fb[5] && le32(f.x)[1] == fb[6] && le32(f.x)[2] == fb[7]
            && le32(f.x)[3] == fb[8]);
        assert(le32(f.y)[0] == fb[9] && le32(f.y)[1] == fb[10] && le32(f.y)[2] == fb[11]
            && le32(f.y)[3] == fb[12]);
        assert(le32(f.vx)[0] == fb[13] && le32(f.vx)[1] == fb[14] && le32(f.vx)[2] == fb[15]
            && le32(f.vx)[3] == fb[16]);
        assert(le32(f.vy)[0] == fb[17] && le32(f.vy)[1] == fb[18] && le32(f.vy)[2] == fb[19]
            && le32(f.vy)[3] == fb[20]);
        lemma_le32_round_trip(f.x);
        lemma_le32_round_trip(f.y);
        lemma_le32_round_trip(f.vx);
        lemma_le32_round_trip(f.vy);
        assert(b[pos + 5] == le32(f.x)[0] && b[pos + 6] == le32(f.x)[1] && b[pos + 7] == le32(f.x)[2]
            && b[pos + 8] == le32(f.x)[3]);
        assert(b[pos + 9] == le32(f.y)[0] && b[pos + 10] == le32(f.y)[1] && b[pos + 11] == le32(
            f.y,
        )[2] && b[pos + 12] == le32(f.y)[3]);
        assert(b[pos + 13] == le32(f.vx)[0] && b[pos + 14] == le32(f.vx)[1] && b[pos + 15]
            == le32(f.vx)[2] && b[pos + 16] == le32(f.vx)[3]);
        assert(b[pos + 17] == le32(f.vy)[0] && b[pos + 18] == le32(f.vy)[1] && b[pos + 19]
            == le32(f.vy)[2] && b[pos + 20] == le32(f.vy)[3]);
        assert(frame_at(b, pos) == Some(Some((sent_by(peer_id, f), pos + 21))));
        assert(b.subrange(pos + 21, b.len() as int) =~= rest) by {
            assert forall|i: int| 0 <= i < rest.len() implies #[trigger] b.subrange(
                pos + 21,
                b.len() as int,
            )[i] == rest[i] by {
                assert(b.subrange(pos, b.len() as int)[21 + i] == b[pos + 21 + i]);
            }
        }
        lemma_frames_from_written(peer_id, fs.drop_first(), b, pos + 21);
        assert(seq![sent_by(peer_id, f)] + fs.drop_first().map_values(
            |g: PlayerFrame| sent_by(peer_id, g),
        ) =~= fs.map_values(|g: PlayerFrame| sent_by(peer_id, g)));
    }
}

/// A message of player updates reads back as the updates that were
/// written, each as sent by the writer.
pub proof fn law_frames_read_back(peer_id: u8, fs: Seq<PlayerFrame>)
    ensures
        frames_from(frames_bytes(peer_id, fs), 0) == Some(
            fs.map_values(|f: PlayerFrame| sent_by(peer_id, f)),
        ),
{
    let b = frames_bytes(peer_id, fs);
    assert(b.subrange(0, b.len() as int) =~= b);
    lemma_frames_from_written(peer_id, fs, b, 0);
}

proof fn lemma_frame_at_shift(x: Seq<u8>, y: Seq<u8>, pos: int)
    requires
        0 <= pos,
    ensures
        frame_at(x + y, x.len() + pos) == match frame_at(y, pos) {
            Some(Some((f, next))) => Some(Some((f, next + x.len()))),
            other => other,
        },
{
    let b = x + y;
    let n = x.len() as int;
    assert forall|j: int| 0 <= j < y.len() implies b[n + j] == #[trigger] y[j] by {}
}

proof fn lemma_frames_from_shift(x: Seq<u8>, y: Seq<u8>, pos: int)
    requires
        0 <= pos,
    ensures
        frames_from(x + y, x.len() + pos) == frames_from(y, pos),
    decreases y.len() - pos,
{
    lemma_frame_at_shift(x, y, pos);
    match frame_at(y, pos) {
        Some(Some((f, next))) => {
            if next > pos {
                lemma_frames_from_shift(x, y, next);
            }
        },
        _ => {},
    }
}

/// One player update's bytes followed by any bytes: reading at the start
/// gives the update, as sent by the writer, and stops after its 21 bytes,
/// where the rest begins; reading on gives the update, then what the rest
/// reads as.
pub proof fn law_frame_then_rest(peer_id: u8, f: PlayerFrame, rest: Seq<u8>)
    ensures
        frame_at(frame_bytes(peer_id, f) + rest, 0) == Some(Some((sent_by(peer_id, f), 21int))),
        frames_from(frame_bytes(peer_id, f) + rest, 0) == match frames_from(rest, 0) {
            Some(r) => Some(seq![sent_by(peer_id, f)] + r),
            None => None,
        },
{
    let fb = frame_bytes(peer_id, f);
    let b = fb + rest;
    lemma_frame_bytes_index(peer_id, f);
    assert forall|i: int| 0 <= i < 21 implies b[i] == #[trigger] fb[i] by {}
    lemma_le32_round_trip(f.x);
    lemma_le32_round_trip(f.y);
    lemma_le32_round_trip(f.vx);
    lemma_le32_round_trip(f.vy);
    assert(b[5] == le32(f.x)[0] && b[6] == le32(f.x)[1] && b[7] == le32(f.x)[2] && b[8] == le32(
        f.x,
    )[3]);
    assert(b[9] == le32(f.y)[0] && b[10] == le32(f.y)[1] && b[11] == le32(f.y)[2] && b[12]
        == le32(f.y)[3]);
    assert(b[13] == le32(f.vx)[0] && b[14] == le32(f.vx)[1] && b[15] == le32(f.vx)[2] && b[16]
        == le32(f.vx)[3]);
    assert(b[17] == le32(f.vy)[0] && b[18] == le32(f.vy)[1] && b[19] == le32(f.vy)[2] && b[20]
        == le32(f.vy)[3]);
    assert(b[0] == peer_id && b[1] == 1 && b[2] == 0 && b[3] == 0 && b[4] == 0);
    assert(frame_at(b, 0) == Some(Some((sent_by(peer_id, f), 21int))));
    lemma_frames_from_shift(fb, rest, 0);
    match frames_from(rest, 0) {
        Some(r) => {},
        None => {},
    }
}

} // verus!
