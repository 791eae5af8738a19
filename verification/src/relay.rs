use vstd::prelude::*;
use vstd::string::StringExecFns;
use crate::numeral::{decimal_text, push_u8};
use crate::signal::{SignalModel, decode_signal_spec, signal_bytes_spec, signal_well_formed_spec};

verus! {

/// The image family an image code's high byte stands for.
pub open spec fn image_family(high: int) -> Option<Seq<char>> {
    if high == 1 {
        Some("grass"@)
    } else if high == 2 {
        Some("wall"@)
    } else if high == 16 {
        Some("player"@)
    } else if high == 32 {
        Some("monster"@)
    } else if high == 128 {
        Some("particle"@)
    } else {
        None
    }
}

/// The file of an image code: its family by the high byte, then its frame
/// number, the low byte, in decimal.
pub open spec fn image_path_spec(code: u16) -> Seq<char> {
    "./res/img/static/"@ + image_family((code / 256) as int).unwrap() + "_"@ + decimal_text(
        (code % 256) as int,
    ) + ".png"@
}

fn family_name(high: u16) -> (r: &'static str)
    requires
        image_family(high as int) is Some,
    ensures
        image_family(high as int) == Some(r@),
{
    if high == 1 {
        "grass"
    } else if high == 2 {
        "wall"
    } else if high == 16 {
        "player"
    } else if high == 32 {
        "monster"
    } else {
        "particle"
    }
}

/// Whether the server knows the image family of a code's high byte.
pub fn has_image_family(code: u16) -> (r: bool)
    ensures
        r == image_family((code / 256) as int) is Some,
{
    let high = code / 256;
    high == 1 || high == 2 || high == 16 || high == 32 || high == 128
}

/// The file the server sends for an image code.
pub fn image_path(code: u16) -> (r: String)
    requires
        image_family((code / 256) as int) is Some,
    ensures
        r@ == image_path_spec(code),
{
    let mut filename = String::new();
    filename.append("./res/img/static/");
    filename.append(family_name(code / 256));
    filename.append("_");
    push_u8(&mut filename, (code % 256) as u8);
    filename.append(".png");
    filename
}

/// The file the server sends for an icon name.
pub fn icon_path(name: &str) -> (r: String)
    ensures
        r@ == "./res/img/static/"@ + name@,
{
    let mut filename = String::new();
    filename.append("./res/img/static/");
    filename.append(name);
    filename
}

/// The file the server reads for a level file name.
pub fn level_path(name: &str) -> (r: String)
    ensures
        r@ == "./res/levels/"@ + name@,
{
    let mut filename = String::new();
    filename.append("./res/levels/");
    filename.append(name);
    filename
}

/// The file a client asks for, or saves, for a level name.
pub fn level_file_name(level_name: &str) -> (r: String)
    ensures
        r@ == "./res/levels/"@ + level_name@ + ".lvl"@,
{
    let mut filename = String::new();
    filename.append("./res/levels/");
    filename.append(level_name);
    filename.append(".lvl");
    filename
}

/// The message that tells a new client its id and the clients to offer a
/// connection to: kind 0, then every index of the `n` clients from the
/// highest down, each cut to a byte.
pub open spec fn new_client_message_spec(n: nat) -> Seq<u8> {
    seq![0u8] + Seq::new(n, |k: int| ((n - 1 - k) % 256) as u8)
}

/// The message for a new client when `n` clients are connected, the new
/// one last.
pub fn new_client_message(n: usize) -> (r: Vec<u8>)
    ensures
        r@ == new_client_message_spec(n as nat),
{
    let mut r: Vec<u8> = Vec::new();
    r.push(0u8);
    let mut k: usize = 0;
    while k < n
        invariant
            0 <= k <= n,
            r@ == seq![0u8] + Seq::new(k as nat, |j: int| ((n - 1 - j) % 256) as u8),
        decreases n - k,
    {
        let i = n - 1 - k;
        r.push((i % 256) as u8);
        assert(r@ =~= seq![0u8] + Seq::new((k + 1) as nat, |j: int| ((n - 1 - j) % 256) as u8));
        k = k + 1;
    }
    r
}

/// The index a remaining client takes when the client at `close` leaves.
pub open spec fn index_after_close(i: int, close: int) -> int {
    if i < close {
        i
    } else {
        i - 1
    }
}

/// The message the client at index `i` gets when the client at `close`
/// leaves: kind 255, the index that left, and its own new index, each cut
/// to a byte.
pub open spec fn close_notice_spec(i: int, close: int) -> Seq<u8> {
    seq![255u8, (close % 256) as u8, if i < close { (i % 256) as u8 } else { ((i % 256) - 1) as u8 }]
}

/// The notices sent when the client at `close` of `n` leaves: one for every
/// other client, in index order.
pub open spec fn close_notices_spec(n: int, close: int) -> Seq<(usize, Seq<u8>)> {
    Seq::new(
        (n - 1) as nat,
        |k: int|
            {
                let i = if k < close { k } else { k + 1 };
                (i as usize, close_notice_spec(i, close))
            },
    )
}

/// An index that a byte holds as 0.
pub open spec fn cuts_to_zero(i: int) -> bool {
    i % 256 == 0
}

/// One notice: the client index it is for, and the message.
#[derive(PartialEq, Eq, Clone, Debug)]
pub struct CloseNotice {
    pub client: usize,
    pub message: Vec<u8>,
}

/// The notices sent when the client at `close` of `n` leaves.
pub fn close_notices(n: usize, close: usize) -> (r: Vec<CloseNotice>)
    requires
        close < n,
        forall|i: int| close < i < n ==> !#[trigger] cuts_to_zero(i),
    ensures
        r@.map_values(|c: CloseNotice| (c.client, c.message@)) == close_notices_spec(
            n as int,
            close as int,
        ),
{
    let mut r: Vec<CloseNotice> = Vec::new();
    let mut i: usize = 0;
    while i < n
        invariant
            close < n,
            forall|j: int| close < j < n ==> !#[trigger] cuts_to_zero(j),
            0 <= i <= n,
            r@.map_values(|c: CloseNotice| (c.client, c.message@)) == close_notices_spec(
                n as int,
                close as int,
            ).take(if i <= close { i as int } else { i - 1 }),
        decreases n - i,
    {
        let ghost before = r@.map_values(|c: CloseNotice| (c.client, c.message@));
        if i < close {
            let mut m: Vec<u8> = Vec::new();
            m.push(255u8);
            m.push((close % 256) as u8);
            m.push((i % 256) as u8);
            assert(m@ =~= close_notice_spec(i as int, close as int));
            let ghost mm = m@;
            r.push(CloseNotice { client: i, message: m });
            assert(r@.map_values(|c: CloseNotice| (c.client, c.message@)) =~= before.push((i, mm)));
        } else if i > close {
            let mut m: Vec<u8> = Vec::new();
            m.push(255u8);
            m.push((close % 256) as u8);
            assert(!cuts_to_zero(i as int));
            m.push(((i % 256) as u8) - 1);
            assert(m@ =~= close_notice_spec(i as int, close as int));
            let ghost mm = m@;
            r.push(CloseNotice { client: i, message: m });
            assert(r@.map_values(|c: CloseNotice| (c.client, c.message@)) =~= before.push((i, mm)));
        }
        assert(r@.map_values(|c: CloseNotice| (c.client, c.message@)) =~= close_notices_spec(
            n as int,
            close as int,
        ).take(if i + 1 <= close { i + 1 } else { i as int }));
        i = i + 1;
    }
    assert(close_notices_spec(n as int, close as int).take(n - 1) =~= close_notices_spec(
        n as int,
        close as int,
    ));
    r
}

/// Where the server sends a binary message from a client.
#[derive(PartialEq, Eq, Clone, Copy, Debug, Structural)]
pub enum RelayRoute {
    /// Kind 0: a client that has just connected asks for its id.
    NewClient,
    /// Any other kind: hand the message on to the client with this index.
    Forward(usize),
}

/// A binary message the server can route: it reads the first byte, and the
/// third for a message to hand on.
pub open spec fn routable_spec(input: Seq<u8>) -> bool {
    input.len() >= 1 && (input[0] >= 1 ==> input.len() >= 3)
}

pub open spec fn route_spec(input: Seq<u8>) -> RelayRoute {
    if input[0] == 0 {
        RelayRoute::NewClient
    } else {
        RelayRoute::Forward(input[2] as usize)
    }
}

/// Where the server sends a binary message: its third byte names the
/// client to hand it on to.
pub fn route_binary(input: &Vec<u8>) -> (r: RelayRoute)
    requires
        routable_spec(input@),
    ensures
        r == route_spec(input@),
{
    if input[0] == 0 {
        RelayRoute::NewClient
    } else {
        RelayRoute::Forward(input[2] as usize)
    }
}

/// Whether the server can route a binary message.
pub fn routable(input: &Vec<u8>) -> (r: bool)
    ensures
        r == routable_spec(input@),
{
    input.len() >= 1 && (input[0] < 1 || input.len() >= 3)
}

/// A new client among `n` (at most 256, the new one last) learns the id
/// `n - 1` and is told to offer a connection to every other client, from
/// the highest index down.
pub proof fn law_new_client_learns_others(n: nat)
    requires
        1 <= n <= 256,
    ensures
        signal_well_formed_spec(new_client_message_spec(n)),
        decode_signal_spec(new_client_message_spec(n)) == SignalModel::AssignId(
            (n - 1) as u8,
            Seq::new((n - 1) as nat, |k: int| (n - 2 - k) as u8),
        ),
{
    let m = new_client_message_spec(n);
    assert(m.subrange(2, m.len() as int) =~= Seq::new((n - 1) as nat, |k: int| (n - 2 - k) as u8));
}

/// When a client leaves, every other client (of at most 256) learns which
/// index left and its own place in the shortened list: the clients before
/// it keep their index, the ones after it move down by one.
pub proof fn law_close_notice_tells_new_index(n: int, close: int, i: int)
    requires
        n <= 256,
        0 <= close < n,
        0 <= i < n,
        i != close,
    ensures
        signal_well_formed_spec(close_notice_spec(i, close)),
        decode_signal_spec(close_notice_spec(i, close)) == SignalModel::Close(
            close as u8,
            index_after_close(i, close) as u8,
        ),
        0 <= index_after_close(i, close) < n - 1,
{
}

/// The new indices after a client leaves are all different.
pub proof fn law_close_keeps_indices_distinct(close: int, i: int, j: int)
    requires
        i != close,
        j != close,
        i != j,
    ensures
        index_after_close(i, close) != index_after_close(j, close),
{
}

/// A client's offer, answer or candidate for another client is handed on
/// by the server to that client.
pub proof fn law_signals_routed_to_addressee(kind: u8, from: u8, to: u8, body: Seq<u8>)
    requires
        kind == 1 || kind == 2 || kind == 4,
    ensures
        routable_spec(signal_bytes_spec(kind, from, to, body)),
        route_spec(signal_bytes_spec(kind, from, to, body)) == RelayRoute::Forward(to as usize),
{
}

} // verus!
