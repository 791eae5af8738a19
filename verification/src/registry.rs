use vstd::prelude::*;
use std::collections::HashMap;
use crate::relay::{
    CloseNotice, close_notices, close_notices_spec, cuts_to_zero, new_client_message, new_client_message_spec,
};

verus! {

broadcast use vstd::std_specs::hash::group_hash_axioms;

/// The relay server's book of connected clients: their ids (a UUID as a
/// number) in the order they joined, and the id at each client index.
pub struct Registry {
    pub ids: Vec<u128>,
    pub index: HashMap<usize, u128>,
}

/// The first position of `x` in `s`, or -1.
pub open spec fn position_of(s: Seq<u128>, x: u128) -> int
    decreases s.len(),
{
    if s.len() == 0 {
        -1
    } else {
        let i = position_of(s.drop_last(), x);
        if i >= 0 {
            i
        } else if s.last() == x {
            s.len() - 1
        } else {
            -1
        }
    }
}

/// The index map after the clients at `lo` up to `hi` (exclusive) each move
/// down by one, in that order; `None` where an index has no entry.
pub open spec fn shift_down(m: Map<usize, u128>, lo: int, hi: int) -> Option<Map<usize, u128>>
    decreases hi - lo,
{
    if lo >= hi {
        Some(m)
    } else if !m.contains_key(lo as usize) {
        None
    } else {
        shift_down(m.remove(lo as usize).insert((lo - 1) as usize, m[lo as usize]), lo + 1, hi)
    }
}

/// The registry after the client `close_id` leaves, and the notice each
/// other client gets, by id; `None` where the server panics: the id is not
/// registered, an index after it has no entry, or one cuts to 0 in a byte.
pub open spec fn close_spec(ids: Seq<u128>, m: Map<usize, u128>, close_id: u128) -> Option<
    (Seq<u128>, Map<usize, u128>, Seq<(u128, Seq<u8>)>),
> {
    let c = position_of(ids, close_id);
    let n = ids.len() as int;
    if c < 0 || exists|i: int| c < i < n && #[trigger] cuts_to_zero(i) {
        None
    } else {
        match shift_down(m, c + 1, n) {
            None => None,
            Some(m2) => Some(
                (
                    ids.remove(c),
                    m2,
                    close_notices_spec(n, c).map_values(
                        |p: (usize, Seq<u8>)| (ids[p.0 as int], p.1),
                    ),
                ),
            ),
        }
    }
}

proof fn lemma_position_of(s: Seq<u128>, x: u128)
    ensures
        -1 <= position_of(s, x) < s.len(),
        position_of(s, x) >= 0 ==> s[position_of(s, x)] == x,
        forall|j: int|
            0 <= j < s.len() && (position_of(s, x) < 0 || j < position_of(s, x)) ==> s[j] != x,
    decreases s.len(),
{
    if s.len() > 0 {
        let d = s.drop_last();
        lemma_position_of(d, x);
        assert forall|j: int| 0 <= j < d.len() implies d[j] == s[j] by {}
    }
}

proof fn lemma_position_at(s: Seq<u128>, x: u128, k: int)
    requires
        0 <= k < s.len(),
        s[k] == x,
        forall|j: int| 0 <= j < k ==> s[j] != x,
    ensures
        position_of(s, x) == k,
    decreases s.len(),
{
    let d = s.drop_last();
    if k < s.len() - 1 {
        assert forall|j: int| 0 <= j < k implies d[j] != x by {
            assert(d[j] == s[j]);
        }
        lemma_position_at(d, x, k);
    } else {
        lemma_position_of(d, x);
        assert forall|j: int| 0 <= j < d.len() implies d[j] != x by {
            assert(d[j] == s[j]);
        }
    }
}

impl Registry {
    /// No client.
    pub fn new() -> (r: Registry)
        ensures
            r.ids@ == Seq::<u128>::empty(),
            r.index@ == Map::<usize, u128>::empty(),
    {
        Registry { ids: Vec::new(), index: HashMap::new() }
    }

    /// The index a client that connects now is given: the number of
    /// clients registered.
    pub fn next_index(&self) -> (r: usize)
        ensures
            r == self.ids@.len(),
    {
        self.ids.len()
    }

    /// Registers a client under the index it was given when it connected.
    pub fn join(&mut self, index: usize, id: u128)
        ensures
            final(self).ids@ == old(self).ids@.push(id),
            final(self).index@ == old(self).index@.insert(index, id),
    {
        self.index.insert(index, id);
        self.ids.push(id);
    }

    /// The message that tells a new client its id and whom to offer a
    /// connection to.
    pub fn new_client_message(&self) -> (r: Vec<u8>)
        ensures
            r@ == new_client_message_spec(self.ids@.len()),
    {
        new_client_message(self.ids.len())
    }

    /// The id of the client a message is handed on to.
    pub fn route(&self, dest: usize) -> (r: Option<u128>)
        ensures
            match r {
                Some(id) => self.index@.contains_key(dest) && self.index@[dest] == id,
                None => !self.index@.contains_key(dest),
            },
    {
        match self.index.get(&dest) {
            Some(id) => Some(*id),
            None => None,
        }
    }

    /// Forgets the client `close_id`: every other client is told which
    /// index left and its own new index; the clients after it move down by
    /// one in the index map. `None`, with the registry unchanged, where the
    /// server panics.
    pub fn close(&mut self, close_id: u128) -> (r: Option<Vec<(u128, Vec<u8>)>>)
        ensures
            match close_spec(old(self).ids@, old(self).index@, close_id) {
                Some((ids, m, notices)) => match r {
                    Some(v) => {
                        &&& final(self).ids@ == ids
                        &&& final(self).index@ == m
                        &&& v@.map_values(|p: (u128, Vec<u8>)| (p.0, p.1@)) == notices
                    },
                    None => false,
                },
                None => r is None && final(self).ids@ == old(self).ids@ && final(self).index@
                    == old(self).index@,
            },
    {
        let ghost ids0 = self.ids@;
        let ghost m0 = self.index@;
        proof {
            lemma_position_of(ids0, close_id);
        }
        let n = self.ids.len();
        let mut c: usize = 0;
        while c < n && self.ids[c] != close_id
            invariant
                n == self.ids@.len(),
                self.ids@ == ids0,
                0 <= c <= n,
                forall|j: int| 0 <= j < c ==> ids0[j] != close_id,
            decreases n - c,
        {
            c = c + 1;
        }
        if c == n {
            assert(position_of(ids0, close_id) < 0) by {
                if position_of(ids0, close_id) >= 0 {
                    assert(ids0[position_of(ids0, close_id)] == close_id);
                }
            }
            return None;
        }
        proof {
            lemma_position_at(ids0, close_id, c as int);
        }
        let mut k: usize = c + 1;
        while k < n
            invariant
                n == ids0.len(),
                self.ids@ == ids0,
                self.index@ == m0,
                position_of(ids0, close_id) == c,
                c < n,
                c + 1 <= k <= n,
                forall|i: int| c < i < k ==> !#[trigger] cuts_to_zero(i),
            decreases n - k,
        {
            if k % 256 == 0 {
                assert(cuts_to_zero(k as int));
                assert(exists|i: int| c < i < ids0.len() && #[trigger] cuts_to_zero(i));
                return None;
            }
            k = k + 1;
        }
        let mut j: usize = c + 1;
        while j < n
            invariant
                n == ids0.len(),
                self.ids@ == ids0,
                self.index@ == m0,
                position_of(ids0, close_id) == c,
                forall|i: int| c < i < n ==> !#[trigger] cuts_to_zero(i),
                c + 1 <= j <= n,
                forall|i: int| c < i < j ==> #[trigger] m0.contains_key(i as usize),
            decreases n - j,
        {
            if !self.index.contains_key(&j) {
                proof {
                    lemma_shift_down_needs_keys(m0, c + 1, n as int, j as int);
                }
                return None;
            }
            j = j + 1;
        }
        proof {
            lemma_shift_down_needs_keys(m0, c + 1, n as int, n as int);
        }
        let mut k: usize = c + 1;
        while k < n
            invariant
                n == ids0.len(),
                self.ids@ == ids0,
                c + 1 <= k <= n,
                shift_down(self.index@, k as int, n as int) == shift_down(m0, c + 1, n as int),
                forall|i: int| k <= i < n ==> #[trigger] self.index@.contains_key(i as usize),
            decreases n - k,
        {
            let ghost cur = self.index@;
            let prev = self.index.remove(&k);
            match prev {
                Some(id) => {
                    self.index.insert(k - 1, id);
                    assert(self.index@ == cur.remove(k).insert((k - 1) as usize, cur[k]));
                },
                None => {
                    assert(false);
                },
            }
            k = k + 1;
        }
        let notices = close_notices(n, c);
        let mut v: Vec<(u128, Vec<u8>)> = Vec::new();
        let mut t: usize = 0;
        let ghost want = close_notices_spec(n as int, c as int);
        while t < notices.len()
            invariant
                ids0 == self.ids@,
                n == ids0.len(),
                c < n,
                notices@.map_values(|q: CloseNotice| (q.client, q.message@)) == want,
                want == close_notices_spec(n as int, c as int),
                0 <= t <= notices@.len(),
                v@.map_values(|p: (u128, Vec<u8>)| (p.0, p.1@)) == want.take(t as int).map_values(
                    |p: (usize, Seq<u8>)| (ids0[p.0 as int], p.1),
                ),
            decreases notices@.len() - t,
        {
            let q = &notices[t];
            assert(want[t as int] == (q.client, q.message@));
            let client = q.client;
            assert(notices@.map_values(|q: CloseNotice| (q.client, q.message@)).len() == notices@.len());
            assert(want.len() == n - 1);
            assert(client as int == if t < c { t as int } else { t + 1 });
            assert(client < n);
            let id = self.ids[client];
            let msg = q.message.clone();
            assert(msg@ == q.message@);
            let ghost before = v@;
            v.push((id, msg));
            assert(v@ == before.push((id, msg)));
            assert(want.take(t + 1) =~= want.take(t as int).push(want[t as int]));
            assert(before.push((id, msg)).map_values(|p: (u128, Vec<u8>)| (p.0, p.1@))
                =~= before.map_values(|p: (u128, Vec<u8>)| (p.0, p.1@)).push((id, msg@)));
            assert(want.take(t as int).push(want[t as int]).map_values(
                |p: (usize, Seq<u8>)| (ids0[p.0 as int], p.1),
            ) =~= want.take(t as int).map_values(|p: (usize, Seq<u8>)| (ids0[p.0 as int], p.1)).push(
                (ids0[client as int], q.message@),
            ));
            assert(v@.map_values(|p: (u128, Vec<u8>)| (p.0, p.1@)) =~= want.take(t + 1).map_values(
                |p: (usize, Seq<u8>)| (ids0[p.0 as int], p.1),
            ));
            t = t + 1;
        }
        assert(want.take(notices@.len() as int) =~= want);
        self.ids.remove(c);
        Some(v)
    }
}

proof fn lemma_shift_down_needs_keys(m: Map<usize, u128>, lo: int, hi: int, j: int)
    requires
        1 <= lo <= j <= hi,
        hi <= usize::MAX,
        forall|i: int| lo <= i < j ==> #[trigger] m.contains_key(i as usize),
    ensures
        j < hi && !m.contains_key(j as usize) ==> shift_down(m, lo, hi) is None,
        j == hi ==> shift_down(m, lo, hi) is Some,
    decreases hi - lo,
{
    if lo < hi && lo < j {
        let m2 = m.remove(lo as usize).insert((lo - 1) as usize, m[lo as usize]);
        assert forall|i: int| lo + 1 <= i < j implies #[trigger] m2.contains_key(i as usize) by {
            assert(m.contains_key(i as usize));
        }
        assert(j < hi && !m.contains_key(j as usize) ==> !m2.contains_key(j as usize));
        lemma_shift_down_needs_keys(m2, lo + 1, hi, j);
    }
}

#[verifier::spinoff_prover]
#[verifier::rlimit(30)]
proof fn lemma_shift_down(m: Map<usize, u128>, lo: int, hi: int)
    requires
        1 <= lo <= hi <= usize::MAX,
        forall|i: int| lo <= i < hi ==> #[trigger] m.contains_key(i as usize),
    ensures
        shift_down(m, lo, hi) is Some,
        lo == hi ==> shift_down(m, lo, hi)->0 == m,
        lo < hi ==> !shift_down(m, lo, hi)->0.contains_key((hi - 1) as usize),
        forall|k: usize|
            lo - 1 <= k < hi - 1 ==> #[trigger] shift_down(m, lo, hi)->0.contains_key(k)
                && shift_down(m, lo, hi)->0[k] == m[(k + 1) as usize],
        forall|k: usize|
            (k < lo - 1 || k >= hi) ==> (#[trigger] shift_down(m, lo, hi)->0.contains_key(k)
                == m.contains_key(k) && (m.contains_key(k) ==> shift_down(m, lo, hi)->0[k] == m[k])),
    decreases hi - lo,
{
    if lo < hi {
        let m2 = m.remove(lo as usize).insert((lo - 1) as usize, m[lo as usize]);
        assert forall|i: int| lo + 1 <= i < hi implies #[trigger] m2.contains_key(i as usize) by {
            assert(m.contains_key(i as usize));
        }
        lemma_shift_down(m2, lo + 1, hi);
        let r = shift_down(m2, lo + 1, hi)->0;
        assert(shift_down(m, lo, hi) == shift_down(m2, lo + 1, hi));
        assert forall|k: usize| lo - 1 <= k < hi - 1 implies #[trigger] r.contains_key(k) && r[k]
            == m[(k + 1) as usize] by {
            if k == lo - 1 {
                assert(k < lo);
                assert(r.contains_key(k) == m2.contains_key(k));
                assert(m2.contains_key(k));
                assert(m2[k] == m[lo as usize]);
                assert((k + 1) as usize == lo as usize);
            } else {
                assert(lo <= k < hi - 1);
                assert(r.contains_key(k));
                assert(r[k] == m2[(k + 1) as usize]);
                assert((k + 1) as usize != lo as usize);
                assert((k + 1) as usize != (lo - 1) as usize);
                assert(m2[(k + 1) as usize] == m[(k + 1) as usize]);
            }
        }
        assert forall|k: usize| (k < lo - 1 || k >= hi) implies (#[trigger] r.contains_key(k)
            == m.contains_key(k) && (m.contains_key(k) ==> r[k] == m[k])) by {
            assert(k < lo || k >= hi);
            assert(r.contains_key(k) == m2.contains_key(k));
            assert(k != lo as usize);
            assert(k != (lo - 1) as usize);
            assert(m2.contains_key(k) == m.contains_key(k));
            if m.contains_key(k) {
                assert(r[k] == m2[k]);
                assert(m2[k] == m[k]);
            }
        }
        assert(shift_down(m, lo, hi)->0 == r);
    } else {
        assert(shift_down(m, lo, hi) == Some(m));
    }
}

/// The index map agrees with the list of clients: the client at each index
/// is found under that index.
pub open spec fn routes_agree(ids: Seq<u128>, m: Map<usize, u128>) -> bool {
    forall|k: usize| (k as int) < ids.len() ==> #[trigger] m.contains_key(k) && m[k] == ids[k as int]
}

/// When a client leaves a registry whose index map agrees with its list,
/// the map still agrees with the shortened list, and the client now at
/// index `k` is the one told that index (cut to a byte).
#[verifier::spinoff_prover]
#[verifier::rlimit(30)]
pub proof fn law_close_keeps_routes(ids: Seq<u128>, m: Map<usize, u128>, close_id: u128)
    requires
        ids.len() <= usize::MAX,
        routes_agree(ids, m),
        close_spec(ids, m, close_id) is Some,
    ensures
        ({
            let (ids2, m2, notices) = close_spec(ids, m, close_id)->0;
            let c = position_of(ids, close_id);
            &&& ids2.len() == ids.len() - 1
            &&& routes_agree(ids2, m2)
            &&& notices.len() == ids2.len()
            &&& forall|k: int|
                0 <= k < notices.len() ==> #[trigger] notices[k].0 == ids2[k] && notices[k].1 == seq![
                    255u8,
                    (c % 256) as u8,
                    (k % 256) as u8,
                ]
        }),
{
    let n = ids.len() as int;
    let c = position_of(ids, close_id);
    lemma_position_of(ids, close_id);
    assert forall|i: int| c + 1 <= i < n implies #[trigger] m.contains_key(i as usize) by {
        let k = i as usize;
        assert(m.contains_key(k));
    }
    lemma_shift_down(m, c + 1, n);
    let (ids2, m2, notices) = close_spec(ids, m, close_id)->0;
    assert(m2 == shift_down(m, c + 1, n)->0);
    assert(ids2 == ids.remove(c));
    assert forall|k: usize| (k as int) < ids2.len() implies #[trigger] m2.contains_key(k) && m2[k]
        == ids2[k as int] by {
        if (k as int) < c {
            assert((k as int) < ids.len());
            assert(m.contains_key(k));
            assert(m[k] == ids[k as int]);
            assert(m2.contains_key(k) == m.contains_key(k));
            assert(m2[k] == m[k]);
            assert(ids2[k as int] == ids[k as int]);
        } else {
            let k1 = (k + 1) as usize;
            assert((k1 as int) < ids.len());
            assert(m.contains_key(k1));
            assert(m[k1] == ids[k1 as int]);
            assert(m2.contains_key(k));
            assert(m2[k] == m[k1]);
            assert(ids2[k as int] == ids[k + 1]);
        }
    }
    assert forall|k: int| 0 <= k < notices.len() implies #[trigger] notices[k].0 == ids2[k]
        && notices[k].1 == seq![255u8, (c % 256) as u8, (k % 256) as u8] by {
        let i = if k < c { k } else { k + 1 };
        if k >= c {
            assert(!cuts_to_zero(i));
        }
    }
}

/// A client that joins under the index the registry gives it keeps the
/// index map in agreement with the list of clients.
pub proof fn law_join_keeps_routes(ids: Seq<u128>, m: Map<usize, u128>, id: u128)
    requires
        ids.len() < usize::MAX,
        routes_agree(ids, m),
    ensures
        routes_agree(ids.push(id), m.insert(ids.len() as usize, id)),
{
    let ids2 = ids.push(id);
    let m2 = m.insert(ids.len() as usize, id);
    assert forall|k: usize| (k as int) < ids2.len() implies #[trigger] m2.contains_key(k) && m2[k]
        == ids2[k as int] by {
        if (k as int) < ids.len() {
            assert(m.contains_key(k));
            assert(m[k] == ids[k as int]);
        }
    }
}

} // verus!
