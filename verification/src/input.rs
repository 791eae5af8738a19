use vstd::prelude::*;
use crate::ability::AbilityClass;
use crate::buffer::DoubleBuffer;
use crate::direction::Direction;

verus! {

/// The number of keys held at once.
pub const KEY_SLOTS: usize = 16;

/// The first index at which `s` holds `k`, or -1.
pub open spec fn first_index(s: Seq<u8>, k: u8) -> int
    decreases s.len(),
{
    if s.len() == 0 {
        -1
    } else {
        let i = first_index(s.drop_last(), k);
        if i >= 0 {
            i
        } else if s.last() == k {
            s.len() - 1
        } else {
            -1
        }
    }
}

/// Pressing `k`: a key already held changes nothing; otherwise it takes the
/// first free slot (0), if there is one.
pub open spec fn press_spec(s: Seq<u8>, k: u8) -> Seq<u8> {
    if s.contains(k) {
        s
    } else {
        let i = first_index(s, 0);
        if i >= 0 {
            s.update(i, k)
        } else {
            s
        }
    }
}

/// Releasing `k`: the first slot holding it is freed.
pub open spec fn release_spec(s: Seq<u8>, k: u8) -> Seq<u8> {
    let i = first_index(s, k);
    if i >= 0 {
        s.update(i, 0)
    } else {
        s
    }
}

/// An input event: `kind` 0 presses the key `info0`, 5 releases it; the
/// pointer events change no key.
pub open spec fn handle_spec(s: Seq<u8>, kind: u8, info0: u8) -> Seq<u8> {
    if kind == 0 {
        press_spec(s, info0)
    } else if kind == 5 {
        release_spec(s, info0)
    } else {
        s
    }
}

/// The held keys after a run of events, each a kind and a key, in order.
pub open spec fn handle_all(s: Seq<u8>, events: Seq<(u8, u8)>) -> Seq<u8>
    decreases events.len(),
{
    if events.len() == 0 {
        s
    } else {
        handle_spec(handle_all(s, events.drop_last()), events.last().0, events.last().1)
    }
}

/// No key other than the free mark 0 is held in two slots.
pub open spec fn keys_distinct(s: Seq<u8>) -> bool {
    forall|i: int, j: int|
        0 <= i < s.len() && 0 <= j < s.len() && i != j && s[i] != 0 ==> #[trigger] s[i]
            != #[trigger] s[j]
}

/// The keys held down, one per slot, 0 for a free slot.
pub struct PressedKeys {
    keys: Vec<u8>,
}

impl PressedKeys {
    /// Every slot is there.
    pub closed spec fn wf(self) -> bool {
        self.keys@.len() == KEY_SLOTS
    }

    /// The slots.
    pub closed spec fn slots(self) -> Seq<u8> {
        self.keys@
    }

    /// No key held.
    pub fn new() -> (r: PressedKeys)
        ensures
            r.wf(),
            r.slots() == Seq::new(16, |i: int| 0u8),
    {
        let mut keys: Vec<u8> = Vec::new();
        let mut i: usize = 0;
        while i < KEY_SLOTS
            invariant
                i <= KEY_SLOTS,
                keys@ == Seq::new(i as nat, |j: int| 0u8),
            decreases KEY_SLOTS - i,
        {
            keys.push(0);
            i = i + 1;
        }
        assert(keys@ =~= Seq::new(16, |j: int| 0u8));
        PressedKeys { keys }
    }

    fn find(&self, k: u8) -> (r: Option<usize>)
        ensures
            match r {
                Some(i) => first_index(self.slots(), k) == i,
                None => first_index(self.slots(), k) == -1,
            },
    {
        let n = self.keys.len();
        let mut i: usize = 0;
        while i < n
            invariant
                n == self.keys@.len(),
                0 <= i <= n,
                first_index(self.keys@.take(i as int), k) == -1,
            decreases n - i,
        {
            assert(self.keys@.take(i + 1).drop_last() =~= self.keys@.take(i as int));
            if self.keys[i] == k {
                proof {
                    lemma_first_index_prefix(self.keys@, k, i as int + 1);
                }
                return Some(i);
            }
            i = i + 1;
        }
        assert(self.keys@.take(n as int) =~= self.keys@);
        None
    }

    /// Whether `k` is held (a free slot holds 0).
    pub fn holds(&self, k: u8) -> (r: bool)
        ensures
            r == self.slots().contains(k),
    {
        let r = self.find(k);
        proof {
            lemma_first_index_contains(self.slots(), k);
        }
        r.is_some()
    }

    /// Presses `k`.
    pub fn press(&mut self, k: u8)
        requires
            old(self).wf(),
        ensures
            final(self).wf(),
            final(self).slots() == press_spec(old(self).slots(), k),
    {
        if self.holds(k) {
            return ;
        }
        match self.find(0) {
            Some(i) => {
                proof {
                    lemma_first_index_bounds(self.keys@, 0u8);
                }
                self.keys.set(i, k);
            },
            None => {},
        }
    }

    /// Releases `k`.
    pub fn release(&mut self, k: u8)
        requires
            old(self).wf(),
        ensures
            final(self).wf(),
            final(self).slots() == release_spec(old(self).slots(), k),
    {
        match self.find(k) {
            Some(i) => {
                proof {
                    lemma_first_index_bounds(self.keys@, k);
                }
                self.keys.set(i, 0);
            },
            None => {},
        }
    }

    /// Applies an input event of the given kind to the held keys.
    pub fn handle_event(&mut self, kind: u8, info0: u8)
        requires
            old(self).wf(),
        ensures
            final(self).wf(),
            final(self).slots() == handle_spec(old(self).slots(), kind, info0),
    {
        if kind == 0 {
            self.press(info0);
        } else if kind == 5 {
            self.release(info0);
        }
    }

    /// The action of each slot, in slot order.
    pub fn actions(&self) -> (r: Vec<KeyAction>)
        ensures
            r@ == self.slots().map_values(|k: u8| key_action_spec(k)),
    {
        let mut r: Vec<KeyAction> = Vec::new();
        let n = self.keys.len();
        let mut i: usize = 0;
        while i < n
            invariant
                n == self.keys@.len(),
                0 <= i <= n,
                r@ == self.keys@.take(i as int).map_values(|k: u8| key_action_spec(k)),
            decreases n - i,
        {
            r.push(key_action(self.keys[i]));
            assert(self.keys@.take(i + 1).map_values(|k: u8| key_action_spec(k)) =~= r@);
            i = i + 1;
        }
        assert(self.keys@.take(n as int) =~= self.keys@);
        r
    }
}

/// One input turn: the events queued since the last turn (each a kind and
/// a key) are taken, leaving the queue empty and its other side active;
/// they are applied to the held keys in order; and the action of each slot
/// is handed out, in slot order.
pub fn detect_input(events: &mut DoubleBuffer<(u8, u8)>, keys: &mut PressedKeys) -> (r: Vec<
    KeyAction,
>)
    requires
        old(events).wf(),
        old(keys).wf(),
    ensures
        final(events).wf(),
        final(events).pending() == Seq::<(u8, u8)>::empty(),
        final(events).side() == 1 - old(events).side(),
        final(keys).wf(),
        final(keys).slots() == handle_all(old(keys).slots(), old(events).pending()),
        r@ == final(keys).slots().map_values(|k: u8| key_action_spec(k)),
{
    let taken = events.take_pending();
    let n = taken.len();
    let mut i: usize = 0;
    while i < n
        invariant
            n == taken@.len(),
            0 <= i <= n,
            keys.wf(),
            keys.slots() == handle_all(old(keys).slots(), taken@.take(i as int)),
        decreases n - i,
    {
        let (kind, info0) = taken[i];
        keys.handle_event(kind, info0);
        assert(taken@.take(i + 1).drop_last() =~= taken@.take(i as int));
        i = i + 1;
    }
    assert(taken@.take(n as int) =~= taken@);
    keys.actions()
}

proof fn lemma_first_index_bounds(s: Seq<u8>, k: u8)
    ensures
        -1 <= first_index(s, k) < s.len(),
        first_index(s, k) >= 0 ==> s[first_index(s, k)] == k,
        first_index(s, k) >= 0 ==> forall|j: int| 0 <= j < first_index(s, k) ==> s[j] != k,
        first_index(s, k) == -1 ==> forall|j: int| 0 <= j < s.len() ==> s[j] != k,
    decreases s.len(),
{
    if s.len() > 0 {
        let d = s.drop_last();
        lemma_first_index_bounds(d, k);
        assert forall|j: int| 0 <= j < d.len() implies d[j] == s[j] by {}
        let i = first_index(s, k);
        if i >= 0 {
            assert forall|j: int| 0 <= j < i implies s[j] != k by {
                assert(d[j] == s[j]);
            }
        } else {
            assert forall|j: int| 0 <= j < s.len() implies s[j] != k by {
                if j < d.len() {
                    assert(d[j] == s[j]);
                }
            }
        }
    }
}

proof fn lemma_first_index_contains(s: Seq<u8>, k: u8)
    ensures
        (first_index(s, k) >= 0) == s.contains(k),
{
    lemma_first_index_bounds(s, k);
    if s.contains(k) {
        let j = choose|j: int| 0 <= j < s.len() && s[j] == k;
        assert(s[j] == k);
    }
}

proof fn lemma_first_index_prefix(s: Seq<u8>, k: u8, n: int)
    requires
        0 < n <= s.len(),
        first_index(s.take(n - 1), k) == -1,
        s[n - 1] == k,
    ensures
        first_index(s, k) == n - 1,
    decreases s.len() - n,
{
    if n == s.len() {
        assert(s.take(n - 1) =~= s.drop_last());
    } else {
        assert(s.drop_last().take(n - 1) =~= s.take(n - 1));
        lemma_first_index_prefix(s.drop_last(), k, n);
    }
}

/// What the game does for a held key.
#[derive(PartialEq, Eq, Clone, Copy, Debug, Structural)]
pub enum KeyAction {
    /// A free slot.
    Nothing,
    /// Push the player in a direction.
    Move(Direction),
    /// Ask for the player's next ability.
    Activate(AbilityClass),
    /// A key without a binding, which is logged.
    Unbound(u8),
}

/// The key bindings: A, S, D and W move, E asks for a normal ability.
pub open spec fn key_action_spec(id: u8) -> KeyAction {
    if id == 0 {
        KeyAction::Nothing
    } else if id == 65 {
        KeyAction::Move(Direction::West)
    } else if id == 83 {
        KeyAction::Move(Direction::South)
    } else if id == 68 {
        KeyAction::Move(Direction::East)
    } else if id == 87 {
        KeyAction::Move(Direction::North)
    } else if id == 69 {
        KeyAction::Activate(AbilityClass::Normal)
    } else {
        KeyAction::Unbound(id)
    }
}

/// The action bound to a key code.
pub fn key_action(id: u8) -> (r: KeyAction)
    ensures
        r == key_action_spec(id),
{
    match id {
        0 => KeyAction::Nothing,
        65 => KeyAction::Move(Direction::West),
        83 => KeyAction::Move(Direction::South),
        68 => KeyAction::Move(Direction::East),
        87 => KeyAction::Move(Direction::North),
        69 => KeyAction::Activate(AbilityClass::Normal),
        key => KeyAction::Unbound(key),
    }
}

/// Pressing a key that is not held, with a slot free, and releasing it
/// again leaves the held keys as they were.
pub proof fn law_press_then_release_restores(s: Seq<u8>, k: u8)
    requires
        k != 0,
        !s.contains(k),
        s.contains(0u8),
    ensures
        release_spec(press_spec(s, k), k) == s,
{
    lemma_first_index_contains(s, 0u8);
    lemma_first_index_bounds(s, 0u8);
    let i = first_index(s, 0u8);
    let t = s.update(i, k);
    lemma_first_index_bounds(t, k);
    let j = first_index(t, k);
    assert(t[i] == k);
    assert(j == i) by {
        if j < 0 {
            assert(t[i] != k);
        } else if j < i {
            assert(t[j] == s[j]);
        } else if j > i {
        }
    }
    assert(t.update(i, 0) =~= s);
}

/// Every key event keeps the held keys free of duplicates.
pub proof fn law_events_keep_keys_distinct(s: Seq<u8>, kind: u8, info0: u8)
    requires
        keys_distinct(s),
    ensures
        keys_distinct(handle_spec(s, kind, info0)),
{
    let t = handle_spec(s, kind, info0);
    if kind == 0 {
        if !s.contains(info0) {
            lemma_first_index_bounds(s, 0u8);
            let i = first_index(s, 0u8);
            if i >= 0 {
                assert forall|a: int, b: int|
                    0 <= a < t.len() && 0 <= b < t.len() && a != b && t[a] != 0 implies #[trigger] t[a]
                    != #[trigger] t[b] by {
                    if a == i {
                        assert(t[b] == s[b] || b == i);
                    } else if b == i {
                        assert(t[a] == s[a]);
                    }
                }
            }
        }
    } else if kind == 5 {
        lemma_first_index_bounds(s, info0);
    }
}

/// A whole input turn keeps the held keys free of duplicates.
pub proof fn law_turn_keeps_keys_distinct(s: Seq<u8>, events: Seq<(u8, u8)>)
    requires
        keys_distinct(s),
    ensures
        keys_distinct(handle_all(s, events)),
    decreases events.len(),
{
    if events.len() > 0 {
        law_turn_keeps_keys_distinct(s, events.drop_last());
        law_events_keep_keys_distinct(
            handle_all(s, events.drop_last()),
            events.last().0,
            events.last().1,
        );
    }
}

/// With no duplicates, releasing a key leaves it no longer held.
pub proof fn law_release_frees_key(s: Seq<u8>, k: u8)
    requires
        keys_distinct(s),
        k != 0,
    ensures
        !release_spec(s, k).contains(k),
{
    lemma_first_index_bounds(s, k);
    let t = release_spec(s, k);
    let i = first_index(s, k);
    if t.contains(k) {
        let j = choose|j: int| 0 <= j < t.len() && t[j] == k;
        if i >= 0 {
            assert(j != i);
            assert(s[i] == k && s[j] == k);
        }
    }
}

/// Pressing a key that is not held, while a slot is free, leaves it held.
pub proof fn law_press_holds_key(s: Seq<u8>, k: u8)
    requires
        s.contains(0u8),
    ensures
        press_spec(s, k).contains(k),
{
    lemma_first_index_contains(s, 0u8);
    lemma_first_index_bounds(s, 0u8);
    if !s.contains(k) {
        let i = first_index(s, 0u8);
        assert(s.update(i, k)[i] == k);
    }
}

} // verus!
