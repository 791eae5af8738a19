use vstd::prelude::*;
use crate::lanes::replace_lane;

verus! {

/// The number of position slots the screen hands out.
pub const X_SLOTS: usize = 256;

/// How an animated element cycles through its textures.
#[derive(PartialEq, Eq, Clone, Copy, Debug, Structural)]
pub enum CycleState {
    Bounce,
    Cycle,
    /// The final frame is held.
    Flash,
    /// The final frame is held and the texture hidden.
    Blink,
    Idle,
}

/// The shared store of element positions: four lanes per slot, and the next
/// slot to hand out.
pub struct XStore {
    pub xs: Vec<[u16; 4]>,
    pub next: usize,
}

/// A drawn element: how many it stands for, its texture, the slot of its
/// positions in the store, and its sizes and visibility by lane.
pub struct Element {
    pub s: u32,
    pub t: u32,
    pub x: usize,
    pub y: Vec<[u16; 4]>,
    pub w: Vec<[u16; 4]>,
    pub h: Vec<[u16; 4]>,
    pub v: Vec<[bool; 4]>,
}

/// What is sent to the page for one element: its count, its texture, and
/// where its positions are kept.
#[derive(PartialEq, Eq, Clone, Copy, Debug, Structural)]
pub struct ElementDto {
    pub s: u32,
    pub t: u32,
    pub x: usize,
}

/// The movement of an element class: its textures, how it cycles, and the
/// pending moves of its elements, sixteen to a row.
pub struct Dynamic {
    pub t: Vec<u16>,
    pub c: CycleState,
    pub dx: Vec<[u16; 4]>,
    pub dy: Vec<[u16; 4]>,
}

/// One layer of the screen.
pub struct Layer {
    pub element: Vec<Element>,
    pub dynamic: Vec<Option<Dynamic>>,
}

/// The screen: four layers, back to front.
pub struct Screen {
    pub layer: [Layer; 4],
}

/// Every lane of `a` moved up by `d`, wrapping past the largest `u16`.
pub open spec fn lanes_plus(a: Seq<u16>, d: u16) -> Seq<u16> {
    Seq::new(4, |i: int| ((a[i] + d) % 65536) as u16)
}

/// What the page gets for the elements of a layer.
pub open spec fn dtos_of(es: Seq<Element>) -> Seq<ElementDto> {
    es.map_values(|e: Element| ElementDto { s: e.s, t: e.t, x: e.x })
}

impl XStore {
    /// Every slot at 0, none handed out.
    pub fn new() -> (r: XStore)
        ensures
            r.xs@.len() == X_SLOTS,
            forall|i: int| 0 <= i < X_SLOTS ==> #[trigger] r.xs@[i]@ == seq![0u16, 0u16, 0u16, 0u16],
            r.next == 0,
    {
        let mut xs: Vec<[u16; 4]> = Vec::new();
        let mut i: usize = 0;
        while i < X_SLOTS
            invariant
                i <= X_SLOTS,
                xs@.len() == i,
                forall|j: int| 0 <= j < i ==> #[trigger] xs@[j]@ == seq![0u16, 0u16, 0u16, 0u16],
            decreases X_SLOTS - i,
        {
            let z: [u16; 4] = [0, 0, 0, 0];
            assert(z@ =~= seq![0u16, 0u16, 0u16, 0u16]);
            xs.push(z);
            i = i + 1;
        }
        XStore { xs, next: 0 }
    }
}

impl Screen {
    /// A screen whose back layer holds one element, at the next free slot
    /// of the store; the other layers are empty.
    pub fn new(store: &mut XStore) -> (r: Screen)
        requires
            old(store).next < X_SLOTS,
        ensures
            final(store).next == old(store).next + 1,
            final(store).xs == old(store).xs,
            r.layer[0].element@.len() == 1,
            r.layer[0].element@[0].s == 1,
            r.layer[0].element@[0].t == 1,
            r.layer[0].element@[0].x == old(store).next,
            r.layer[0].element@[0].y@.len() == 1,
            r.layer[0].element@[0].y@[0]@ == seq![2u16, 2u16, 2u16, 2u16],
            r.layer[0].element@[0].w@.len() == 1,
            r.layer[0].element@[0].w@[0]@ == seq![2u16, 2u16, 2u16, 2u16],
            r.layer[0].element@[0].h@.len() == 1,
            r.layer[0].element@[0].h@[0]@ == seq![2u16, 2u16, 2u16, 2u16],
            r.layer[0].element@[0].v@.len() == 1,
            r.layer[0].element@[0].v@[0]@ == seq![true, true, true, true],
            r.layer[0].dynamic@.len() == 0,
            forall|k: int| 1 <= k < 4 ==> #[trigger] r.layer[k].element@.len() == 0
                && r.layer[k].dynamic@.len() == 0,
    {
        let first = store.next;
        store.next = store.next + 1;
        let twos: [u16; 4] = [2, 2, 2, 2];
        let shown: [bool; 4] = [true, true, true, true];
        assert(twos@ =~= seq![2u16, 2u16, 2u16, 2u16]);
        assert(shown@ =~= seq![true, true, true, true]);
        let mut y: Vec<[u16; 4]> = Vec::new();
        y.push(twos);
        let mut w: Vec<[u16; 4]> = Vec::new();
        w.push(twos);
        let mut h: Vec<[u16; 4]> = Vec::new();
        h.push(twos);
        let mut v: Vec<[bool; 4]> = Vec::new();
        v.push(shown);
        let mut element: Vec<Element> = Vec::new();
        element.push(Element { s: 1, t: 1, x: first, y, w, h, v });
        Screen {
            layer: [
                Layer { element, dynamic: Vec::new() },
                Layer { element: Vec::new(), dynamic: Vec::new() },
                Layer { element: Vec::new(), dynamic: Vec::new() },
                Layer { element: Vec::new(), dynamic: Vec::new() },
            ],
        }
    }

    /// Moves the first element of layer `index` two steps on every lane,
    /// and gives what the page gets for each element of that layer.
    pub fn elements(&self, index: usize, store: &mut XStore) -> (r: Vec<ElementDto>)
        requires
            index < 4,
            self.layer[index as int].element@.len() > 0,
            self.layer[index as int].element@[0].x < old(store).xs@.len(),
        ensures
            ({
                let x = self.layer[index as int].element@[0].x as int;
                &&& final(store).next == old(store).next
                &&& final(store).xs@.len() == old(store).xs@.len()
                &&& final(store).xs@[x]@ == lanes_plus(old(store).xs@[x]@, 2)
                &&& forall|j: int|
                    0 <= j < old(store).xs@.len() && j != x ==> #[trigger] final(store).xs@[j]
                        == old(store).xs@[j]
            }),
            r@ == dtos_of(self.layer[index as int].element@),
    {
        let layer = &self.layer[index];
        let x = layer.element[0].x;
        let a = store.xs[x];
        let moved: [u16; 4] = [
            a[0].wrapping_add(2),
            a[1].wrapping_add(2),
            a[2].wrapping_add(2),
            a[3].wrapping_add(2),
        ];
        assert(moved@ =~= lanes_plus(a@, 2));
        store.xs.set(x, moved);
        let mut r: Vec<ElementDto> = Vec::new();
        let n = layer.element.len();
        let mut k: usize = 0;
        while k < n
            invariant
                n == layer.element@.len(),
                0 <= k <= n,
                r@ == dtos_of(layer.element@.take(k as int)),
            decreases n - k,
        {
            let e = &layer.element[k];
            r.push(ElementDto { s: e.s, t: e.t, x: e.x });
            assert(r@ =~= dtos_of(layer.element@.take(k + 1)));
            k = k + 1;
        }
        assert(layer.element@.take(n as int) =~= layer.element@);
        r
    }
}

impl Dynamic {
    /// Adds a move to the pending moves of element `index`: row
    /// `index / 16`, lane `index % 16`.
    pub fn mv(&mut self, index: usize, dx: u16, dy: u16)
        requires
            index / 16 < old(self).dx@.len(),
            index / 16 < old(self).dy@.len(),
            index % 16 < 4,
            old(self).dx@[(index / 16) as int]@[(index % 16) as int] + dx <= u16::MAX,
            old(self).dy@[(index / 16) as int]@[(index % 16) as int] + dy <= u16::MAX,
        ensures
            final(self).t == old(self).t,
            final(self).c == old(self).c,
            final(self).dx@.len() == old(self).dx@.len(),
            final(self).dy@.len() == old(self).dy@.len(),
            forall|r: int|
                0 <= r < old(self).dx@.len() && r != index / 16 ==> #[trigger] final(self).dx@[r]
                    == old(self).dx@[r],
            forall|r: int|
                0 <= r < old(self).dy@.len() && r != index / 16 ==> #[trigger] final(self).dy@[r]
                    == old(self).dy@[r],
            final(self).dx@[(index / 16) as int]@ == old(self).dx@[(index / 16) as int]@.update(
                (index % 16) as int,
                (old(self).dx@[(index / 16) as int]@[(index % 16) as int] + dx) as u16,
            ),
            final(self).dy@[(index / 16) as int]@ == old(self).dy@[(index / 16) as int]@.update(
                (index % 16) as int,
                (old(self).dy@[(index / 16) as int]@[(index % 16) as int] + dy) as u16,
            ),
    {
        let row = index / 16;
        let lane = index % 16;
        let a = self.dx[row];
        let na = replace_lane(a, a[lane] + dx, lane);
        self.dx.set(row, na);
        let b = self.dy[row];
        let nb = replace_lane(b, b[lane] + dy, lane);
        self.dy.set(row, nb);
    }
}

} // verus!
