use vstd::prelude::*;
use vstd::view::View as ModelView;
use vstd::string::StringExecFns;
use crate::view::{View, view_text};

verus! {

/// The line that closes a board's text.
pub open spec fn rule_text() -> Seq<char> {
    "==================================================="@
}

/// The zones of a board as a map from view to zone: a later pair for the
/// same view wins.
pub open spec fn zone_map<Z>(s: Seq<(View, Z)>) -> Map<View, Z>
    decreases s.len(),
{
    if s.len() == 0 {
        Map::empty()
    } else {
        zone_map(s.drop_last()).insert(s.last().0, s.last().1)
    }
}

/// No view has two zones.
pub open spec fn views_distinct<Z>(s: Seq<(View, Z)>) -> bool {
    forall|i: int, j: int| 0 <= i < j < s.len() ==> #[trigger] s[i].0 != #[trigger] s[j].0
}

/// A board: the view on show, and one zone per view.
#[derive(Clone, Debug)]
pub struct Board<Z> {
    current_view: View,
    zone: Vec<(View, Z)>,
}

impl<Z> Board<Z> {
    /// No view has two zones.
    pub closed spec fn wf(&self) -> bool {
        views_distinct(self.zone@)
    }

    /// The view on show.
    pub closed spec fn current(&self) -> View {
        self.current_view
    }

    /// The zone of each view.
    pub closed spec fn zones(&self) -> Map<View, Z> {
        zone_map(self.zone@)
    }

    /// The zones with their views, in the order they were added.
    pub closed spec fn entries(&self) -> Seq<(View, Z)> {
        self.zone@
    }

    /// The number of zones.
    pub fn zone_count(&self) -> (r: usize)
        ensures
            r == self.entries().len(),
    {
        self.zone.len()
    }

    /// The `i`-th zone, to change in place; its view stays.
    pub fn zone_mut(&mut self, i: usize) -> (z: &mut Z)
        requires
            i < old(self).entries().len(),
        ensures
            *z == old(self).entries()[i as int].1,
            final(self).entries() == old(self).entries().update(
                i as int,
                (old(self).entries()[i as int].0, *final(z)),
            ),
            final(self).current() == old(self).current(),
    {
        &mut self.zone[i].1
    }

    /// Changing a zone in place, its view kept, keeps the board well formed.
    pub proof fn law_zone_mut_keeps_wf(before: &Board<Z>, after: &Board<Z>, i: int)
        requires
            before.wf(),
            0 <= i < before.entries().len(),
            after.entries() == before.entries().update(
                i,
                (before.entries()[i].0, after.entries()[i].1),
            ),
        ensures
            after.wf(),
    {
        let s = before.entries();
        let t = after.entries();
        assert forall|a: int, b: int| 0 <= a < b < t.len() implies #[trigger] t[a].0
            != #[trigger] t[b].0 by {
            assert(t[a].0 == s[a].0 && t[b].0 == s[b].0);
        }
    }

    /// A board on the town view, without zones.
    pub fn empty() -> (b: Board<Z>)
        ensures
            b.wf(),
            b.current() == View::Town,
            b.zones() == Map::<View, Z>::empty(),
    {
        Board { current_view: View::Town, zone: Vec::new() }
    }

    /// A board on the given view, without zones.
    pub fn new(view: View) -> (b: Board<Z>)
        ensures
            b.wf(),
            b.current() == view,
            b.zones() == Map::<View, Z>::empty(),
    {
        Board { current_view: view, zone: Vec::new() }
    }

    /// The view on show.
    pub fn view(&self) -> (r: &View)
        ensures
            *r == self.current(),
    {
        &self.current_view
    }

    /// Shows another view.
    pub fn change_view(&mut self, new_view: View)
        ensures
            final(self).current() == new_view,
            final(self).zones() == old(self).zones(),
            final(self).wf() == old(self).wf(),
    {
        self.current_view = new_view;
    }

    /// The board as text: the title of its view, then a rule.
    pub fn as_text(&self) -> (r: String)
        ensures
            r@ == view_text(self.current()) + rule_text(),
    {
        let mut buf = String::new();
        buf.append(self.current_view.as_text());
        buf.append("===================================================");
        buf
    }

    /// Sets the zone of a view, replacing the one it had.
    pub fn add_zone(&mut self, view: View, zone: Z)
        requires
            old(self).wf(),
        ensures
            final(self).wf(),
            final(self).current() == old(self).current(),
            final(self).zones() == old(self).zones().insert(view, zone),
    {
        let n = self.zone.len();
        let mut i: usize = 0;
        while i < n
            invariant
                n == self.zone@.len(),
                0 <= i <= n,
                self.zone@ == old(self).zone@,
                self.current_view == old(self).current_view,
                views_distinct(self.zone@),
                forall|j: int| 0 <= j < i ==> self.zone@[j].0 != view,
            decreases n - i,
        {
            if self.zone[i].0 == view {
                let ghost before = self.zone@;
                proof {
                    lemma_zone_map_replace(before, i as int, view, zone);
                }
                self.zone.set(i, (view, zone));
                return ;
            }
            i = i + 1;
        }
        let ghost before = self.zone@;
        self.zone.push((view, zone));
        assert(self.zone@.drop_last() =~= before);
        assert(views_distinct(self.zone@)) by {
            assert forall|a: int, b: int| 0 <= a < b < self.zone@.len() implies #[trigger] self.zone@[a].0
                != #[trigger] self.zone@[b].0 by {
                if b < n {
                    assert(before[a].0 != before[b].0);
                }
            }
        }
    }
}

proof fn lemma_zone_map_replace<Z>(s: Seq<(View, Z)>, i: int, v: View, z: Z)
    requires
        views_distinct(s),
        0 <= i < s.len(),
        s[i].0 == v,
    ensures
        zone_map(s.update(i, (v, z))) == zone_map(s).insert(v, z),
        views_distinct(s.update(i, (v, z))),
    decreases s.len(),
{
    let t = s.update(i, (v, z));
    assert forall|a: int, b: int| 0 <= a < b < t.len() implies #[trigger] t[a].0 != #[trigger] t[b].0 by {
        if a == i {
            assert(s[b].0 != s[a].0);
        } else if b == i {
            assert(s[a].0 != s[b].0);
        } else {
            assert(s[a].0 != s[b].0);
        }
    }
    if i == s.len() - 1 {
        assert(t.drop_last() =~= s.drop_last());
        assert(zone_map(t) =~= zone_map(s).insert(v, z));
    } else {
        let d = s.drop_last();
        assert(views_distinct(d)) by {
            assert forall|a: int, b: int| 0 <= a < b < d.len() implies #[trigger] d[a].0
                != #[trigger] d[b].0 by {
                assert(d[a] == s[a] && d[b] == s[b]);
            }
        }
        lemma_zone_map_replace(d, i, v, z);
        assert(t.drop_last() =~= d.update(i, (v, z)));
        assert(s.last().0 != v) by {
            assert(s[s.len() - 1].0 != s[i].0);
        }
        assert(zone_map(t) =~= zone_map(s).insert(v, z));
    }
}

impl<Z: Clone> Board<Z> {
    /// A copy of the board: the same view on show, and each zone cloned, in
    /// the same order; a board without zones is copied exactly.
    pub fn duplicate(&self) -> (r: Board<Z>)
        ensures
            r.current() == self.current(),
            r.wf() == self.wf(),
            r.entries().len() == self.entries().len(),
            forall|i: int|
                0 <= i < self.entries().len() ==> (#[trigger] r.entries()[i]).0
                    == self.entries()[i].0 && cloned(self.entries()[i].1, r.entries()[i].1),
            self.zones() == Map::<View, Z>::empty() ==> r.zones() == self.zones(),
    {
        let mut zone: Vec<(View, Z)> = Vec::new();
        let n = self.zone.len();
        let mut i: usize = 0;
        while i < n
            invariant
                n == self.zone@.len(),
                0 <= i <= n,
                zone@.len() == i,
                forall|j: int|
                    0 <= j < i ==> (#[trigger] zone@[j]).0 == self.zone@[j].0 && cloned(
                        self.zone@[j].1,
                        zone@[j].1,
                    ),
            decreases n - i,
        {
            let v = self.zone[i].0;
            let z = self.zone[i].1.clone();
            zone.push((v, z));
            i = i + 1;
        }
        let r = Board { current_view: self.current_view, zone };
        assert(r.wf() == self.wf()) by {
            if self.wf() {
                assert forall|a: int, b: int| 0 <= a < b < r.zone@.len() implies #[trigger] r.zone@[a].0
                    != #[trigger] r.zone@[b].0 by {
                    assert(self.zone@[a].0 != self.zone@[b].0);
                }
            }
            if r.wf() {
                assert forall|a: int, b: int| 0 <= a < b < self.zone@.len() implies #[trigger] self.zone@[a].0
                    != #[trigger] self.zone@[b].0 by {
                    assert(r.zone@[a].0 != r.zone@[b].0);
                }
            }
        }
        proof {
            if self.zones() == Map::<View, Z>::empty() && self.zone@.len() > 0 {
                let s = self.zone@;
                assert(zone_map(s).contains_key(s.last().0));
            }
            if self.zone@.len() == 0 {
                assert(r.zone@.len() == 0);
            }
        }
        r
    }
}

} // verus!
